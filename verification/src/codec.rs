//! The wire codec: serializers for the messages the server emits (a
//! wrapped session description, a bare connectivity candidate) and the
//! parser for the inbound signaling envelope.

use vstd::prelude::*;

use crate::json::{escape, ser_u64, append_escaped, append_u64, text_ok};
use crate::json::{is_digit, parse_string_body, parse_uint_rest, skip_value, skip_ws,
    lemma_parse_string_body_advances, pass_value, read_string_body, read_uint_rest, ws_to};
use crate::json::{lemma_fold_ser_u64, lemma_parse_digit_region, lemma_parse_escaped,
    lemma_parse_plain_string, plain_byte};
use crate::types::{clone_bytes, Candidate, CandidateV, Envelope, EnvelopeV, SdpKind, SdpPart, SdpPartV,
    SessionDescription, SessionDescriptionV};

verus! {

/// The wire bytes `{\"sdp\":{\"type\":\"`.
pub open spec fn desc_open() -> Seq<u8> {
    seq![123u8, 34u8, 115u8, 100u8, 112u8, 34u8, 58u8, 123u8, 34u8, 116u8, 121u8, 112u8, 101u8, 34u8, 58u8, 34u8]
}

fn push_desc_open(out: &mut Vec<u8>)
    ensures
        final(out)@ == old(out)@ + desc_open(),
{
    out.push(123);
    out.push(34);
    out.push(115);
    out.push(100);
    out.push(112);
    out.push(34);
    out.push(58);
    out.push(123);
    out.push(34);
    out.push(116);
    out.push(121);
    out.push(112);
    out.push(101);
    out.push(34);
    out.push(58);
    out.push(34);
    proof {
        assert(out@ =~= old(out)@ + desc_open());
    }
}

/// The wire bytes `offer`.
pub open spec fn kind_offer() -> Seq<u8> {
    seq![111u8, 102u8, 102u8, 101u8, 114u8]
}

fn push_kind_offer(out: &mut Vec<u8>)
    ensures
        final(out)@ == old(out)@ + kind_offer(),
{
    out.push(111);
    out.push(102);
    out.push(102);
    out.push(101);
    out.push(114);
    proof {
        assert(out@ =~= old(out)@ + kind_offer());
    }
}

/// The wire bytes `answer`.
pub open spec fn kind_answer() -> Seq<u8> {
    seq![97u8, 110u8, 115u8, 119u8, 101u8, 114u8]
}

fn push_kind_answer(out: &mut Vec<u8>)
    ensures
        final(out)@ == old(out)@ + kind_answer(),
{
    out.push(97);
    out.push(110);
    out.push(115);
    out.push(119);
    out.push(101);
    out.push(114);
    proof {
        assert(out@ =~= old(out)@ + kind_answer());
    }
}

/// The wire bytes `\",\"sdp\":\"`.
pub open spec fn desc_mid() -> Seq<u8> {
    seq![34u8, 44u8, 34u8, 115u8, 100u8, 112u8, 34u8, 58u8, 34u8]
}

fn push_desc_mid(out: &mut Vec<u8>)
    ensures
        final(out)@ == old(out)@ + desc_mid(),
{
    out.push(34);
    out.push(44);
    out.push(34);
    out.push(115);
    out.push(100);
    out.push(112);
    out.push(34);
    out.push(58);
    out.push(34);
    proof {
        assert(out@ =~= old(out)@ + desc_mid());
    }
}

/// The wire bytes `\"}}`.
pub open spec fn desc_close() -> Seq<u8> {
    seq![34u8, 125u8, 125u8]
}

fn push_desc_close(out: &mut Vec<u8>)
    ensures
        final(out)@ == old(out)@ + desc_close(),
{
    out.push(34);
    out.push(125);
    out.push(125);
    proof {
        assert(out@ =~= old(out)@ + desc_close());
    }
}

/// The wire bytes `{\"candidate\":\"`.
pub open spec fn cand_open() -> Seq<u8> {
    seq![123u8, 34u8, 99u8, 97u8, 110u8, 100u8, 105u8, 100u8, 97u8, 116u8, 101u8, 34u8, 58u8, 34u8]
}

fn push_cand_open(out: &mut Vec<u8>)
    ensures
        final(out)@ == old(out)@ + cand_open(),
{
    out.push(123);
    out.push(34);
    out.push(99);
    out.push(97);
    out.push(110);
    out.push(100);
    out.push(105);
    out.push(100);
    out.push(97);
    out.push(116);
    out.push(101);
    out.push(34);
    out.push(58);
    out.push(34);
    proof {
        assert(out@ =~= old(out)@ + cand_open());
    }
}

/// The wire bytes `\",\"sdpMid\":`.
pub open spec fn cand_mid_key() -> Seq<u8> {
    seq![34u8, 44u8, 34u8, 115u8, 100u8, 112u8, 77u8, 105u8, 100u8, 34u8, 58u8]
}

fn push_cand_mid_key(out: &mut Vec<u8>)
    ensures
        final(out)@ == old(out)@ + cand_mid_key(),
{
    out.push(34);
    out.push(44);
    out.push(34);
    out.push(115);
    out.push(100);
    out.push(112);
    out.push(77);
    out.push(105);
    out.push(100);
    out.push(34);
    out.push(58);
    proof {
        assert(out@ =~= old(out)@ + cand_mid_key());
    }
}

/// The wire bytes `,\"sdpMLineIndex\":`.
pub open spec fn cand_mline_key() -> Seq<u8> {
    seq![44u8, 34u8, 115u8, 100u8, 112u8, 77u8, 76u8, 105u8, 110u8, 101u8, 73u8, 110u8, 100u8, 101u8, 120u8, 34u8, 58u8]
}

fn push_cand_mline_key(out: &mut Vec<u8>)
    ensures
        final(out)@ == old(out)@ + cand_mline_key(),
{
    out.push(44);
    out.push(34);
    out.push(115);
    out.push(100);
    out.push(112);
    out.push(77);
    out.push(76);
    out.push(105);
    out.push(110);
    out.push(101);
    out.push(73);
    out.push(110);
    out.push(100);
    out.push(101);
    out.push(120);
    out.push(34);
    out.push(58);
    proof {
        assert(out@ =~= old(out)@ + cand_mline_key());
    }
}

/// The wire bytes `,\"usernameFragment\":`.
pub open spec fn cand_ufrag_key() -> Seq<u8> {
    seq![44u8, 34u8, 117u8, 115u8, 101u8, 114u8, 110u8, 97u8, 109u8, 101u8, 70u8, 114u8, 97u8, 103u8, 109u8, 101u8, 110u8, 116u8, 34u8, 58u8]
}

fn push_cand_ufrag_key(out: &mut Vec<u8>)
    ensures
        final(out)@ == old(out)@ + cand_ufrag_key(),
{
    out.push(44);
    out.push(34);
    out.push(117);
    out.push(115);
    out.push(101);
    out.push(114);
    out.push(110);
    out.push(97);
    out.push(109);
    out.push(101);
    out.push(70);
    out.push(114);
    out.push(97);
    out.push(103);
    out.push(109);
    out.push(101);
    out.push(110);
    out.push(116);
    out.push(34);
    out.push(58);
    proof {
        assert(out@ =~= old(out)@ + cand_ufrag_key());
    }
}

/// The wire bytes `}`.
pub open spec fn cand_close() -> Seq<u8> {
    seq![125u8]
}

fn push_cand_close(out: &mut Vec<u8>)
    ensures
        final(out)@ == old(out)@ + cand_close(),
{
    out.push(125);
    proof {
        assert(out@ =~= old(out)@ + cand_close());
    }
}

/// The wire bytes `null`.
pub open spec fn lit_null() -> Seq<u8> {
    seq![110u8, 117u8, 108u8, 108u8]
}

fn push_lit_null(out: &mut Vec<u8>)
    ensures
        final(out)@ == old(out)@ + lit_null(),
{
    out.push(110);
    out.push(117);
    out.push(108);
    out.push(108);
    proof {
        assert(out@ =~= old(out)@ + lit_null());
    }
}

/// An optional text field on the wire: `null`, or a quoted escaped string.
pub open spec fn ser_opt_text(o: Option<Seq<u8>>) -> Seq<u8> {
    match o {
        None => lit_null(),
        Some(t) => seq![34u8] + escape(t) + seq![34u8],
    }
}

/// An optional number field on the wire: `null`, or decimal digits.
pub open spec fn ser_opt_num(o: Option<u64>) -> Seq<u8> {
    match o {
        None => lit_null(),
        Some(n) => ser_u64(n as int),
    }
}

/// The wire form of a session description sent to a client: the
/// description wrapped in an object under the single key `sdp`.
pub open spec fn ser_description(d: SessionDescriptionV) -> Seq<u8> {
    desc_open() + (match d.kind {
        SdpKind::Offer => kind_offer(),
        SdpKind::Answer => kind_answer(),
    }) + desc_mid() + escape(d.sdp) + desc_close()
}

/// The wire form of a connectivity candidate sent to a client: a bare
/// object with the candidate line and its optional identifiers.
pub open spec fn ser_candidate(c: CandidateV) -> Seq<u8> {
    cand_open() + escape(c.candidate) + cand_mid_key() + ser_opt_text(c.sdp_mid)
        + cand_mline_key() + ser_opt_num(c.sdp_mline_index) + cand_ufrag_key()
        + ser_opt_text(c.username_fragment) + cand_close()
}

/// Serializes a session description for the outbound channel.
pub fn serialize_description(d: &SessionDescription) -> (r: Vec<u8>)
    ensures
        r@ == ser_description(d@),
{
    let mut out: Vec<u8> = Vec::new();
    push_desc_open(&mut out);
    match d.kind {
        SdpKind::Offer => push_kind_offer(&mut out),
        SdpKind::Answer => push_kind_answer(&mut out),
    }
    push_desc_mid(&mut out);
    append_escaped(&mut out, &d.sdp);
    push_desc_close(&mut out);
    proof {
        assert(out@ =~= ser_description(d@));
    }
    out
}

fn push_opt_text(out: &mut Vec<u8>, o: &Option<Vec<u8>>)
    ensures
        final(out)@ == old(out)@ + ser_opt_text(match o {
            Some(t) => Some(t@),
            None => None,
        }),
{
    match o {
        None => push_lit_null(out),
        Some(t) => {
            out.push(34);
            append_escaped(out, t);
            out.push(34);
            proof {
                assert(out@ =~= old(out)@ + (seq![34u8] + escape(t@) + seq![34u8]));
            }
        },
    }
}

/// Serializes a connectivity candidate for the outbound channel.
pub fn serialize_candidate(c: &Candidate) -> (r: Vec<u8>)
    ensures
        r@ == ser_candidate(c@),
{
    let mut out: Vec<u8> = Vec::new();
    push_cand_open(&mut out);
    append_escaped(&mut out, &c.candidate);
    push_cand_mid_key(&mut out);
    push_opt_text(&mut out, &c.sdp_mid);
    push_cand_mline_key(&mut out);
    match c.sdp_mline_index {
        None => push_lit_null(&mut out),
        Some(n) => append_u64(&mut out, n),
    }
    push_cand_ufrag_key(&mut out);
    push_opt_text(&mut out, &c.username_fragment);
    push_cand_close(&mut out);
    proof {
        assert(out@ =~= ser_candidate(c@));
    }
    out
}


/// The member key `headers`.
pub open spec fn key_headers() -> Seq<u8> {
    seq![104u8, 101u8, 97u8, 100u8, 101u8, 114u8, 115u8]
}

fn is_key_headers(k: &Vec<u8>) -> (r: bool)
    ensures
        r == (k@ == key_headers()),
{
    let r = k.len() == 7 && k[0] == 104 && k[1] == 101 && k[2] == 97 && k[3] == 100 && k[4] == 101 && k[5] == 114 && k[6] == 115;
    proof {
        if k@.len() == 7 && k@[0] == 104u8 && k@[1] == 101u8 && k@[2] == 97u8 && k@[3] == 100u8 && k@[4] == 101u8 && k@[5] == 114u8 && k@[6] == 115u8 {
            assert(k@ =~= key_headers());
        } else {
            assert(k@ != key_headers());
        }
    }
    r
}

/// The member key `stream-group`.
pub open spec fn key_stream_group() -> Seq<u8> {
    seq![115u8, 116u8, 114u8, 101u8, 97u8, 109u8, 45u8, 103u8, 114u8, 111u8, 117u8, 112u8]
}

fn is_key_stream_group(k: &Vec<u8>) -> (r: bool)
    ensures
        r == (k@ == key_stream_group()),
{
    let r = k.len() == 12 && k[0] == 115 && k[1] == 116 && k[2] == 114 && k[3] == 101 && k[4] == 97 && k[5] == 109 && k[6] == 45 && k[7] == 103 && k[8] == 114 && k[9] == 111 && k[10] == 117 && k[11] == 112;
    proof {
        if k@.len() == 12 && k@[0] == 115u8 && k@[1] == 116u8 && k@[2] == 114u8 && k@[3] == 101u8 && k@[4] == 97u8 && k@[5] == 109u8 && k@[6] == 45u8 && k@[7] == 103u8 && k@[8] == 114u8 && k@[9] == 111u8 && k@[10] == 117u8 && k@[11] == 112u8 {
            assert(k@ =~= key_stream_group());
        } else {
            assert(k@ != key_stream_group());
        }
    }
    r
}

/// The member key `sdp`.
pub open spec fn key_sdp() -> Seq<u8> {
    seq![115u8, 100u8, 112u8]
}

fn is_key_sdp(k: &Vec<u8>) -> (r: bool)
    ensures
        r == (k@ == key_sdp()),
{
    let r = k.len() == 3 && k[0] == 115 && k[1] == 100 && k[2] == 112;
    proof {
        if k@.len() == 3 && k@[0] == 115u8 && k@[1] == 100u8 && k@[2] == 112u8 {
            assert(k@ =~= key_sdp());
        } else {
            assert(k@ != key_sdp());
        }
    }
    r
}

/// The member key `type`.
pub open spec fn key_type() -> Seq<u8> {
    seq![116u8, 121u8, 112u8, 101u8]
}

fn is_key_type(k: &Vec<u8>) -> (r: bool)
    ensures
        r == (k@ == key_type()),
{
    let r = k.len() == 4 && k[0] == 116 && k[1] == 121 && k[2] == 112 && k[3] == 101;
    proof {
        if k@.len() == 4 && k@[0] == 116u8 && k@[1] == 121u8 && k@[2] == 112u8 && k@[3] == 101u8 {
            assert(k@ =~= key_type());
        } else {
            assert(k@ != key_type());
        }
    }
    r
}

/// The member key `ice`.
pub open spec fn key_ice() -> Seq<u8> {
    seq![105u8, 99u8, 101u8]
}

fn is_key_ice(k: &Vec<u8>) -> (r: bool)
    ensures
        r == (k@ == key_ice()),
{
    let r = k.len() == 3 && k[0] == 105 && k[1] == 99 && k[2] == 101;
    proof {
        if k@.len() == 3 && k@[0] == 105u8 && k@[1] == 99u8 && k@[2] == 101u8 {
            assert(k@ =~= key_ice());
        } else {
            assert(k@ != key_ice());
        }
    }
    r
}

/// The member key `candidate`.
pub open spec fn key_candidate() -> Seq<u8> {
    seq![99u8, 97u8, 110u8, 100u8, 105u8, 100u8, 97u8, 116u8, 101u8]
}

fn is_key_candidate(k: &Vec<u8>) -> (r: bool)
    ensures
        r == (k@ == key_candidate()),
{
    let r = k.len() == 9 && k[0] == 99 && k[1] == 97 && k[2] == 110 && k[3] == 100 && k[4] == 105 && k[5] == 100 && k[6] == 97 && k[7] == 116 && k[8] == 101;
    proof {
        if k@.len() == 9 && k@[0] == 99u8 && k@[1] == 97u8 && k@[2] == 110u8 && k@[3] == 100u8 && k@[4] == 105u8 && k@[5] == 100u8 && k@[6] == 97u8 && k@[7] == 116u8 && k@[8] == 101u8 {
            assert(k@ =~= key_candidate());
        } else {
            assert(k@ != key_candidate());
        }
    }
    r
}

/// The member key `sdpMid`.
pub open spec fn key_sdp_mid() -> Seq<u8> {
    seq![115u8, 100u8, 112u8, 77u8, 105u8, 100u8]
}

fn is_key_sdp_mid(k: &Vec<u8>) -> (r: bool)
    ensures
        r == (k@ == key_sdp_mid()),
{
    let r = k.len() == 6 && k[0] == 115 && k[1] == 100 && k[2] == 112 && k[3] == 77 && k[4] == 105 && k[5] == 100;
    proof {
        if k@.len() == 6 && k@[0] == 115u8 && k@[1] == 100u8 && k@[2] == 112u8 && k@[3] == 77u8 && k@[4] == 105u8 && k@[5] == 100u8 {
            assert(k@ =~= key_sdp_mid());
        } else {
            assert(k@ != key_sdp_mid());
        }
    }
    r
}

/// The member key `sdpMLineIndex`.
pub open spec fn key_mline() -> Seq<u8> {
    seq![115u8, 100u8, 112u8, 77u8, 76u8, 105u8, 110u8, 101u8, 73u8, 110u8, 100u8, 101u8, 120u8]
}

fn is_key_mline(k: &Vec<u8>) -> (r: bool)
    ensures
        r == (k@ == key_mline()),
{
    let r = k.len() == 13 && k[0] == 115 && k[1] == 100 && k[2] == 112 && k[3] == 77 && k[4] == 76 && k[5] == 105 && k[6] == 110 && k[7] == 101 && k[8] == 73 && k[9] == 110 && k[10] == 100 && k[11] == 101 && k[12] == 120;
    proof {
        if k@.len() == 13 && k@[0] == 115u8 && k@[1] == 100u8 && k@[2] == 112u8 && k@[3] == 77u8 && k@[4] == 76u8 && k@[5] == 105u8 && k@[6] == 110u8 && k@[7] == 101u8 && k@[8] == 73u8 && k@[9] == 110u8 && k@[10] == 100u8 && k@[11] == 101u8 && k@[12] == 120u8 {
            assert(k@ =~= key_mline());
        } else {
            assert(k@ != key_mline());
        }
    }
    r
}

/// The member key `usernameFragment`.
pub open spec fn key_ufrag() -> Seq<u8> {
    seq![117u8, 115u8, 101u8, 114u8, 110u8, 97u8, 109u8, 101u8, 70u8, 114u8, 97u8, 103u8, 109u8, 101u8, 110u8, 116u8]
}

fn is_key_ufrag(k: &Vec<u8>) -> (r: bool)
    ensures
        r == (k@ == key_ufrag()),
{
    let r = k.len() == 16 && k[0] == 117 && k[1] == 115 && k[2] == 101 && k[3] == 114 && k[4] == 110 && k[5] == 97 && k[6] == 109 && k[7] == 101 && k[8] == 70 && k[9] == 114 && k[10] == 97 && k[11] == 103 && k[12] == 109 && k[13] == 101 && k[14] == 110 && k[15] == 116;
    proof {
        if k@.len() == 16 && k@[0] == 117u8 && k@[1] == 115u8 && k@[2] == 101u8 && k@[3] == 114u8 && k@[4] == 110u8 && k@[5] == 97u8 && k@[6] == 109u8 && k@[7] == 101u8 && k@[8] == 70u8 && k@[9] == 114u8 && k@[10] == 97u8 && k@[11] == 103u8 && k@[12] == 109u8 && k@[13] == 101u8 && k@[14] == 110u8 && k@[15] == 116u8 {
            assert(k@ =~= key_ufrag());
        } else {
            assert(k@ != key_ufrag());
        }
    }
    r
}

pub open spec fn o_view(x: Option<Vec<u8>>) -> Option<Seq<u8>> {
    match x {
        Some(v) => Some(v@),
        None => None,
    }
}

pub open spec fn oo_view(x: Option<Option<Vec<u8>>>) -> Option<Option<Seq<u8>>> {
    match x {
        Some(v) => Some(o_view(v)),
        None => None,
    }
}

/// A field value that was present and a string, or anything else.
pub open spec fn flat(x: Option<Option<Seq<u8>>>) -> Option<Seq<u8>> {
    match x {
        Some(Some(v)) => Some(v),
        _ => None,
    }
}

/// What a description object means: a recognized sub-type with its text
/// (absent when the text is missing or not a string), else invalid.
pub open spec fn sdp_part_of(ty: Option<Option<Seq<u8>>>, sd: Option<Option<Seq<u8>>>)
    -> SdpPartV {
    match ty {
        Some(Some(t)) => if t == kind_offer() {
            SdpPartV::Desc(SdpKind::Offer, flat(sd))
        } else if t == kind_answer() {
            SdpPartV::Desc(SdpKind::Answer, flat(sd))
        } else {
            SdpPartV::Invalid
        },
        _ => SdpPartV::Invalid,
    }
}

/// The members of a `headers` object, from the first key at `i`: the
/// last `stream-group` string wins. A `stream-group` that is present but
/// not a string makes the whole envelope malformed.
pub open spec fn parse_hdr_members(s: Seq<u8>, i: int, room: Option<Seq<u8>>)
    -> Option<(Option<Seq<u8>>, int)>
    decreases s.len() - i, 0int when 0 <= i <= s.len()
{
    if !(i < s.len() && s[i] == 0x22) {
        None
    } else {
        match parse_string_body(s, i + 1) {
            Some(k) => {
                let c = skip_ws(s, k.1);
                if !(i < k.1 && k.1 <= c && c <= s.len()) {
                    None
                } else if c < s.len() && s[c] == 0x3a {
                    let vi = skip_ws(s, c + 1);
                    if !(c + 1 <= vi && vi <= s.len()) {
                        None
                    } else {
                        let known = k.0 == key_stream_group();
                        let parsed: Option<(Option<Seq<u8>>, int)> = if known {
                            if vi < s.len() && s[vi] == 0x22 {
                                match parse_string_body(s, vi + 1) {
                                    Some(v) => Some((Some(v.0), v.1)),
                                    None => None,
                                }
                            } else {
                                None
                            }
                        } else {
                            match skip_value(s, vi) {
                                Some(e) => Some((room, e)),
                                None => None,
                            }
                        };
                        match parsed {
                            Some(p) => {
                                let room2 = p.0;
                                let e = p.1;
                                let t = skip_ws(s, e);
                                if !(vi < e && e <= t && t <= s.len()) {
                                    None
                                } else if t < s.len() && s[t] == 0x2c {
                                    let ni = skip_ws(s, t + 1);
                                    if !(t + 1 <= ni && ni <= s.len()) {
                                        None
                                    } else {
                                        parse_hdr_members(s, ni, room2)
                                    }
                                } else if t < s.len() && s[t] == 0x7d {
                                    Some((room2, t + 1))
                                } else {
                                    None
                                }
                            },
                            None => None,
                        }
                    }
                } else {
                    None
                }
            },
            None => None,
        }
    }
}

/// A `headers` value: an object may carry `stream-group`; any other
/// well-formed value carries no room.
pub open spec fn parse_headers_value(s: Seq<u8>, i: int) -> Option<(Option<Seq<u8>>, int)>
    decreases s.len() - i, 1int when 0 <= i <= s.len()
{
    if i < s.len() && s[i] == 0x7b {
        let a = skip_ws(s, i + 1);
        if !(i + 1 <= a && a <= s.len()) {
            None
        } else if a < s.len() && s[a] == 0x7d {
            Some((None, a + 1))
        } else {
            parse_hdr_members(s, a, None)
        }
    } else {
        match skip_value(s, i) {
            Some(e) => Some((None, e)),
            None => None,
        }
    }
}

/// The members of a description object: the last `type` and `sdp` win;
/// a non-string value for either counts as absent or unrecognized.
pub open spec fn parse_sdp_members(s: Seq<u8>, i: int, ty: Option<Option<Seq<u8>>>,
    sd: Option<Option<Seq<u8>>>) -> Option<((Option<Option<Seq<u8>>>, Option<Option<Seq<u8>>>),
    int)>
    decreases s.len() - i, 0int when 0 <= i <= s.len()
{
    if !(i < s.len() && s[i] == 0x22) {
        None
    } else {
        match parse_string_body(s, i + 1) {
            Some(k) => {
                let c = skip_ws(s, k.1);
                if !(i < k.1 && k.1 <= c && c <= s.len()) {
                    None
                } else if c < s.len() && s[c] == 0x3a {
                    let vi = skip_ws(s, c + 1);
                    if !(c + 1 <= vi && vi <= s.len()) {
                        None
                    } else {
                        let is_ty = k.0 == key_type();
                        let is_sd = k.0 == key_sdp();
                        let strval: Option<Option<(Seq<u8>, int)>> = if vi < s.len() && s[vi]
                            == 0x22 {
                            match parse_string_body(s, vi + 1) {
                                Some(v) => Some(Some((v.0, v.1))),
                                None => None,
                            }
                        } else {
                            match skip_value(s, vi) {
                                Some(e) => Some(None),
                                None => None,
                            }
                        };
                        match strval {
                            Some(sv) => {
                                let e = match sv {
                                    Some(v) => v.1,
                                    None => skip_value(s, vi).unwrap(),
                                };
                                let ty2 = if is_ty {
                                    Some(match sv {
                                        Some(v) => Some(v.0),
                                        None => None,
                                    })
                                } else {
                                    ty
                                };
                                let sd2 = if is_sd {
                                    Some(match sv {
                                        Some(v) => Some(v.0),
                                        None => None,
                                    })
                                } else {
                                    sd
                                };
                                let t = skip_ws(s, e);
                                if !(vi < e && e <= t && t <= s.len()) {
                                    None
                                } else if t < s.len() && s[t] == 0x2c {
                                    let ni = skip_ws(s, t + 1);
                                    if !(t + 1 <= ni && ni <= s.len()) {
                                        None
                                    } else {
                                        parse_sdp_members(s, ni, ty2, sd2)
                                    }
                                } else if t < s.len() && s[t] == 0x7d {
                                    Some(((ty2, sd2), t + 1))
                                } else {
                                    None
                                }
                            },
                            None => None,
                        }
                    }
                } else {
                    None
                }
            },
            None => None,
        }
    }
}

/// A `sdp` value: an object is read for `type` and `sdp`; any other
/// well-formed value is an invalid description part.
pub open spec fn parse_sdp_value(s: Seq<u8>, i: int) -> Option<(SdpPartV, int)>
    decreases s.len() - i, 1int when 0 <= i <= s.len()
{
    if i < s.len() && s[i] == 0x7b {
        let a = skip_ws(s, i + 1);
        if !(i + 1 <= a && a <= s.len()) {
            None
        } else if a < s.len() && s[a] == 0x7d {
            Some((SdpPartV::Invalid, a + 1))
        } else {
            match parse_sdp_members(s, a, None, None) {
                Some(r) => Some((sdp_part_of(r.0.0, r.0.1), r.1)),
                None => None,
            }
        }
    } else {
        match skip_value(s, i) {
            Some(e) => Some((SdpPartV::Invalid, e)),
            None => None,
        }
    }
}


/// The members of a candidate object: `candidate` must be a string;
/// `sdpMid` and `usernameFragment` may be strings or null; the media-line
/// index may be a number or null. Any other typing marks the candidate
/// malformed; the last occurrence of a key wins.
pub open spec fn parse_ice_members(s: Seq<u8>, i: int, cand: Option<Seq<u8>>,
    mid: Option<Seq<u8>>, mline: Option<u64>, ufrag: Option<Seq<u8>>, bad: bool)
    -> Option<(Option<CandidateV>, int)>
    decreases s.len() - i, 0int when 0 <= i <= s.len()
{
    if !(i < s.len() && s[i] == 0x22) {
        None
    } else {
        match parse_string_body(s, i + 1) {
            Some(k) => {
                let c = skip_ws(s, k.1);
                if !(i < k.1 && k.1 <= c && c <= s.len()) {
                    None
                } else if c < s.len() && s[c] == 0x3a {
                    let vi = skip_ws(s, c + 1);
                    if !(c + 1 <= vi && vi <= s.len()) {
                        None
                    } else {
                        let is_cand = k.0 == key_candidate();
                        let is_mid = k.0 == key_sdp_mid();
                        let is_mline = k.0 == key_mline();
                        let is_ufrag = k.0 == key_ufrag();
                        let strv: Option<(Seq<u8>, int)> = if vi < s.len() && s[vi] == 0x22 {
                            match parse_string_body(s, vi + 1) {
                                Some(v) => Some(v),
                                None => None,
                            }
                        } else {
                            None
                        };
                        let numv: Option<(int, int)> = if vi < s.len() && is_digit(s[vi]) {
                            match parse_uint_rest(s, vi, 0) {
                                Some(v) => Some(v),
                                None => None,
                            }
                        } else {
                            None
                        };
                        let nullv: bool = vi + 4 <= s.len() && s[vi] == 0x6e && s[vi + 1]
                            == 0x75 && s[vi + 2] == 0x6c && s[vi + 3] == 0x6c;
                        match skip_value(s, vi) {
                            Some(e) => {
                                let cand2 = if is_cand {
                                    match strv {
                                        Some(v) => Some(v.0),
                                        None => cand,
                                    }
                                } else {
                                    cand
                                };
                                let mid2 = if is_mid {
                                    match strv {
                                        Some(v) => Some(v.0),
                                        None => None,
                                    }
                                } else {
                                    mid
                                };
                                let mline2 = if is_mline {
                                    match numv {
                                        Some(v) => Some(v.0 as u64),
                                        None => None,
                                    }
                                } else {
                                    mline
                                };
                                let ufrag2 = if is_ufrag {
                                    match strv {
                                        Some(v) => Some(v.0),
                                        None => None,
                                    }
                                } else {
                                    ufrag
                                };
                                let bad2 = bad || (is_cand && strv is None) || (is_mid
                                    && strv is None && !nullv) || (is_mline && numv is None
                                    && !nullv) || (is_ufrag && strv is None && !nullv);
                                let t = skip_ws(s, e);
                                if !(vi < e && e <= t && t <= s.len()) {
                                    None
                                } else if t < s.len() && s[t] == 0x2c {
                                    let ni = skip_ws(s, t + 1);
                                    if !(t + 1 <= ni && ni <= s.len()) {
                                        None
                                    } else {
                                        parse_ice_members(s, ni, cand2, mid2, mline2, ufrag2,
                                            bad2)
                                    }
                                } else if t < s.len() && s[t] == 0x7d {
                                    if bad2 || cand2 is None {
                                        Some((None, t + 1))
                                    } else {
                                        Some((Some(CandidateV {
                                            candidate: cand2.unwrap(),
                                            sdp_mid: mid2,
                                            sdp_mline_index: mline2,
                                            username_fragment: ufrag2,
                                        }), t + 1))
                                    }
                                } else {
                                    None
                                }
                            },
                            None => None,
                        }
                    }
                } else {
                    None
                }
            },
            None => None,
        }
    }
}

/// An `ice` value: an object is read as a candidate; any other
/// well-formed value is a malformed candidate, for which the default is
/// substituted downstream.
pub open spec fn parse_ice_value(s: Seq<u8>, i: int) -> Option<(Option<CandidateV>, int)>
    decreases s.len() - i, 1int when 0 <= i <= s.len()
{
    if i < s.len() && s[i] == 0x7b {
        let a = skip_ws(s, i + 1);
        if !(i + 1 <= a && a <= s.len()) {
            None
        } else if a < s.len() && s[a] == 0x7d {
            Some((None, a + 1))
        } else {
            parse_ice_members(s, a, None, None, None, None, false)
        }
    } else {
        match skip_value(s, i) {
            Some(e) => Some((None, e)),
            None => None,
        }
    }
}

/// The members of the envelope itself: `headers`, `sdp` and `ice` are
/// read, anything else is skipped; the last occurrence of a key wins.
pub open spec fn parse_env_members(s: Seq<u8>, i: int, acc: EnvelopeV) -> Option<(EnvelopeV,
    int)>
    decreases s.len() - i, 0int when 0 <= i <= s.len()
{
    if !(i < s.len() && s[i] == 0x22) {
        None
    } else {
        match parse_string_body(s, i + 1) {
            Some(k) => {
                let c = skip_ws(s, k.1);
                if !(i < k.1 && k.1 <= c && c <= s.len()) {
                    None
                } else if c < s.len() && s[c] == 0x3a {
                    let vi = skip_ws(s, c + 1);
                    if !(c + 1 <= vi && vi <= s.len()) {
                        None
                    } else {
                        let parsed: Option<(EnvelopeV, int)> = if k.0 == key_headers() {
                            match parse_headers_value(s, vi) {
                                Some(r) => Some((EnvelopeV { room: r.0, ..acc }, r.1)),
                                None => None,
                            }
                        } else if k.0 == key_sdp() {
                            match parse_sdp_value(s, vi) {
                                Some(r) => Some((EnvelopeV { sdp: Some(r.0), ..acc }, r.1)),
                                None => None,
                            }
                        } else if k.0 == key_ice() {
                            match parse_ice_value(s, vi) {
                                Some(r) => Some((EnvelopeV { ice: Some(r.0), ..acc }, r.1)),
                                None => None,
                            }
                        } else {
                            match skip_value(s, vi) {
                                Some(e) => Some((acc, e)),
                                None => None,
                            }
                        };
                        match parsed {
                            Some(p) => {
                                let acc2 = p.0;
                                let e = p.1;
                                let t = skip_ws(s, e);
                                if !(vi < e && e <= t && t <= s.len()) {
                                    None
                                } else if t < s.len() && s[t] == 0x2c {
                                    let ni = skip_ws(s, t + 1);
                                    if !(t + 1 <= ni && ni <= s.len()) {
                                        None
                                    } else {
                                        parse_env_members(s, ni, acc2)
                                    }
                                } else if t < s.len() && s[t] == 0x7d {
                                    Some((acc2, t + 1))
                                } else {
                                    None
                                }
                            },
                            None => None,
                        }
                    }
                } else {
                    None
                }
            },
            None => None,
        }
    }
}

/// The empty envelope: no room header, no description, no candidate.
pub open spec fn empty_envelope() -> EnvelopeV {
    EnvelopeV { room: None, sdp: None, ice: None }
}

/// A whole inbound envelope: one object, read for `headers`, `sdp` and
/// `ice`, with nothing but whitespace around it. Anything else is a
/// protocol parse failure and the message is dropped.
pub open spec fn parse_envelope_spec(s: Seq<u8>) -> Option<EnvelopeV> {
    let i0 = skip_ws(s, 0);
    if !(0 <= i0 && i0 <= s.len()) {
        None
    } else if i0 < s.len() && s[i0] == 0x7b {
        let a = skip_ws(s, i0 + 1);
        if !(i0 + 1 <= a && a <= s.len()) {
            None
        } else {
            let parsed: Option<(EnvelopeV, int)> = if a < s.len() && s[a] == 0x7d {
                Some((empty_envelope(), a + 1))
            } else {
                parse_env_members(s, a, empty_envelope())
            };
            match parsed {
                Some(p) => if 0 <= p.1 <= s.len() && skip_ws(s, p.1) == s.len() {
                    Some(p.0)
                } else {
                    None
                },
                None => None,
            }
        }
    } else {
        None
    }
}

/// A bare candidate object, as the server itself emits one: read back as
/// a candidate, with nothing but whitespace around it.
pub open spec fn parse_candidate_spec(s: Seq<u8>) -> Option<Option<CandidateV>> {
    let i0 = skip_ws(s, 0);
    if !(0 <= i0 && i0 <= s.len()) {
        None
    } else {
        match parse_ice_value(s, i0) {
            Some(p) => if 0 <= p.1 <= s.len() && skip_ws(s, p.1) == s.len() {
                Some(p.0)
            } else {
                None
            },
            None => None,
        }
    }
}


fn is_kind_offer(k: &Vec<u8>) -> (r: bool)
    ensures
        r == (k@ == kind_offer()),
{
    let r = k.len() == 5 && k[0] == 111 && k[1] == 102 && k[2] == 102 && k[3] == 101 && k[4]
        == 114;
    proof {
        if k@.len() == 5 && k@[0] == 111u8 && k@[1] == 102u8 && k@[2] == 102u8 && k@[3]
            == 101u8 && k@[4] == 114u8 {
            assert(k@ =~= kind_offer());
        } else {
            assert(k@ != kind_offer());
        }
    }
    r
}

fn is_kind_answer(k: &Vec<u8>) -> (r: bool)
    ensures
        r == (k@ == kind_answer()),
{
    let r = k.len() == 6 && k[0] == 97 && k[1] == 110 && k[2] == 115 && k[3] == 119 && k[4]
        == 101 && k[5] == 114;
    proof {
        if k@.len() == 6 && k@[0] == 97u8 && k@[1] == 110u8 && k@[2] == 115u8 && k@[3]
            == 119u8 && k@[4] == 101u8 && k@[5] == 114u8 {
            assert(k@ =~= kind_answer());
        } else {
            assert(k@ != kind_answer());
        }
    }
    r
}

fn read_hdr_members(s: &[u8], i: usize, room: Option<Vec<u8>>) -> (r: Option<(Option<Vec<u8>>,
    usize)>)
    requires
        i <= s@.len(),
    ensures
        match r {
            Some(p) => parse_hdr_members(s@, i as int, o_view(room)) == Some((o_view(p.0),
                p.1 as int)) && i < p.1 <= s@.len(),
            None => parse_hdr_members(s@, i as int, o_view(room)) is None,
        },
    decreases s@.len() - i, 0int,
{
    if !(i < s.len() && s[i] == 0x22) {
        return None;
    }
    let (k, k1) = match read_string_body(s, i + 1) {
        Some(p) => p,
        None => {
            return None;
        },
    };
    proof {
        lemma_parse_string_body_advances(s@, i as int + 1);
    }
    let c = ws_to(s, k1);
    if !(i < k1 && k1 <= c && c <= s.len()) {
        return None;
    }
    if c < s.len() && s[c] == 0x3a {
        let vi = ws_to(s, c + 1);
        let known = is_key_stream_group(&k);
        let parsed: Option<(Option<Vec<u8>>, usize)> = if known {
            if vi < s.len() && s[vi] == 0x22 {
                match read_string_body(s, vi + 1) {
                    Some(v) => Some((Some(v.0), v.1)),
                    None => None,
                }
            } else {
                None
            }
        } else {
            match pass_value(s, vi) {
                Some(e) => Some((room, e)),
                None => None,
            }
        };
        match parsed {
            Some((room2, e)) => {
                proof {
                    if vi < s@.len() {
                        lemma_parse_string_body_advances(s@, vi as int + 1);
                    }
                }
                let t = ws_to(s, e);
                if !(vi < e && e <= t && t <= s.len()) {
                    return None;
                }
                if t < s.len() && s[t] == 0x2c {
                    let ni = ws_to(s, t + 1);
                    read_hdr_members(s, ni, room2)
                } else if t < s.len() && s[t] == 0x7d {
                    Some((room2, t + 1))
                } else {
                    None
                }
            },
            None => None,
        }
    } else {
        None
    }
}

fn read_headers_value(s: &[u8], i: usize) -> (r: Option<(Option<Vec<u8>>, usize)>)
    requires
        i <= s@.len(),
    ensures
        match r {
            Some(p) => parse_headers_value(s@, i as int) == Some((o_view(p.0), p.1 as int))
                && i < p.1 <= s@.len(),
            None => parse_headers_value(s@, i as int) is None,
        },
    decreases s@.len() - i, 1int,
{
    if i < s.len() && s[i] == 0x7b {
        let a = ws_to(s, i + 1);
        if a < s.len() && s[a] == 0x7d {
            Some((None, a + 1))
        } else {
            read_hdr_members(s, a, None)
        }
    } else {
        match pass_value(s, i) {
            Some(e) => Some((None, e)),
            None => None,
        }
    }
}

fn read_sdp_members(s: &[u8], i: usize, ty: Option<Option<Vec<u8>>>, sd: Option<Option<
    Vec<u8>>>) -> (r: Option<((Option<Option<Vec<u8>>>, Option<Option<Vec<u8>>>), usize)>)
    requires
        i <= s@.len(),
    ensures
        match r {
            Some(p) => parse_sdp_members(s@, i as int, oo_view(ty), oo_view(sd)) == Some(((
                oo_view(p.0.0), oo_view(p.0.1)), p.1 as int)) && i < p.1 <= s@.len(),
            None => parse_sdp_members(s@, i as int, oo_view(ty), oo_view(sd)) is None,
        },
    decreases s@.len() - i, 0int,
{
    if !(i < s.len() && s[i] == 0x22) {
        return None;
    }
    let (k, k1) = match read_string_body(s, i + 1) {
        Some(p) => p,
        None => {
            return None;
        },
    };
    proof {
        lemma_parse_string_body_advances(s@, i as int + 1);
    }
    let c = ws_to(s, k1);
    if !(i < k1 && k1 <= c && c <= s.len()) {
        return None;
    }
    if c < s.len() && s[c] == 0x3a {
        let vi = ws_to(s, c + 1);
        let is_ty = is_key_type(&k);
        let is_sd = is_key_sdp(&k);
        let sv_e: Option<(Option<Vec<u8>>, usize)> = if vi < s.len() && s[vi] == 0x22 {
            match read_string_body(s, vi + 1) {
                Some((v, e)) => Some((Some(v), e)),
                None => None,
            }
        } else {
            match pass_value(s, vi) {
                Some(e) => Some((None, e)),
                None => None,
            }
        };
        proof {
            if vi < s@.len() {
                lemma_parse_string_body_advances(s@, vi as int + 1);
            }
        }
        match sv_e {
            Some((sv, e)) => {
                let (ty2, sd2) = if is_ty {
                    (Some(sv), sd)
                } else if is_sd {
                    (ty, Some(sv))
                } else {
                    (ty, sd)
                };
                let t = ws_to(s, e);
                if !(vi < e && e <= t && t <= s.len()) {
                    return None;
                }
                if t < s.len() && s[t] == 0x2c {
                    let ni = ws_to(s, t + 1);
                    read_sdp_members(s, ni, ty2, sd2)
                } else if t < s.len() && s[t] == 0x7d {
                    Some(((ty2, sd2), t + 1))
                } else {
                    None
                }
            },
            None => None,
        }
    } else {
        None
    }
}


fn read_sdp_value(s: &[u8], i: usize) -> (r: Option<(SdpPart, usize)>)
    requires
        i <= s@.len(),
    ensures
        match r {
            Some(p) => parse_sdp_value(s@, i as int) == Some((p.0@, p.1 as int)) && i < p.1
                <= s@.len(),
            None => parse_sdp_value(s@, i as int) is None,
        },
    decreases s@.len() - i, 1int,
{
    if i < s.len() && s[i] == 0x7b {
        let a = ws_to(s, i + 1);
        if a < s.len() && s[a] == 0x7d {
            Some((SdpPart::Invalid, a + 1))
        } else {
            match read_sdp_members(s, a, None, None) {
                Some(((ty, sd), e)) => {
                    let part = match ty {
                        Some(Some(t)) => {
                            if is_kind_offer(&t) {
                                SdpPart::Desc(SdpKind::Offer, match sd {
                                    Some(Some(x)) => Some(x),
                                    _ => None,
                                })
                            } else if is_kind_answer(&t) {
                                SdpPart::Desc(SdpKind::Answer, match sd {
                                    Some(Some(x)) => Some(x),
                                    _ => None,
                                })
                            } else {
                                SdpPart::Invalid
                            }
                        },
                        _ => SdpPart::Invalid,
                    };
                    Some((part, e))
                },
                None => None,
            }
        }
    } else {
        match pass_value(s, i) {
            Some(e) => Some((SdpPart::Invalid, e)),
            None => None,
        }
    }
}

fn read_ice_members(s: &[u8], i: usize, cand: Option<Vec<u8>>, mid: Option<Vec<u8>>,
    mline: Option<u64>, ufrag: Option<Vec<u8>>, bad: bool) -> (r: Option<(Option<Candidate>,
    usize)>)
    requires
        i <= s@.len(),
    ensures
        match r {
            Some(p) => parse_ice_members(s@, i as int, o_view(cand), o_view(mid), mline,
                o_view(ufrag), bad) == Some((match p.0 {
                Some(ref cv) => Some(cv@),
                None => None,
            }, p.1 as int)) && i < p.1 <= s@.len(),
            None => parse_ice_members(s@, i as int, o_view(cand), o_view(mid), mline,
                o_view(ufrag), bad) is None,
        },
    decreases s@.len() - i, 0int,
{
    if !(i < s.len() && s[i] == 0x22) {
        return None;
    }
    let (k, k1) = match read_string_body(s, i + 1) {
        Some(p) => p,
        None => {
            return None;
        },
    };
    proof {
        lemma_parse_string_body_advances(s@, i as int + 1);
    }
    let c = ws_to(s, k1);
    if !(i < k1 && k1 <= c && c <= s.len()) {
        return None;
    }
    if c < s.len() && s[c] == 0x3a {
        let vi = ws_to(s, c + 1);
        let is_cand = is_key_candidate(&k);
        let is_mid = is_key_sdp_mid(&k);
        let is_mline = is_key_mline(&k);
        let is_ufrag = is_key_ufrag(&k);
        let strv: Option<(Vec<u8>, usize)> = if vi < s.len() && s[vi] == 0x22 {
            match read_string_body(s, vi + 1) {
                Some(v) => Some(v),
                None => None,
            }
        } else {
            None
        };
        let numv: Option<(u64, usize)> = if vi < s.len() && s[vi] >= 0x30 && s[vi] <= 0x39 {
            match read_uint_rest(s, vi, 0) {
                Some(v) => Some(v),
                None => None,
            }
        } else {
            None
        };
        let nullv: bool = vi < s.len() && s.len() - vi >= 4 && s[vi] == 0x6e && s[vi + 1]
            == 0x75 && s[vi + 2] == 0x6c && s[vi + 3] == 0x6c;
        proof {
            if vi < s@.len() {
                lemma_parse_string_body_advances(s@, vi as int + 1);
            }
        }
        match pass_value(s, vi) {
            Some(e) => {
                let strv_none = strv.is_none();
                let numv_none = numv.is_none();
                let cand2 = if is_cand {
                    match strv {
                        Some(ref v) => Some(clone_bytes(&v.0)),
                        None => cand,
                    }
                } else {
                    cand
                };
                let mid2 = if is_mid {
                    match strv {
                        Some(ref v) => Some(clone_bytes(&v.0)),
                        None => None,
                    }
                } else {
                    mid
                };
                let mline2 = if is_mline {
                    match numv {
                        Some(v) => Some(v.0),
                        None => None,
                    }
                } else {
                    mline
                };
                let ufrag2 = if is_ufrag {
                    match strv {
                        Some(ref v) => Some(clone_bytes(&v.0)),
                        None => None,
                    }
                } else {
                    ufrag
                };
                let bad2 = bad || (is_cand && strv_none) || (is_mid && strv_none && !nullv)
                    || (is_mline && numv_none && !nullv) || (is_ufrag && strv_none && !nullv);
                let t = ws_to(s, e);
                if !(vi < e && e <= t && t <= s.len()) {
                    return None;
                }
                if t < s.len() && s[t] == 0x2c {
                    let ni = ws_to(s, t + 1);
                    read_ice_members(s, ni, cand2, mid2, mline2, ufrag2, bad2)
                } else if t < s.len() && s[t] == 0x7d {
                    let cand2_none = cand2.is_none();
                    if bad2 || cand2_none {
                        Some((None, t + 1))
                    } else {
                        let cv = Candidate {
                            candidate: match cand2 {
                                Some(v) => v,
                                None => {
                                    proof {
                                        assert(false);
                                    }
                                    Vec::new()
                                },
                            },
                            sdp_mid: mid2,
                            sdp_mline_index: mline2,
                            username_fragment: ufrag2,
                        };
                        proof {
                            assert(cv@ =~= parse_ice_members(s@, i as int, o_view(cand),
                                o_view(mid), mline, o_view(ufrag),
                                bad).unwrap().0.unwrap());
                        }
                        Some((Some(cv), t + 1))
                    }
                } else {
                    None
                }
            },
            None => None,
        }
    } else {
        None
    }
}

fn read_ice_value(s: &[u8], i: usize) -> (r: Option<(Option<Candidate>, usize)>)
    requires
        i <= s@.len(),
    ensures
        match r {
            Some(p) => parse_ice_value(s@, i as int) == Some((match p.0 {
                Some(ref cv) => Some(cv@),
                None => None,
            }, p.1 as int)) && i < p.1 <= s@.len(),
            None => parse_ice_value(s@, i as int) is None,
        },
    decreases s@.len() - i, 1int,
{
    if i < s.len() && s[i] == 0x7b {
        let a = ws_to(s, i + 1);
        if a < s.len() && s[a] == 0x7d {
            Some((None, a + 1))
        } else {
            read_ice_members(s, a, None, None, None, None, false)
        }
    } else {
        match pass_value(s, i) {
            Some(e) => Some((None, e)),
            None => None,
        }
    }
}

fn read_env_members(s: &[u8], i: usize, acc: Envelope) -> (r: Option<(Envelope, usize)>)
    requires
        i <= s@.len(),
    ensures
        match r {
            Some(p) => parse_env_members(s@, i as int, acc@) == Some((p.0@, p.1 as int))
                && i < p.1 <= s@.len(),
            None => parse_env_members(s@, i as int, acc@) is None,
        },
    decreases s@.len() - i, 0int,
{
    let mut acc = acc;
    if !(i < s.len() && s[i] == 0x22) {
        return None;
    }
    let (k, k1) = match read_string_body(s, i + 1) {
        Some(p) => p,
        None => {
            return None;
        },
    };
    proof {
        lemma_parse_string_body_advances(s@, i as int + 1);
    }
    let c = ws_to(s, k1);
    if !(i < k1 && k1 <= c && c <= s.len()) {
        return None;
    }
    if c < s.len() && s[c] == 0x3a {
        let vi = ws_to(s, c + 1);
        let ghost acc0 = acc@;
        let e: usize;
        if is_key_headers(&k) {
            match read_headers_value(s, vi) {
                Some((room, e2)) => {
                    acc.room = room;
                    e = e2;
                    proof {
                        assert(acc@ =~= EnvelopeV { room: parse_headers_value(s@,
                            vi as int).unwrap().0, ..acc0 });
                    }
                },
                None => {
                    return None;
                },
            }
        } else if is_key_sdp(&k) {
            match read_sdp_value(s, vi) {
                Some((part, e2)) => {
                    acc.sdp = Some(part);
                    e = e2;
                    proof {
                        assert(acc@ =~= EnvelopeV { sdp: Some(parse_sdp_value(s@,
                            vi as int).unwrap().0), ..acc0 });
                    }
                },
                None => {
                    return None;
                },
            }
        } else if is_key_ice(&k) {
            match read_ice_value(s, vi) {
                Some((co, e2)) => {
                    acc.ice = Some(co);
                    e = e2;
                    proof {
                        assert(acc@ =~= EnvelopeV { ice: Some(parse_ice_value(s@,
                            vi as int).unwrap().0), ..acc0 });
                    }
                },
                None => {
                    return None;
                },
            }
        } else {
            match pass_value(s, vi) {
                Some(e2) => {
                    e = e2;
                },
                None => {
                    return None;
                },
            }
        }
        let t = ws_to(s, e);
        if !(vi < e && e <= t && t <= s.len()) {
            return None;
        }
        if t < s.len() && s[t] == 0x2c {
            let ni = ws_to(s, t + 1);
            read_env_members(s, ni, acc)
        } else if t < s.len() && s[t] == 0x7d {
            Some((acc, t + 1))
        } else {
            None
        }
    } else {
        None
    }
}

/// Parses one inbound signaling envelope from its wire bytes: an object
/// read for its room header, session-description part and candidate
/// part. Anything malformed yields nothing, and the message is dropped.
pub fn parse_envelope(s: &[u8]) -> (r: Option<Envelope>)
    ensures
        match r {
            Some(env) => parse_envelope_spec(s@) == Some(env@),
            None => parse_envelope_spec(s@) is None,
        },
{
    let i0 = ws_to(s, 0);
    if i0 < s.len() && s[i0] == 0x7b {
        let a = ws_to(s, i0 + 1);
        let parsed: Option<(Envelope, usize)> = if a < s.len() && s[a] == 0x7d {
            let env = Envelope { room: None, sdp: None, ice: None };
            proof {
                assert(env@ =~= empty_envelope());
            }
            Some((env, a + 1))
        } else {
            let env = Envelope { room: None, sdp: None, ice: None };
            proof {
                assert(env@ =~= empty_envelope());
            }
            read_env_members(s, a, env)
        };
        match parsed {
            Some((env, e)) => {
                if ws_to(s, e) == s.len() {
                    Some(env)
                } else {
                    None
                }
            },
            None => None,
        }
    } else {
        None
    }
}

/// Parses a bare candidate object, the shape the server itself emits.
/// The outer option is wire well-formedness; the inner is whether the
/// object carried a usable candidate.
pub fn parse_candidate(s: &[u8]) -> (r: Option<Option<Candidate>>)
    ensures
        match r {
            Some(Some(ref cv)) => parse_candidate_spec(s@) == Some(Some(cv@)),
            Some(None) => parse_candidate_spec(s@) == Some(None::<CandidateV>),
            None => parse_candidate_spec(s@) is None,
        },
{
    let i0 = ws_to(s, 0);
    match read_ice_value(s, i0) {
        Some((co, e)) => {
            if ws_to(s, e) == s.len() {
                Some(co)
            } else {
                None
            }
        },
        None => None,
    }
}


impl CandidateV {
    /// Text that the wire codec can carry: no raw control bytes beyond
    /// the escapable ones in any of the string fields.
    pub open spec fn wire_ok(self) -> bool {
        &&& text_ok(self.candidate)
        &&& match self.sdp_mid {
            Some(m) => text_ok(m),
            None => true,
        }
        &&& match self.username_fragment {
            Some(u) => text_ok(u),
            None => true,
        }
    }
}

/// One optional text value on the wire parses back to itself: what the
/// string probe, the null probe and the generic skip each yield at its
/// position.
proof fn lemma_opt_text_value(w: Seq<u8>, vi: int, o: Option<Seq<u8>>)
    requires
        0 <= vi,
        match o {
            Some(t) => text_ok(t),
            None => true,
        },
        vi + ser_opt_text(o).len() < w.len(),
        forall|k: int| 0 <= k < ser_opt_text(o).len() ==> w[vi + k] == ser_opt_text(o)[k],
    ensures
        ({
            let e = vi + ser_opt_text(o).len();
            match o {
                Some(t) => {
                    &&& w[vi] == 0x22
                    &&& parse_string_body(w, vi + 1) == Some((t, e))
                    &&& skip_value(w, vi) == Some(e)
                    &&& !(vi + 4 <= w.len() && w[vi] == 0x6e && w[vi + 1] == 0x75 && w[vi
                        + 2] == 0x6c && w[vi + 3] == 0x6c)
                    &&& !is_digit(w[vi])
                },
                None => {
                    &&& w[vi] == 0x6e
                    &&& vi + 4 <= w.len() && w[vi + 1] == 0x75 && w[vi + 2] == 0x6c && w[vi
                        + 3] == 0x6c
                    &&& skip_value(w, vi) == Some(e)
                    &&& !is_digit(w[vi])
                },
            }
        }),
{
    let e = vi + ser_opt_text(o).len();
    match o {
        Some(t) => {
            assert(ser_opt_text(o) == seq![34u8] + escape(t) + seq![34u8]);
            assert(w[vi + 0] == ser_opt_text(o)[0]);
            assert(w[vi] == 0x22);
            assert forall|k: int| 0 <= k < escape(t).len() implies w[vi + 1 + k]
                == escape(t)[k] by {
                assert(ser_opt_text(o)[1 + k] == escape(t)[k]);
                assert(w[vi + (1 + k)] == ser_opt_text(o)[1 + k]);
            }
            assert(ser_opt_text(o)[1 + escape(t).len() as int] == 0x22);
            assert(w[vi + (1 + escape(t).len() as int)] == 0x22);
            lemma_parse_escaped(w, vi + 1, t);
            assert(skip_value(w, vi) == Some(e));
        },
        None => {
            assert(ser_opt_text(o) == lit_null());
            assert(w[vi + 0] == lit_null()[0]);
            assert(w[vi + 1] == lit_null()[1]);
            assert(w[vi + 2] == lit_null()[2]);
            assert(w[vi + 3] == lit_null()[3]);
            assert(skip_value(w, vi) == Some(vi + 4));
        },
    }
}

/// Serializing a connectivity candidate and parsing the wire bytes back
/// yields an equivalent structure.
#[verifier::rlimit(100)]
pub proof fn lemma_candidate_round_trip(c: CandidateV)
    requires
        c.wire_ok(),
    ensures
        parse_candidate_spec(ser_candidate(c)) == Some(Some(c)),
{
    let w = ser_candidate(c);
    let a = cand_open();
    let b = escape(c.candidate);
    let cm = cand_mid_key();
    let d = ser_opt_text(c.sdp_mid);
    let em = cand_mline_key();
    let f = ser_opt_num(c.sdp_mline_index);
    let gm = cand_ufrag_key();
    let h = ser_opt_text(c.username_fragment);
    let o1 = a.len() as int;
    let o2 = o1 + b.len();
    let o3 = o2 + cm.len();
    let o4 = o3 + d.len();
    let o5 = o4 + em.len();
    let o6 = o5 + f.len();
    let o7 = o6 + gm.len();
    let o8 = o7 + h.len();
    assert(w.len() == o8 + 1);
    assert forall|k: int| 0 <= k < a.len() implies w[k] == a[k] by {}
    assert forall|k: int| 0 <= k < b.len() implies w[o1 + k] == b[k] by {}
    assert forall|k: int| 0 <= k < cm.len() implies w[o2 + k] == cm[k] by {}
    assert forall|k: int| 0 <= k < d.len() implies w[o3 + k] == d[k] by {}
    assert forall|k: int| 0 <= k < em.len() implies w[o4 + k] == em[k] by {}
    assert forall|k: int| 0 <= k < f.len() implies w[o5 + k] == f[k] by {}
    assert forall|k: int| 0 <= k < gm.len() implies w[o6 + k] == gm[k] by {}
    assert forall|k: int| 0 <= k < h.len() implies w[o7 + k] == h[k] by {}
    assert(w[o8] == 0x7d);

    // the opening brace and the first key
    assert(skip_ws(w, 0) == 0);
    assert(w[0] == 0x7b);
    assert(skip_ws(w, 1) == 1);
    assert(w[1] == 0x22);
    assert forall|k: int| 2 <= k < 11 implies plain_byte(#[trigger] w[k]) by {}
    assert(w[11] == 0x22);
    lemma_parse_plain_string(w, 2, 11);
    assert(w.subrange(2, 11) =~= key_candidate());
    assert(skip_ws(w, 12) == 12 && w[12] == 0x3a);
    assert(skip_ws(w, 13) == 13);
    // the candidate line itself
    assert(w[13] == 0x22);
    assert forall|k: int| 0 <= k < b.len() implies w[14 + k] == escape(c.candidate)[k] by {
        assert(w[o1 + k] == b[k]);
    }
    assert(w[14 + b.len() as int] == 0x22) by {
        assert(w[o2 + 0] == cm[0]);
    }
    lemma_parse_escaped(w, 14, c.candidate);
    assert(parse_string_body(w, 14) == Some((c.candidate, o2 + 1)));
    assert(skip_value(w, 13) == Some(o2 + 1));
    assert(key_candidate() != key_sdp_mid() && key_candidate() != key_mline()
        && key_candidate() != key_ufrag());
    // on to the second member
    assert(w[o2 + 1] == 0x2c && w[o2 + 2] == 0x22);
    assert(skip_ws(w, o2 + 1) == o2 + 1);
    assert(skip_ws(w, o2 + 2) == o2 + 2);
    assert(parse_ice_members(w, 1, None, None, None, None, false) == parse_ice_members(w, o2
        + 2, Some(c.candidate), None, None, None, false));

    // the sdpMid member
    assert forall|k: int| o2 + 3 <= k < o2 + 9 implies plain_byte(#[trigger] w[k]) by {
        assert(w[k] == cm[k - o2]);
    }
    assert(w[o2 + 9] == 0x22 && w[o2 + 10] == 0x3a);
    lemma_parse_plain_string(w, o2 + 3, o2 + 9);
    assert(w.subrange(o2 + 3, o2 + 9) =~= key_sdp_mid());
    assert(key_sdp_mid() != key_candidate() && key_sdp_mid() != key_mline() && key_sdp_mid()
        != key_ufrag());
    assert(skip_ws(w, o2 + 10) == o2 + 10);
    assert(skip_ws(w, o2 + 11) == o3) by {
        if c.sdp_mid is Some {
            assert(w[o3 + 0] == d[0]);
        } else {
            assert(w[o3 + 0] == d[0]);
        }
    }
    lemma_opt_text_value(w, o3, c.sdp_mid);
    assert(w[o4 + 0] == em[0]);
    assert(w[o4] == 0x2c);
    assert(skip_ws(w, o4) == o4);
    assert(w[o4 + 1] == 0x22);
    assert(skip_ws(w, o4 + 1) == o4 + 1);
    assert(parse_ice_members(w, o2 + 2, Some(c.candidate), None, None, None, false)
        == parse_ice_members(w, o4 + 1, Some(c.candidate), c.sdp_mid, None, None, false));

    // the media-line index member
    assert forall|k: int| o4 + 2 <= k < o4 + 15 implies plain_byte(#[trigger] w[k]) by {
        assert(w[k] == em[k - o4]);
    }
    assert(w[o4 + 15] == 0x22 && w[o4 + 16] == 0x3a);
    lemma_parse_plain_string(w, o4 + 2, o4 + 15);
    assert(w.subrange(o4 + 2, o4 + 15) =~= key_mline());
    assert(key_mline() != key_candidate() && key_mline() != key_sdp_mid() && key_mline()
        != key_ufrag());
    assert(skip_ws(w, o4 + 16) == o4 + 16);
    assert(skip_ws(w, o4 + 17) == o5) by {
        assert(w[o5 + 0] == f[0]);
        match c.sdp_mline_index {
            Some(n) => {
                lemma_fold_ser_u64(n as int);
            },
            None => {},
        }
    }
    match c.sdp_mline_index {
        Some(n) => {
            lemma_fold_ser_u64(n as int);
            assert forall|k: int| o5 <= k < o6 implies is_digit(#[trigger] w[k]) by {
                assert(w[k] == f[k - o5]);
            }
            assert(w[o6 + 0] == gm[0]);
            assert(w[o6] == 0x2c);
            assert(!is_digit(w[o6]));
            assert(w.subrange(o5, o6) =~= ser_u64(n as int));
            lemma_parse_digit_region(w, o5, o6, 0);
            assert(parse_uint_rest(w, o5, 0) == Some((n as int, o6)));
            assert(is_digit(w[o5])) by {
                assert(w[o5 + 0] == f[0]);
            }
            assert(skip_value(w, o5) == Some(o6));
            assert(w[o5] != 0x22 && w[o5] != 0x6e);
        },
        None => {
            assert(f == lit_null());
            assert(w[o5 + 0] == lit_null()[0]);
            assert(w[o5 + 1] == lit_null()[1]);
            assert(w[o5 + 2] == lit_null()[2]);
            assert(w[o5 + 3] == lit_null()[3]);
            assert(skip_value(w, o5) == Some(o5 + 4));
            assert(!is_digit(w[o5]) && w[o5] != 0x22);
        },
    }
    assert(w[o6 + 0] == gm[0]);
    assert(w[o6] == 0x2c);
    assert(skip_ws(w, o6) == o6);
    assert(w[o6 + 1] == 0x22);
    assert(skip_ws(w, o6 + 1) == o6 + 1);
    assert(parse_ice_members(w, o4 + 1, Some(c.candidate), c.sdp_mid, None, None, false)
        == parse_ice_members(w, o6 + 1, Some(c.candidate), c.sdp_mid, c.sdp_mline_index,
        None, false));

    // the username-fragment member
    assert forall|k: int| o6 + 2 <= k < o6 + 18 implies plain_byte(#[trigger] w[k]) by {
        assert(w[k] == gm[k - o6]);
    }
    assert(w[o6 + 18] == 0x22 && w[o6 + 19] == 0x3a);
    lemma_parse_plain_string(w, o6 + 2, o6 + 18);
    assert(w.subrange(o6 + 2, o6 + 18) =~= key_ufrag());
    assert(key_ufrag() != key_candidate() && key_ufrag() != key_sdp_mid() && key_ufrag()
        != key_mline());
    assert(skip_ws(w, o6 + 19) == o6 + 19);
    assert(skip_ws(w, o6 + 20) == o7) by {
        assert(w[o7 + 0] == h[0]);
    }
    lemma_opt_text_value(w, o7, c.username_fragment);
    assert(skip_ws(w, o8) == o8);
    assert(parse_ice_members(w, o6 + 1, Some(c.candidate), c.sdp_mid, c.sdp_mline_index,
        None, false) == Some((Some(CandidateV {
        candidate: c.candidate,
        sdp_mid: c.sdp_mid,
        sdp_mline_index: c.sdp_mline_index,
        username_fragment: c.username_fragment,
    }), o8 + 1)));
    assert(CandidateV {
        candidate: c.candidate,
        sdp_mid: c.sdp_mid,
        sdp_mline_index: c.sdp_mline_index,
        username_fragment: c.username_fragment,
    } =~= c);

    // the whole wire text is one candidate object
    assert(parse_ice_value(w, 0) == Some((Some(c), o8 + 1)));
    assert(skip_ws(w, o8 + 1) == w.len());
    assert(parse_candidate_spec(w) == Some(Some(c)));
}


/// Serializing a session description and parsing the wire bytes back
/// yields an equivalent structure: the envelope carries exactly that
/// description, with no room header and no candidate.
#[verifier::rlimit(100)]
pub proof fn lemma_description_round_trip(d: SessionDescriptionV)
    requires
        text_ok(d.sdp),
    ensures
        parse_envelope_spec(ser_description(d)) == Some(EnvelopeV {
            room: None,
            sdp: Some(SdpPartV::Desc(d.kind, Some(d.sdp))),
            ice: None,
        }),
{
    let w = ser_description(d);
    let a = desc_open();
    let kl = match d.kind {
        SdpKind::Offer => kind_offer(),
        SdpKind::Answer => kind_answer(),
    };
    let m = desc_mid();
    let b = escape(d.sdp);
    let z = desc_close();
    let o1 = a.len() as int;
    let o2 = o1 + kl.len();
    let o3 = o2 + m.len();
    let o4 = o3 + b.len();
    assert(w.len() == o4 + z.len());
    assert forall|k: int| 0 <= k < a.len() implies w[k] == a[k] by {}
    assert forall|k: int| 0 <= k < kl.len() implies w[o1 + k] == kl[k] by {}
    assert forall|k: int| 0 <= k < m.len() implies w[o2 + k] == m[k] by {}
    assert forall|k: int| 0 <= k < b.len() implies w[o3 + k] == b[k] by {}
    assert forall|k: int| 0 <= k < z.len() implies w[o4 + k] == z[k] by {}

    // the envelope object and its single `sdp` member
    assert(skip_ws(w, 0) == 0);
    assert(w[0] == 0x7b);
    assert(skip_ws(w, 1) == 1);
    assert(w[1] == 0x22);
    assert forall|k: int| 2 <= k < 5 implies plain_byte(#[trigger] w[k]) by {}
    assert(w[5] == 0x22);
    lemma_parse_plain_string(w, 2, 5);
    assert(w.subrange(2, 5) =~= key_sdp());
    assert(key_sdp() != key_headers());
    assert(key_sdp() != key_ice()) by {
        assert(key_sdp()[0] != key_ice()[0]);
    }
    assert(skip_ws(w, 6) == 6 && w[6] == 0x3a);
    assert(skip_ws(w, 7) == 7);

    // the description object: `type`, then `sdp`
    assert(w[7] == 0x7b);
    assert(skip_ws(w, 8) == 8);
    assert(w[8] == 0x22);
    assert forall|k: int| 9 <= k < 13 implies plain_byte(#[trigger] w[k]) by {}
    assert(w[13] == 0x22);
    lemma_parse_plain_string(w, 9, 13);
    assert(w.subrange(9, 13) =~= key_type());
    assert(key_type() != key_sdp());
    assert(skip_ws(w, 14) == 14 && w[14] == 0x3a);
    assert(skip_ws(w, 15) == 15);
    assert(w[15] == 0x22);
    assert forall|k: int| o1 <= k < o2 implies plain_byte(#[trigger] w[k]) by {
        assert(w[k] == kl[k - o1]);
    }
    assert(w[o2 + 0] == m[0]);
    assert(w[o2] == 0x22);
    lemma_parse_plain_string(w, o1, o2);
    assert(w.subrange(o1, o2) =~= kl);
    assert(w[o2 + 1] == 0x2c && w[o2 + 2] == 0x22);
    assert(skip_ws(w, o2 + 1) == o2 + 1);
    assert(skip_ws(w, o2 + 2) == o2 + 2);
    assert(parse_sdp_members(w, 8, None, None) == parse_sdp_members(w, o2 + 2,
        Some(Some(kl)), None));

    // the `sdp` member of the description
    assert forall|k: int| o2 + 3 <= k < o2 + 6 implies plain_byte(#[trigger] w[k]) by {
        assert(w[k] == m[k - o2]);
    }
    assert(w[o2 + 6] == 0x22 && w[o2 + 7] == 0x3a);
    lemma_parse_plain_string(w, o2 + 3, o2 + 6);
    assert(w.subrange(o2 + 3, o2 + 6) =~= key_sdp());
    assert(skip_ws(w, o2 + 7) == o2 + 7);
    assert(skip_ws(w, o2 + 8) == o2 + 8);
    assert(w[o2 + 8] == 0x22);
    assert forall|k: int| 0 <= k < b.len() implies w[o3 + k] == escape(d.sdp)[k] by {}
    assert(w[o3 + b.len() as int] == 0x22) by {
        assert(w[o4 + 0] == z[0]);
    }
    lemma_parse_escaped(w, o3, d.sdp);
    assert(parse_string_body(w, o3) == Some((d.sdp, o4 + 1)));
    assert(w[o4 + 1] == 0x7d);
    assert(skip_ws(w, o4 + 1) == o4 + 1);
    assert(parse_sdp_members(w, o2 + 2, Some(Some(kl)), None) == Some(((Some(Some(kl)),
        Some(Some(d.sdp))), o4 + 2)));
    assert(kind_offer() != kind_answer());
    assert(sdp_part_of(Some(Some(kl)), Some(Some(d.sdp))) == SdpPartV::Desc(d.kind,
        Some(d.sdp)));
    assert(parse_sdp_value(w, 7) == Some((SdpPartV::Desc(d.kind, Some(d.sdp)), o4 + 2)));

    // back at the envelope: the closing brace and nothing after it
    assert(w[o4 + 2] == 0x7d);
    assert(skip_ws(w, o4 + 2) == o4 + 2);
    let env = EnvelopeV { room: None, sdp: Some(SdpPartV::Desc(d.kind, Some(d.sdp))),
        ice: None };
    assert(EnvelopeV { sdp: Some(SdpPartV::Desc(d.kind, Some(d.sdp))), ..empty_envelope() }
        =~= env);
    assert(parse_env_members(w, 1, empty_envelope()) == Some((env, o4 + 3)));
    assert(skip_ws(w, o4 + 3) == w.len());
    assert(parse_envelope_spec(w) == Some(env));
}

} // verus!
