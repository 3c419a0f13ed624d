//! Byte-level building blocks of the wire format: string escaping and
//! unescaping, unsigned-number digits, and whitespace, each as a spec
//! function with a matching executable form.

use vstd::prelude::*;

verus! {

/// Text that can ride inside a wire string: no control bytes other than
/// tab, line feed, form feed, backspace and carriage return, which the
/// escaper knows how to write.
pub open spec fn text_ok(s: Seq<u8>) -> bool {
    forall|i: int|
        0 <= i < s.len() ==> !((#[trigger] s[i]) < 0x20 && s[i] != 0x09 && s[i] != 0x0a
            && s[i] != 0x0d && s[i] != 0x08 && s[i] != 0x0c)
}

/// How one byte is written inside a quoted wire string.
pub open spec fn esc_byte(b: u8) -> Seq<u8> {
    if b == 0x22 {
        seq![0x5cu8, 0x22u8]
    } else if b == 0x5c {
        seq![0x5cu8, 0x5cu8]
    } else if b == 0x0a {
        seq![0x5cu8, 0x6eu8]
    } else if b == 0x0d {
        seq![0x5cu8, 0x72u8]
    } else if b == 0x09 {
        seq![0x5cu8, 0x74u8]
    } else if b == 0x08 {
        seq![0x5cu8, 0x62u8]
    } else if b == 0x0c {
        seq![0x5cu8, 0x66u8]
    } else {
        seq![b]
    }
}

/// A byte sequence written as the body of a quoted wire string.
pub open spec fn escape(s: Seq<u8>) -> Seq<u8>
    decreases s.len(),
{
    if s.len() == 0 {
        Seq::<u8>::empty()
    } else {
        esc_byte(s[0]) + escape(s.drop_first())
    }
}

pub proof fn lemma_escape_append(a: Seq<u8>, b: Seq<u8>)
    ensures
        escape(a + b) == escape(a) + escape(b),
    decreases a.len(),
{
    if a.len() == 0 {
        assert(a + b =~= b);
        assert(escape(a) + escape(b) =~= escape(b));
    } else {
        assert((a + b)[0] == a[0]);
        assert((a + b).drop_first() =~= a.drop_first() + b);
        lemma_escape_append(a.drop_first(), b);
        assert(escape(a + b) =~= escape(a) + escape(b));
    }
}

/// Appends the escaped body of `s` to `out`.
#[verifier::loop_isolation(false)]
pub fn append_escaped(out: &mut Vec<u8>, s: &Vec<u8>)
    ensures
        final(out)@ == old(out)@ + escape(s@),
{
    let ghost base = out@;
    let mut i: usize = 0;
    proof {
        assert(s@.take(0) =~= Seq::<u8>::empty());
        assert(out@ =~= base + escape(s@.take(0)));
    }
    while i < s.len()
        invariant
            0 <= i <= s@.len(),
            out@ == base + escape(s@.take(i as int)),
        decreases s@.len() - i,
    {
        let b = s[i];
        proof {
            assert(s@.take(i as int + 1) =~= s@.take(i as int) + seq![s@[i as int]]);
            lemma_escape_append(s@.take(i as int), seq![s@[i as int]]);
            assert(seq![s@[i as int]].drop_first() =~= Seq::<u8>::empty());
            assert(escape(seq![s@[i as int]]) =~= esc_byte(s@[i as int]));
        }
        if b == 0x22 {
            out.push(0x5c);
            out.push(0x22);
        } else if b == 0x5c {
            out.push(0x5c);
            out.push(0x5c);
        } else if b == 0x0a {
            out.push(0x5c);
            out.push(0x6e);
        } else if b == 0x0d {
            out.push(0x5c);
            out.push(0x72);
        } else if b == 0x09 {
            out.push(0x5c);
            out.push(0x74);
        } else if b == 0x08 {
            out.push(0x5c);
            out.push(0x62);
        } else if b == 0x0c {
            out.push(0x5c);
            out.push(0x66);
        } else {
            out.push(b);
        }
        proof {
            assert(out@ =~= base + escape(s@.take(i as int + 1)));
        }
        i += 1;
    }
    proof {
        assert(s@.take(s@.len() as int) =~= s@);
    }
}

/// The decimal digits of a non-negative number.
pub open spec fn ser_u64(n: int) -> Seq<u8>
    decreases n,
{
    if n < 0 {
        Seq::<u8>::empty()
    } else if n < 10 {
        seq![(48 + n) as u8]
    } else {
        ser_u64(n / 10) + seq![(48 + n % 10) as u8]
    }
}

/// Appends the decimal digits of `n` to `out`.
pub fn append_u64(out: &mut Vec<u8>, n: u64)
    ensures
        final(out)@ == old(out)@ + ser_u64(n as int),
    decreases n,
{
    if n < 10 {
        out.push(48 + (n as u8));
        proof {
            assert(out@ =~= old(out)@ + ser_u64(n as int));
        }
    } else {
        append_u64(out, n / 10);
        out.push(48 + ((n % 10) as u8));
        proof {
            assert(out@ =~= old(out)@ + ser_u64(n as int));
        }
    }
}

/// Whitespace between tokens of the wire format.
pub open spec fn is_ws(b: u8) -> bool {
    b == 0x20 || b == 0x09 || b == 0x0a || b == 0x0d
}

/// The first position at or after `i` that does not hold whitespace.
pub open spec fn skip_ws(s: Seq<u8>, i: int) -> int
    decreases s.len() - i when 0 <= i <= s.len()
{
    if i < s.len() && is_ws(s[i]) {
        skip_ws(s, i + 1)
    } else {
        i
    }
}

pub proof fn lemma_skip_ws(s: Seq<u8>, i: int)
    requires
        0 <= i <= s.len(),
    ensures
        i <= skip_ws(s, i) <= s.len(),
        skip_ws(s, i) < s.len() ==> !is_ws(s[skip_ws(s, i)]),
    decreases s.len() - i,
{
    if i < s.len() && is_ws(s[i]) {
        lemma_skip_ws(s, i + 1);
    }
}

/// Skips whitespace.
pub fn ws_to(s: &[u8], i: usize) -> (r: usize)
    requires
        i <= s@.len(),
    ensures
        r == skip_ws(s@, i as int),
        i <= r <= s@.len(),
    decreases s@.len() - i,
{
    proof {
        lemma_skip_ws(s@, i as int);
    }
    if i < s.len() {
        let b = s[i];
        if b == 0x20 || b == 0x09 || b == 0x0a || b == 0x0d {
            return ws_to(s, i + 1);
        }
    }
    i
}

/// What one escape letter stands for.
pub open spec fn unesc_byte(e: u8) -> Option<u8> {
    if e == 0x22 {
        Some(0x22u8)
    } else if e == 0x5c {
        Some(0x5cu8)
    } else if e == 0x2f {
        Some(0x2fu8)
    } else if e == 0x6e {
        Some(0x0au8)
    } else if e == 0x72 {
        Some(0x0du8)
    } else if e == 0x74 {
        Some(0x09u8)
    } else if e == 0x62 {
        Some(0x08u8)
    } else if e == 0x66 {
        Some(0x0cu8)
    } else {
        None
    }
}

/// The body of a quoted string starting at `i` (the position after the
/// opening quote): its unescaped bytes and the position after the closing
/// quote. Unknown escapes, raw control bytes and an unterminated string
/// fail.
pub open spec fn parse_string_body(s: Seq<u8>, i: int) -> Option<(Seq<u8>, int)>
    decreases s.len() - i when 0 <= i <= s.len()
{
    if i >= s.len() {
        None
    } else {
        let b = s[i];
        if b == 0x22 {
            Some((Seq::<u8>::empty(), i + 1))
        } else if b == 0x5c {
            if i + 1 < s.len() {
                match unesc_byte(s[i + 1]) {
                    Some(c) => match parse_string_body(s, i + 2) {
                        Some(r) => Some((seq![c] + r.0, r.1)),
                        None => None,
                    },
                    None => None,
                }
            } else {
                None
            }
        } else if b < 0x20 {
            None
        } else {
            match parse_string_body(s, i + 1) {
                Some(r) => Some((seq![b] + r.0, r.1)),
                None => None,
            }
        }
    }
}

pub proof fn lemma_parse_string_body_advances(s: Seq<u8>, i: int)
    requires
        0 <= i <= s.len(),
    ensures
        parse_string_body(s, i) is Some ==> i < parse_string_body(s, i).unwrap().1 <= s.len(),
    decreases s.len() - i,
{
    if i < s.len() {
        let b = s[i];
        if b == 0x22 {
        } else if b == 0x5c {
            if i + 1 < s.len() {
                lemma_parse_string_body_advances(s, i + 2);
            }
        } else if b >= 0x20 {
            lemma_parse_string_body_advances(s, i + 1);
        }
    }
}

/// Reads a quoted string body.
pub fn read_string_body(s: &[u8], i: usize) -> (r: Option<(Vec<u8>, usize)>)
    requires
        i <= s@.len(),
    ensures
        match r {
            Some(p) => parse_string_body(s@, i as int) == Some((p.0@, p.1 as int)),
            None => parse_string_body(s@, i as int) is None,
        },
    decreases s@.len() - i,
{
    if i >= s.len() {
        return None;
    }
    let b = s[i];
    if b == 0x22 {
        Some((Vec::new(), i + 1))
    } else if b == 0x5c {
        if i + 1 < s.len() {
            let e = s[i + 1];
            let c: Option<u8> = if e == 0x22 {
                Some(0x22)
            } else if e == 0x5c {
                Some(0x5c)
            } else if e == 0x2f {
                Some(0x2f)
            } else if e == 0x6e {
                Some(0x0a)
            } else if e == 0x72 {
                Some(0x0d)
            } else if e == 0x74 {
                Some(0x09)
            } else if e == 0x62 {
                Some(0x08)
            } else if e == 0x66 {
                Some(0x0c)
            } else {
                None
            };
            match c {
                Some(c) => match read_string_body(s, i + 2) {
                    Some((mut rest, j)) => {
                        rest.insert(0, c);
                        proof {
                            assert(rest@ =~= seq![c] + parse_string_body(s@,
                                i as int + 2).unwrap().0);
                        }
                        Some((rest, j))
                    },
                    None => None,
                },
                None => None,
            }
        } else {
            None
        }
    } else if b < 0x20 {
        None
    } else {
        match read_string_body(s, i + 1) {
            Some((mut rest, j)) => {
                rest.insert(0, b);
                proof {
                    assert(rest@ =~= seq![b] + parse_string_body(s@, i as int + 1).unwrap().0);
                }
                Some((rest, j))
            },
            None => None,
        }
    }
}

pub open spec fn is_digit(b: u8) -> bool {
    0x30 <= b <= 0x39
}

/// Decimal digits folded left to right onto `acc`; fails past the 64-bit
/// range. Returns the value and the position after the last digit.
pub open spec fn parse_uint_rest(s: Seq<u8>, i: int, acc: int) -> Option<(int, int)>
    decreases s.len() - i when 0 <= i <= s.len()
{
    if i < s.len() && is_digit(s[i]) {
        let v = acc * 10 + (s[i] as int) - 0x30;
        if v > 0xffff_ffff_ffff_ffff {
            None
        } else {
            parse_uint_rest(s, i + 1, v)
        }
    } else {
        Some((acc, i))
    }
}

pub proof fn lemma_parse_uint_rest_advances(s: Seq<u8>, i: int, acc: int)
    requires
        0 <= i <= s.len(),
    ensures
        parse_uint_rest(s, i, acc) is Some ==> i <= parse_uint_rest(s, i,
            acc).unwrap().1 <= s.len(),
    decreases s.len() - i,
{
    if i < s.len() && is_digit(s[i]) {
        let v = acc * 10 + (s[i] as int) - 0x30;
        if v <= 0xffff_ffff_ffff_ffff {
            lemma_parse_uint_rest_advances(s, i + 1, v);
        }
    }
}

/// Reads an unsigned decimal number.
pub fn read_uint_rest(s: &[u8], i: usize, acc: u64) -> (r: Option<(u64, usize)>)
    requires
        i <= s@.len(),
    ensures
        match r {
            Some(p) => parse_uint_rest(s@, i as int, acc as int) == Some((p.0 as int,
                p.1 as int)),
            None => parse_uint_rest(s@, i as int, acc as int) is None,
        },
    decreases s@.len() - i,
{
    if i < s.len() && s[i] >= 0x30 && s[i] <= 0x39 {
        let d = (s[i] - 0x30) as u64;
        if acc > (0xffff_ffff_ffff_ffffu64 - d) / 10 {
            proof {
                assert(acc as int * 10 + d as int > 0xffff_ffff_ffff_ffff) by (nonlinear_arith)
                    requires
                        acc as int > (0xffff_ffff_ffff_ffff - d as int) / 10,
                        0 <= d as int <= 9,
                        acc as int >= 0,
                ;
            }
            None
        } else {
            proof {
                assert(acc as int * 10 + d as int <= 0xffff_ffff_ffff_ffff)
                    by (nonlinear_arith)
                    requires
                        acc as int <= (0xffff_ffff_ffff_ffff - d as int) / 10,
                        0 <= d as int <= 9,
                        acc as int >= 0,
                ;
            }
            let v = acc * 10 + d;
            read_uint_rest(s, i + 1, v)
        }
    } else {
        Some((acc, i))
    }
}


/// The position after one generic wire value (string, number, boolean,
/// null, or object) starting at `i`. Arrays and anything else fail.
pub open spec fn skip_value(s: Seq<u8>, i: int) -> Option<int>
    decreases s.len() - i, 1int when 0 <= i <= s.len()
{
    if i >= s.len() {
        None
    } else {
        let b = s[i];
        if b == 0x22 {
            match parse_string_body(s, i + 1) {
                Some(r) => Some(r.1),
                None => None,
            }
        } else if is_digit(b) {
            match parse_uint_rest(s, i, 0) {
                Some(r) => Some(r.1),
                None => None,
            }
        } else if b == 0x6e {
            if i + 4 <= s.len() && s[i + 1] == 0x75 && s[i + 2] == 0x6c && s[i + 3] == 0x6c {
                Some(i + 4)
            } else {
                None
            }
        } else if b == 0x74 {
            if i + 4 <= s.len() && s[i + 1] == 0x72 && s[i + 2] == 0x75 && s[i + 3] == 0x65 {
                Some(i + 4)
            } else {
                None
            }
        } else if b == 0x66 {
            if i + 5 <= s.len() && s[i + 1] == 0x61 && s[i + 2] == 0x6c && s[i + 3] == 0x73
                && s[i + 4] == 0x65 {
                Some(i + 5)
            } else {
                None
            }
        } else if b == 0x7b {
            let a = skip_ws(s, i + 1);
            if !(i + 1 <= a && a <= s.len()) {
                None
            } else if a < s.len() && s[a] == 0x7d {
                Some(a + 1)
            } else {
                skip_members(s, a)
            }
        } else {
            None
        }
    }
}

/// The position after the members and closing brace of an object whose
/// first member's key starts at `i`.
pub open spec fn skip_members(s: Seq<u8>, i: int) -> Option<int>
    decreases s.len() - i, 0int when 0 <= i <= s.len()
{
    if !(i < s.len() && s[i] == 0x22) {
        None
    } else {
        match parse_string_body(s, i + 1) {
            Some(k) => {
                let c = skip_ws(s, k.1);
                if !(i < k.1 && k.1 <= c && c <= s.len()) {
                    None
                } else if c < s.len() && s[c] == 0x3a {
                    let vi = skip_ws(s, c + 1);
                    if !(c + 1 <= vi && vi <= s.len()) {
                        None
                    } else {
                        match skip_value(s, vi) {
                            Some(e) => {
                                let t = skip_ws(s, e);
                                if !(vi < e && e <= t && t <= s.len()) {
                                    None
                                } else if t < s.len() && s[t] == 0x2c {
                                    let ni = skip_ws(s, t + 1);
                                    if !(t + 1 <= ni && ni <= s.len()) {
                                        None
                                    } else {
                                        skip_members(s, ni)
                                    }
                                } else if t < s.len() && s[t] == 0x7d {
                                    Some(t + 1)
                                } else {
                                    None
                                }
                            },
                            None => None,
                        }
                    }
                } else {
                    None
                }
            },
            None => None,
        }
    }
}

/// Passes over one generic wire value.
pub fn pass_value(s: &[u8], i: usize) -> (r: Option<usize>)
    requires
        i <= s@.len(),
    ensures
        match r {
            Some(j) => skip_value(s@, i as int) == Some(j as int) && i < j <= s@.len(),
            None => skip_value(s@, i as int) is None,
        },
    decreases s@.len() - i, 1int,
{
    if i >= s.len() {
        return None;
    }
    let b = s[i];
    if b == 0x22 {
        proof {
            lemma_parse_string_body_advances(s@, i as int + 1);
        }
        match read_string_body(s, i + 1) {
            Some((_, j)) => Some(j),
            None => None,
        }
    } else if b >= 0x30 && b <= 0x39 {
        proof {
            lemma_parse_uint_rest_advances(s@, i as int + 1, (s@[i as int] as int) - 0x30);
        }
        match read_uint_rest(s, i, 0) {
            Some((_, j)) => Some(j),
            None => None,
        }
    } else if b == 0x6e {
        if s.len() - i >= 4 && s[i + 1] == 0x75 && s[i + 2] == 0x6c && s[i + 3] == 0x6c {
            Some(i + 4)
        } else {
            None
        }
    } else if b == 0x74 {
        if s.len() - i >= 4 && s[i + 1] == 0x72 && s[i + 2] == 0x75 && s[i + 3] == 0x65 {
            Some(i + 4)
        } else {
            None
        }
    } else if b == 0x66 {
        if s.len() - i >= 5 && s[i + 1] == 0x61 && s[i + 2] == 0x6c && s[i + 3] == 0x73 && s[i
            + 4] == 0x65 {
            Some(i + 5)
        } else {
            None
        }
    } else if b == 0x7b {
        let a = ws_to(s, i + 1);
        if a < s.len() && s[a] == 0x7d {
            Some(a + 1)
        } else {
            pass_members(s, a)
        }
    } else {
        None
    }
}

/// Passes over an object's members and closing brace.
pub fn pass_members(s: &[u8], i: usize) -> (r: Option<usize>)
    requires
        i <= s@.len(),
    ensures
        match r {
            Some(j) => skip_members(s@, i as int) == Some(j as int) && i < j <= s@.len(),
            None => skip_members(s@, i as int) is None,
        },
    decreases s@.len() - i, 0int,
{
    if !(i < s.len() && s[i] == 0x22) {
        return None;
    }
    proof {
        lemma_parse_string_body_advances(s@, i as int + 1);
    }
    match read_string_body(s, i + 1) {
        Some((_, k1)) => {
            let c = ws_to(s, k1);
            if !(i < k1 && k1 <= c && c <= s.len()) {
                None
            } else if c < s.len() && s[c] == 0x3a {
                let vi = ws_to(s, c + 1);
                match pass_value(s, vi) {
                    Some(e) => {
                        let t = ws_to(s, e);
                        if !(vi < e && e <= t && t <= s.len()) {
                            None
                        } else if t < s.len() && s[t] == 0x2c {
                            let ni = ws_to(s, t + 1);
                            pass_members(s, ni)
                        } else if t < s.len() && s[t] == 0x7d {
                            Some(t + 1)
                        } else {
                            None
                        }
                    },
                    None => None,
                }
            } else {
                None
            }
        },
        None => None,
    }
}


/// A byte that rides in a quoted string unescaped.
pub open spec fn plain_byte(b: u8) -> bool {
    b != 0x22 && b != 0x5c && b >= 0x20
}

/// A quoted region of plain bytes parses to exactly those bytes.
pub proof fn lemma_parse_plain_string(w: Seq<u8>, i: int, j: int)
    requires
        0 <= i <= j < w.len(),
        w[j] == 0x22,
        forall|k: int| i <= k < j ==> plain_byte(#[trigger] w[k]),
    ensures
        parse_string_body(w, i) == Some((w.subrange(i, j), j + 1)),
    decreases j - i,
{
    if i == j {
        assert(w.subrange(i, j) =~= Seq::<u8>::empty());
    } else {
        lemma_parse_plain_string(w, i + 1, j);
        assert(w.subrange(i, j) =~= seq![w[i]] + w.subrange(i + 1, j));
    }
}

/// The escaped form of any permissible text, followed by a closing
/// quote, parses back to exactly that text.
pub proof fn lemma_parse_escaped(w: Seq<u8>, i: int, x: Seq<u8>)
    requires
        text_ok(x),
        0 <= i,
        i + escape(x).len() + 1 <= w.len(),
        forall|k: int| 0 <= k < escape(x).len() ==> w[i + k] == escape(x)[k],
        w[i + escape(x).len()] == 0x22,
    ensures
        parse_string_body(w, i) == Some((x, i + escape(x).len() + 1)),
    decreases x.len(),
{
    if x.len() == 0 {
        assert(w[i] == 0x22);
    } else {
        let b = x[0];
        let e0 = esc_byte(b);
        let rest = x.drop_first();
        assert(escape(x) == e0 + escape(rest));
        assert forall|k: int| 0 <= k < e0.len() implies w[i + k] == e0[k] by {
            assert(escape(x)[k] == e0[k]);
            assert(w[i + k] == escape(x)[k]);
        }
        assert forall|k: int| 0 <= k < escape(rest).len() implies w[i + e0.len() + k]
            == escape(rest)[k] by {
            assert(escape(x)[e0.len() + k] == escape(rest)[k]);
            assert(w[i + (e0.len() + k)] == escape(x)[e0.len() + k]);
        }
        assert(text_ok(rest)) by {
            assert(forall|k: int| 0 <= k < rest.len() ==> rest[k] == x[k + 1]);
        }
        lemma_parse_escaped(w, i + e0.len(), rest);
        if b == 0x22 || b == 0x5c || b == 0x0a || b == 0x0d || b == 0x09 || b == 0x08 || b
            == 0x0c {
            assert(w[i + 0] == e0[0]);
            assert(w[i + 1] == e0[1]);
            assert(w[i] == 0x5c);
            assert(unesc_byte(w[i + 1]) == Some(b));
            assert(parse_string_body(w, i) == Some((seq![b] + rest, i + escape(x).len()
                + 1)));
        } else {
            assert(plain_byte(b));
            assert(e0 =~= seq![b]);
            assert(w[i + 0] == e0[0]);
            assert(w[i] == b);
            assert(parse_string_body(w, i) == Some((seq![b] + rest, i + escape(x).len()
                + 1)));
        }
        assert(seq![b] + rest =~= x);
    }
}

/// Digits folded onto an accumulator, as the number parser does.
pub open spec fn fold_digits(acc: int, s: Seq<u8>) -> int
    decreases s.len(),
{
    if s.len() == 0 {
        acc
    } else {
        fold_digits(acc * 10 + (s[0] as int) - 0x30, s.drop_first())
    }
}

/// Whether that fold stays within the 64-bit range at every step.
pub open spec fn fold_digits_ok(acc: int, s: Seq<u8>) -> bool
    decreases s.len(),
{
    if s.len() == 0 {
        true
    } else {
        let v = acc * 10 + (s[0] as int) - 0x30;
        v <= 0xffff_ffff_ffff_ffff && fold_digits_ok(v, s.drop_first())
    }
}

pub proof fn lemma_fold_digits_snoc(acc: int, s: Seq<u8>, d: u8)
    ensures
        fold_digits(acc, s.push(d)) == fold_digits(acc, s) * 10 + (d as int) - 0x30,
        fold_digits_ok(acc, s.push(d)) == (fold_digits_ok(acc, s) && fold_digits(acc, s) * 10
            + (d as int) - 0x30 <= 0xffff_ffff_ffff_ffff),
    decreases s.len(),
{
    reveal_with_fuel(fold_digits, 3);
    reveal_with_fuel(fold_digits_ok, 3);
    if s.len() == 0 {
        assert(s.push(d).len() == 1);
        assert(s.push(d)[0] == d);
        assert(s.push(d).drop_first() =~= Seq::<u8>::empty());
    } else {
        assert(s.push(d)[0] == s[0]);
        assert(s.push(d).drop_first() =~= s.drop_first().push(d));
        lemma_fold_digits_snoc(acc * 10 + (s[0] as int) - 0x30, s.drop_first(), d);
    }
}

/// The digits of a number fold back to that number, within range at
/// every step.
pub proof fn lemma_fold_ser_u64(n: int)
    requires
        0 <= n <= 0xffff_ffff_ffff_ffff,
    ensures
        fold_digits(0, ser_u64(n)) == n,
        fold_digits_ok(0, ser_u64(n)),
        ser_u64(n).len() >= 1,
        forall|k: int| 0 <= k < ser_u64(n).len() ==> is_digit(#[trigger] ser_u64(n)[k]),
    decreases n,
{
    reveal_with_fuel(fold_digits, 3);
    reveal_with_fuel(fold_digits_ok, 3);
    if n < 10 {
        assert(ser_u64(n) =~= seq![(48 + n) as u8]);
        assert(ser_u64(n)[0] == (48 + n) as u8);
        assert(ser_u64(n).drop_first() =~= Seq::<u8>::empty());
    } else {
        lemma_fold_ser_u64(n / 10);
        assert(ser_u64(n) =~= ser_u64(n / 10).push((48 + n % 10) as u8));
        lemma_fold_digits_snoc(0, ser_u64(n / 10), (48 + n % 10) as u8);
        assert(0 <= n % 10 < 10);
        assert(((48 + n % 10) as u8) as int == 48 + n % 10);
        assert(fold_digits(0, ser_u64(n)) == fold_digits(0, ser_u64(n / 10)) * 10 + n % 10);
        assert(fold_digits(0, ser_u64(n)) == (n / 10) * 10 + n % 10);
        assert((n / 10) * 10 + n % 10 == n);
        assert forall|k: int| 0 <= k < ser_u64(n).len() implies is_digit(
            #[trigger] ser_u64(n)[k]) by {
            if k < ser_u64(n / 10).len() {
                assert(ser_u64(n)[k] == ser_u64(n / 10)[k]);
            } else {
                assert(ser_u64(n)[k] == (48 + n % 10) as u8);
            }
        }
    }
}

/// A digit region, ended by a non-digit or the end of input, parses to
/// its folded value.
pub proof fn lemma_parse_digit_region(w: Seq<u8>, i: int, j: int, acc: int)
    requires
        0 <= i <= j <= w.len(),
        forall|k: int| i <= k < j ==> is_digit(#[trigger] w[k]),
        j == w.len() || !is_digit(w[j]),
        0 <= acc <= 0xffff_ffff_ffff_ffff,
        fold_digits_ok(acc, w.subrange(i, j)),
    ensures
        parse_uint_rest(w, i, acc) == Some((fold_digits(acc, w.subrange(i, j)), j)),
    decreases j - i,
{
    let seg = w.subrange(i, j);
    if i == j {
        assert(seg =~= Seq::<u8>::empty());
    } else {
        let v = acc * 10 + (w[i] as int) - 0x30;
        assert(seg[0] == w[i]);
        assert(seg.drop_first() =~= w.subrange(i + 1, j));
        assert(v <= 0xffff_ffff_ffff_ffff);
        assert(v >= 0);
        lemma_parse_digit_region(w, i + 1, j, v);
    }
}

} // verus!
