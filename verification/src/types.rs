//! Plain data carried through the signaling core: media kinds, tracks,
//! session descriptions, connectivity candidates, and the parsed form of
//! the inbound signaling envelope. Each executable type has a ghost mirror
//! over `Seq<u8>` used by every contract in the crate.

use vstd::prelude::*;

verus! {

/// The kind of media a track carries.
#[derive(Clone, Copy, PartialEq, Eq, Structural, Debug)]
pub enum MediaKind {
    Audio,
    Video,
}

/// Whether a session description proposes or accepts a media session.
#[derive(Clone, Copy, PartialEq, Eq, Structural, Debug)]
pub enum SdpKind {
    Offer,
    Answer,
}

/// A locally produced relay track. Its identity is the pair of the
/// producing peer's identity and the media kind.
pub struct Track {
    pub producer: Vec<u8>,
    pub kind: MediaKind,
}

#[verifier::ext_equal]
pub struct TrackV {
    pub producer: Seq<u8>,
    pub kind: MediaKind,
}

impl View for Track {
    type V = TrackV;

    open spec fn view(&self) -> TrackV {
        TrackV { producer: self.producer@, kind: self.kind }
    }
}

impl DeepView for Track {
    type V = TrackV;

    open spec fn deep_view(&self) -> TrackV {
        self@
    }
}

/// A session description: its role in negotiation and the raw description
/// text.
pub struct SessionDescription {
    pub kind: SdpKind,
    pub sdp: Vec<u8>,
}

#[verifier::ext_equal]
pub struct SessionDescriptionV {
    pub kind: SdpKind,
    pub sdp: Seq<u8>,
}

impl View for SessionDescription {
    type V = SessionDescriptionV;

    open spec fn view(&self) -> SessionDescriptionV {
        SessionDescriptionV { kind: self.kind, sdp: self.sdp@ }
    }
}

impl DeepView for SessionDescription {
    type V = SessionDescriptionV;

    open spec fn deep_view(&self) -> SessionDescriptionV {
        self@
    }
}

/// A connectivity candidate, in the shape peers exchange: the candidate
/// line itself plus the optional media-line identifiers.
pub struct Candidate {
    pub candidate: Vec<u8>,
    pub sdp_mid: Option<Vec<u8>>,
    pub sdp_mline_index: Option<u64>,
    pub username_fragment: Option<Vec<u8>>,
}

#[verifier::ext_equal]
pub struct CandidateV {
    pub candidate: Seq<u8>,
    pub sdp_mid: Option<Seq<u8>>,
    pub sdp_mline_index: Option<u64>,
    pub username_fragment: Option<Seq<u8>>,
}

impl View for Candidate {
    type V = CandidateV;

    open spec fn view(&self) -> CandidateV {
        CandidateV {
            candidate: self.candidate@,
            sdp_mid: match self.sdp_mid {
                Some(ref m) => Some(m@),
                None => None,
            },
            sdp_mline_index: self.sdp_mline_index,
            username_fragment: match self.username_fragment {
                Some(ref u) => Some(u@),
                None => None,
            },
        }
    }
}

impl DeepView for Candidate {
    type V = CandidateV;

    open spec fn deep_view(&self) -> CandidateV {
        self@
    }
}

impl Candidate {
    /// The substitute used when an inbound candidate fails to parse:
    /// every field empty, mirroring a defaulted candidate.
    pub fn empty() -> (c: Candidate)
        ensures
            c@ == (CandidateV {
                candidate: Seq::<u8>::empty(),
                sdp_mid: None::<Seq<u8>>,
                sdp_mline_index: None::<u64>,
                username_fragment: None::<Seq<u8>>,
            }),
    {
        let c = Candidate {
            candidate: Vec::new(),
            sdp_mid: None,
            sdp_mline_index: None,
            username_fragment: None,
        };
        proof {
            assert(c@ =~= CandidateV {
                candidate: Seq::<u8>::empty(),
                sdp_mid: None::<Seq<u8>>,
                sdp_mline_index: None::<u64>,
                username_fragment: None::<Seq<u8>>,
            });
        }
        c
    }
}

/// The session-description part of an inbound envelope: a recognized
/// offer or answer (whose description text may have failed to parse and
/// is then absent), or an unrecognized or missing sub-type.
pub enum SdpPart {
    Desc(SdpKind, Option<Vec<u8>>),
    Invalid,
}

#[verifier::ext_equal]
pub enum SdpPartV {
    Desc(SdpKind, Option<Seq<u8>>),
    Invalid,
}

impl View for SdpPart {
    type V = SdpPartV;

    open spec fn view(&self) -> SdpPartV {
        match self {
            SdpPart::Desc(k, Some(s)) => SdpPartV::Desc(*k, Some(s@)),
            SdpPart::Desc(k, None) => SdpPartV::Desc(*k, None),
            SdpPart::Invalid => SdpPartV::Invalid,
        }
    }
}

impl DeepView for SdpPart {
    type V = SdpPartV;

    open spec fn deep_view(&self) -> SdpPartV {
        self@
    }
}

/// A parsed signaling envelope: an optional room assignment, an optional
/// session-description part, and an optional connectivity-candidate part.
/// `ice == Some(None)` records a candidate object that was present but
/// malformed; a default candidate is substituted downstream.
pub struct Envelope {
    pub room: Option<Vec<u8>>,
    pub sdp: Option<SdpPart>,
    pub ice: Option<Option<Candidate>>,
}

#[verifier::ext_equal]
pub struct EnvelopeV {
    pub room: Option<Seq<u8>>,
    pub sdp: Option<SdpPartV>,
    pub ice: Option<Option<CandidateV>>,
}

impl View for Envelope {
    type V = EnvelopeV;

    open spec fn view(&self) -> EnvelopeV {
        EnvelopeV {
            room: match self.room {
                Some(ref r) => Some(r@),
                None => None,
            },
            sdp: match self.sdp {
                Some(ref p) => Some(p@),
                None => None,
            },
            ice: match self.ice {
                Some(Some(ref c)) => Some(Some(c@)),
                Some(None) => Some(None),
                None => None,
            },
        }
    }
}

impl DeepView for Envelope {
    type V = EnvelopeV;

    open spec fn deep_view(&self) -> EnvelopeV {
        self@
    }
}

/// Copies a byte string.
#[verifier::loop_isolation(false)]
pub fn clone_bytes(a: &Vec<u8>) -> (r: Vec<u8>)
    ensures
        r@ == a@,
{
    let mut r: Vec<u8> = Vec::new();
    let mut i: usize = 0;
    while i < a.len()
        invariant
            0 <= i <= a.len(),
            r@ =~= a@.take(i as int),
        decreases a.len() - i,
    {
        r.push(a[i]);
        i += 1;
    }
    proof {
        assert(r@ =~= a@);
    }
    r
}

/// Copies a track; the copy has the same identity.
pub fn clone_track(t: &Track) -> (r: Track)
    ensures
        r@ == t@,
{
    Track { producer: clone_bytes(&t.producer), kind: t.kind }
}

} // verus!
