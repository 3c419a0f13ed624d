//! The per-client peer session: the negotiation state machine and the
//! local relay-track catalog. The external media engine is driven through
//! explicit commands and reports back through explicit events, so every
//! decision the session takes is an ordinary verified function.

use vstd::prelude::*;

use crate::types::{Candidate, MediaKind, SdpKind, SessionDescription, SessionDescriptionV,
    Track, TrackV};
use crate::types::{clone_bytes, CandidateV};

verus! {

/// The negotiation state of a peer session.
#[derive(Clone, Copy, PartialEq, Eq, Structural, Debug)]
pub enum NegotiationState {
    NoRemoteDescription,
    HaveRemoteOffer,
    Stable,
    Renegotiating,
}

/// A command for the external media engine, to be performed by the host
/// on this session's connection.
pub enum EngineCmd {
    SetRemoteDescription(SessionDescription),
    CreateAnswer,
    CreateOffer,
    SetLocalDescription(SessionDescription),
    AddIceCandidate(Candidate),
    /// Attach a track produced by another session as an outbound relay
    /// target on this session's connection.
    AddRelayTrack(Track),
    /// Start the fixed-interval keep-alive feedback signal toward the
    /// remote stream that was just received.
    StartKeepAlive(MediaKind),
}

#[verifier::ext_equal]
pub enum EngineCmdV {
    SetRemoteDescription(SessionDescriptionV),
    CreateAnswer,
    CreateOffer,
    SetLocalDescription(SessionDescriptionV),
    AddIceCandidate(CandidateV),
    AddRelayTrack(TrackV),
    StartKeepAlive(MediaKind),
}

impl View for EngineCmd {
    type V = EngineCmdV;

    open spec fn view(&self) -> EngineCmdV {
        match self {
            EngineCmd::SetRemoteDescription(d) => EngineCmdV::SetRemoteDescription(d@),
            EngineCmd::CreateAnswer => EngineCmdV::CreateAnswer,
            EngineCmd::CreateOffer => EngineCmdV::CreateOffer,
            EngineCmd::SetLocalDescription(d) => EngineCmdV::SetLocalDescription(d@),
            EngineCmd::AddIceCandidate(c) => EngineCmdV::AddIceCandidate(c@),
            EngineCmd::AddRelayTrack(t) => EngineCmdV::AddRelayTrack(t@),
            EngineCmd::StartKeepAlive(k) => EngineCmdV::StartKeepAlive(*k),
        }
    }
}

impl DeepView for EngineCmd {
    type V = EngineCmdV;

    open spec fn deep_view(&self) -> EngineCmdV {
        self@
    }
}

/// The health of the underlying connection, as the engine reports it.
#[derive(Clone, Copy, PartialEq, Eq, Structural, Debug)]
pub enum ConnState {
    New,
    Connecting,
    Connected,
    Disconnected,
    Failed,
    Closed,
}

/// An event the external media engine delivers to a session's control
/// task.
pub enum EngineEvent {
    AnswerCreated(SessionDescription),
    AnswerFailed,
    OfferCreated(SessionDescription),
    OfferFailed,
    /// The remote peer started publishing a new media stream of this kind.
    RemoteTrack(MediaKind),
    CandidateDiscovered(Candidate),
    NegotiationNeeded,
    ConnectionStateChanged(ConnState),
}

/// The index of the first track of this kind in a catalog, or -1.
pub open spec fn kind_idx(ts: Seq<TrackV>, k: MediaKind) -> int
    decreases ts.len(),
{
    if ts.len() == 0 {
        -1
    } else if ts[0].kind == k {
        0
    } else {
        let r = kind_idx(ts.drop_first(), k);
        if r == -1 {
            -1
        } else {
            r + 1
        }
    }
}

pub proof fn lemma_kind_idx(ts: Seq<TrackV>, k: MediaKind)
    ensures
        -1 <= kind_idx(ts, k) < ts.len(),
        kind_idx(ts, k) >= 0 ==> ts[kind_idx(ts, k)].kind == k,
        kind_idx(ts, k) == -1 ==> forall|i: int| 0 <= i < ts.len() ==> ts[i].kind != k,
        forall|i: int| 0 <= i < kind_idx(ts, k) ==> ts[i].kind != k,
    decreases ts.len(),
{
    if ts.len() > 0 && ts[0].kind != k {
        lemma_kind_idx(ts.drop_first(), k);
        assert forall|i: int| 1 <= i < ts.len() implies ts.drop_first()[i - 1] == ts[i] by {}
    }
}

/// One peer session: the identity of the client that owns it, the room it
/// negotiates in, its negotiation state, and the catalog of relay tracks
/// this peer produces.
pub struct PeerSession {
    pub id: Vec<u8>,
    pub room: Vec<u8>,
    pub state: NegotiationState,
    pub tracks: Vec<Track>,
}

#[verifier::ext_equal]
pub struct PeerSessionV {
    pub id: Seq<u8>,
    pub room: Seq<u8>,
    pub state: NegotiationState,
    pub tracks: Seq<TrackV>,
}

impl View for PeerSession {
    type V = PeerSessionV;

    open spec fn view(&self) -> PeerSessionV {
        PeerSessionV {
            id: self.id@,
            room: self.room@,
            state: self.state,
            tracks: self.tracks.deep_view(),
        }
    }
}

impl DeepView for PeerSession {
    type V = PeerSessionV;

    open spec fn deep_view(&self) -> PeerSessionV {
        self@
    }
}

impl PeerSessionV {
    /// Every track in the catalog was produced by this session, and
    /// track identities (producer, kind) are unique within it.
    pub open spec fn wf(self) -> bool {
        &&& forall|i: int| 0 <= i < self.tracks.len() ==> (#[trigger] self.tracks[i]).producer
            == self.id
        &&& forall|i: int, j: int|
            0 <= i < j < self.tracks.len() ==> self.tracks[i].kind != self.tracks[j].kind
    }
}

impl PeerSession {
    /// Creates the session for a client joining a room: no remote
    /// description yet and an empty track catalog.
    pub fn new(id: Vec<u8>, room: Vec<u8>) -> (s: PeerSession)
        ensures
            s@ == (PeerSessionV {
                id: id@,
                room: room@,
                state: NegotiationState::NoRemoteDescription,
                tracks: Seq::<TrackV>::empty(),
            }),
            s@.wf(),
    {
        let s = PeerSession { id, room, state: NegotiationState::NoRemoteDescription,
            tracks: Vec::new() };
        proof {
            assert(s@ =~= PeerSessionV {
                id: s.id@,
                room: s.room@,
                state: NegotiationState::NoRemoteDescription,
                tracks: Seq::<TrackV>::empty(),
            });
        }
        s
    }

    /// The identity of the client that owns this session.
    pub fn get_id(&self) -> (r: &Vec<u8>)
        ensures
            r@ == self@.id,
    {
        &self.id
    }

    /// The catalog of relay tracks this peer produces.
    pub fn get_tracks(&self) -> (r: &Vec<Track>)
        ensures
            r.deep_view() == self@.tracks,
    {
        &self.tracks
    }

    /// Takes a remote offer: records it as the remote description and asks
    /// the engine for an answer. The answer itself arrives later as an
    /// `AnswerCreated` event.
    pub fn process_offer(&mut self, desc: SessionDescription) -> (cmds: Vec<EngineCmd>)
        requires
            desc.kind == SdpKind::Offer,
        ensures
            final(self)@ == (PeerSessionV { state: NegotiationState::HaveRemoteOffer,
                ..old(self)@ }),
            cmds.deep_view() =~= seq![
                EngineCmdV::SetRemoteDescription(desc@),
                EngineCmdV::CreateAnswer,
            ],
    {
        self.state = NegotiationState::HaveRemoteOffer;
        let mut cmds: Vec<EngineCmd> = Vec::new();
        cmds.push(EngineCmd::SetRemoteDescription(desc));
        cmds.push(EngineCmd::CreateAnswer);
        proof {
            assert(self@ =~= PeerSessionV { state: NegotiationState::HaveRemoteOffer,
                ..old(self)@ });
        }
        cmds
    }

    /// Takes a remote answer: records it as the remote description only;
    /// no reply is generated, and negotiation returns to stable.
    pub fn process_answer(&mut self, desc: SessionDescription) -> (cmds: Vec<EngineCmd>)
        requires
            desc.kind == SdpKind::Answer,
        ensures
            final(self)@ == (PeerSessionV { state: NegotiationState::Stable, ..old(self)@ }),
            cmds.deep_view() =~= seq![EngineCmdV::SetRemoteDescription(desc@)],
    {
        self.state = NegotiationState::Stable;
        let mut cmds: Vec<EngineCmd> = Vec::new();
        cmds.push(EngineCmd::SetRemoteDescription(desc));
        proof {
            assert(self@ =~= PeerSessionV { state: NegotiationState::Stable,
                ..old(self)@ });
        }
        cmds
    }

    /// Hands a remote connectivity candidate to the engine. Negotiation
    /// state is unaffected.
    pub fn process_ice_candidate(&self, cand: Candidate) -> (cmds: Vec<EngineCmd>)
        ensures
            cmds.deep_view() =~= seq![EngineCmdV::AddIceCandidate(cand@)],
    {
        let mut cmds: Vec<EngineCmd> = Vec::new();
        cmds.push(EngineCmd::AddIceCandidate(cand));
        cmds
    }

    /// Attaches a track produced by another session as an outbound relay
    /// target on this session's connection. Only the engine command is
    /// produced: the catalog holds locally produced tracks alone.
    pub fn add_remote_track(&self, track: &Track) -> (cmds: Vec<EngineCmd>)
        ensures
            cmds.deep_view() =~= seq![EngineCmdV::AddRelayTrack(track@)],
    {
        let mut cmds: Vec<EngineCmd> = Vec::new();
        cmds.push(EngineCmd::AddRelayTrack(crate::types::clone_track(track)));
        cmds
    }

    /// Reacts to the engine's signal that the set of tracks changed: asks
    /// it for a fresh offer. The offer arrives later as an `OfferCreated`
    /// event.
    pub fn renegotiate(&self) -> (cmds: Vec<EngineCmd>)
        ensures
            cmds.deep_view() =~= seq![EngineCmdV::CreateOffer],
    {
        let mut cmds: Vec<EngineCmd> = Vec::new();
        cmds.push(EngineCmd::CreateOffer);
        cmds
    }

    /// Takes the answer the engine created for a remote offer: sets it as
    /// the local description; negotiation is then stable. The caller sends
    /// the serialized answer to the client.
    pub fn answer_created(&mut self, desc: SessionDescription) -> (cmds: Vec<EngineCmd>)
        requires
            desc.kind == SdpKind::Answer,
        ensures
            final(self)@ == (PeerSessionV { state: NegotiationState::Stable, ..old(self)@ }),
            cmds.deep_view() =~= seq![EngineCmdV::SetLocalDescription(desc@)],
    {
        self.state = NegotiationState::Stable;
        let mut cmds: Vec<EngineCmd> = Vec::new();
        cmds.push(EngineCmd::SetLocalDescription(desc));
        proof {
            assert(self@ =~= PeerSessionV { state: NegotiationState::Stable,
                ..old(self)@ });
        }
        cmds
    }

    /// Takes the renegotiation offer the engine created: sets it as the
    /// local description and marks the session as renegotiating until the
    /// remote answer returns. The caller sends the serialized offer.
    pub fn offer_created(&mut self, desc: SessionDescription) -> (cmds: Vec<EngineCmd>)
        requires
            desc.kind == SdpKind::Offer,
        ensures
            final(self)@ == (PeerSessionV { state: NegotiationState::Renegotiating,
                ..old(self)@ }),
            cmds.deep_view() =~= seq![EngineCmdV::SetLocalDescription(desc@)],
    {
        self.state = NegotiationState::Renegotiating;
        let mut cmds: Vec<EngineCmd> = Vec::new();
        cmds.push(EngineCmd::SetLocalDescription(desc));
        proof {
            assert(self@ =~= PeerSessionV { state: NegotiationState::Renegotiating,
                ..old(self)@ });
        }
        cmds
    }

    /// The remote peer started publishing a stream of this kind: creates
    /// the relay track keyed by (this peer's identity, kind) and registers
    /// it in the catalog, replacing a track of the same kind if one exists.
    /// Returns the new track for group fan-out.
    #[verifier::loop_isolation(false)]
    pub fn on_remote_track(&mut self, kind: MediaKind) -> (t: Track)
        requires
            old(self)@.wf(),
        ensures
            t@ == (TrackV { producer: old(self)@.id, kind }),
            final(self)@.id == old(self)@.id,
            final(self)@.room == old(self)@.room,
            final(self)@.state == old(self)@.state,
            final(self)@.tracks == (if kind_idx(old(self)@.tracks, kind) >= 0 {
                old(self)@.tracks.update(kind_idx(old(self)@.tracks, kind), t@)
            } else {
                old(self)@.tracks.push(t@)
            }),
            final(self)@.wf(),
    {
        let t = Track { producer: clone_bytes(&self.id), kind };
        let entry = Track { producer: clone_bytes(&self.id), kind };
        proof {
            lemma_kind_idx(self@.tracks, kind);
        }
        let ghost pre0 = self@;
        let ghost pre = self@.tracks;
        let mut i: usize = 0;
        while i < self.tracks.len()
            invariant
                0 <= i <= self.tracks.len(),
                self@ == pre0,
                self@.tracks == pre,
                forall|k: int| 0 <= k < i ==> pre[k].kind != kind,
                entry@ == (TrackV { producer: self@.id, kind }),
                -1 <= kind_idx(pre, kind) < pre.len(),
                kind_idx(pre, kind) >= 0 ==> pre[kind_idx(pre, kind)].kind == kind,
                kind_idx(pre, kind) == -1 ==> forall|k: int|
                    0 <= k < pre.len() ==> pre[k].kind != kind,
                forall|k: int| 0 <= k < kind_idx(pre, kind) ==> pre[k].kind != kind,
            decreases self.tracks.len() - i,
        {
            if self.tracks[i].kind == kind {
                proof {
                    assert(pre[i as int].kind == kind);
                    assert(kind_idx(pre, kind) == i as int);
                }
                self.tracks[i] = entry;
                proof {
                    assert(self@.tracks =~= pre.update(i as int, t@));
                    assert(self@.id == pre0.id && self@.room == pre0.room
                        && self@.state == pre0.state);
                }
                return t;
            }
            proof {
                assert(pre[i as int].kind != kind);
            }
            i += 1;
        }
        proof {
            assert(kind_idx(pre, kind) == -1);
        }
        self.tracks.push(entry);
        proof {
            assert(self@.tracks =~= pre.push(t@));
        }
        t
    }
}

} // verus!
