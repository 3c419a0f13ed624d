//! The server core: the client registry, the group registry, group
//! membership and relay fan-out, and the protocol dispatch that turns a
//! parsed envelope or an engine event into state changes and effects.

use vstd::prelude::*;

use crate::types::{clone_bytes, clone_track, Envelope, EnvelopeV, SdpKind, SdpPart, SdpPartV,
    SessionDescription, SessionDescriptionV, CandidateV, Candidate, MediaKind, Track, TrackV};
use crate::session::{kind_idx, ConnState, EngineCmd, EngineCmdV, EngineEvent, NegotiationState,
    PeerSession, PeerSessionV};
use crate::codec::{parse_envelope, parse_envelope_spec, ser_candidate, ser_description,
    serialize_candidate, serialize_description};
use crate::bytes_eq;

verus! {

/// The error taxonomy: why a message or a step was dropped or rejected.
#[derive(Clone, Copy, PartialEq, Eq, Structural, Debug)]
pub enum ErrorKind {
    /// Malformed envelope or missing required field; message dropped.
    ProtocolParse,
    /// A session description failed to parse; an empty one is substituted.
    DescriptionParse,
    /// A connectivity candidate failed to parse; a default is substituted.
    CandidateParse,
    /// A session-description part without a recognized sub-type.
    UnrecognizedType,
    /// An offer arrived with no room assigned; the request is rejected.
    UnassignedGroup,
    /// An answer, candidate or engine event with no active peer session.
    MissingSession,
    /// The engine could not produce the requested description.
    NegotiationFailed,
}

/// An externally visible consequence of one dispatch step. The caller
/// performs the sends and engine commands; log entries record recovered
/// errors, and a rejection is a client-visible refusal.
pub enum Effect {
    Send { to: Vec<u8>, payload: Vec<u8> },
    Engine { client: Vec<u8>, cmd: EngineCmd },
    Log(ErrorKind),
    Reject(ErrorKind),
}

#[verifier::ext_equal]
pub enum EffectV {
    Send { to: Seq<u8>, payload: Seq<u8> },
    Engine { client: Seq<u8>, cmd: EngineCmdV },
    Log(ErrorKind),
    Reject(ErrorKind),
}

impl View for Effect {
    type V = EffectV;

    open spec fn view(&self) -> EffectV {
        match self {
            Effect::Send { to, payload } => EffectV::Send { to: to@, payload: payload@ },
            Effect::Engine { client, cmd } => EffectV::Engine { client: client@, cmd: cmd@ },
            Effect::Log(k) => EffectV::Log(*k),
            Effect::Reject(k) => EffectV::Reject(*k),
        }
    }
}

impl DeepView for Effect {
    type V = EffectV;

    open spec fn deep_view(&self) -> EffectV {
        self@
    }
}

/// One connected client: its identity, its peer session once negotiation
/// has begun, and the room it belongs to, referenced by identity.
pub struct Client {
    pub client_id: Vec<u8>,
    pub peer_connection: Option<PeerSession>,
    pub group: Option<Vec<u8>>,
}

#[verifier::ext_equal]
pub struct ClientV {
    pub client_id: Seq<u8>,
    pub peer_connection: Option<PeerSessionV>,
    pub group: Option<Seq<u8>>,
}

impl View for Client {
    type V = ClientV;

    open spec fn view(&self) -> ClientV {
        ClientV {
            client_id: self.client_id@,
            peer_connection: match self.peer_connection {
                Some(ref s) => Some(s@),
                None => None,
            },
            group: match self.group {
                Some(ref r) => Some(r@),
                None => None,
            },
        }
    }
}

impl DeepView for Client {
    type V = ClientV;

    open spec fn deep_view(&self) -> ClientV {
        self@
    }
}

/// A room: its identity and its membership, a list of client identities.
/// Duplicate subscriptions are tolerated and kept as-is.
pub struct Group {
    pub id: Vec<u8>,
    pub clients: Vec<Vec<u8>>,
}

#[verifier::ext_equal]
pub struct GroupV {
    pub id: Seq<u8>,
    pub clients: Seq<Seq<u8>>,
}

impl View for Group {
    type V = GroupV;

    open spec fn view(&self) -> GroupV {
        GroupV { id: self.id@, clients: self.clients.deep_view() }
    }
}

impl DeepView for Group {
    type V = GroupV;

    open spec fn deep_view(&self) -> GroupV {
        self@
    }
}

/// The whole signaling state: every connected client and every room.
pub struct ServerState {
    pub clients: Vec<Client>,
    pub groups: Vec<Group>,
}

#[verifier::ext_equal]
pub struct ServerStateV {
    pub clients: Seq<ClientV>,
    pub groups: Seq<GroupV>,
}

impl View for ServerState {
    type V = ServerStateV;

    open spec fn view(&self) -> ServerStateV {
        ServerStateV { clients: self.clients.deep_view(), groups: self.groups.deep_view() }
    }
}

/// The index of the client with this identity, or -1.
pub open spec fn client_idx(cs: Seq<ClientV>, id: Seq<u8>) -> int
    decreases cs.len(),
{
    if cs.len() == 0 {
        -1
    } else if cs[0].client_id == id {
        0
    } else {
        let r = client_idx(cs.drop_first(), id);
        if r == -1 {
            -1
        } else {
            r + 1
        }
    }
}

pub open spec fn has_client(cs: Seq<ClientV>, id: Seq<u8>) -> bool {
    client_idx(cs, id) >= 0
}

/// The index of the group with this room identity, or -1.
pub open spec fn group_idx(gs: Seq<GroupV>, id: Seq<u8>) -> int
    decreases gs.len(),
{
    if gs.len() == 0 {
        -1
    } else if gs[0].id == id {
        0
    } else {
        let r = group_idx(gs.drop_first(), id);
        if r == -1 {
            -1
        } else {
            r + 1
        }
    }
}

pub open spec fn has_group(gs: Seq<GroupV>, id: Seq<u8>) -> bool {
    group_idx(gs, id) >= 0
}

pub proof fn lemma_client_idx(cs: Seq<ClientV>, id: Seq<u8>)
    ensures
        -1 <= client_idx(cs, id) < cs.len(),
        client_idx(cs, id) >= 0 ==> cs[client_idx(cs, id)].client_id == id,
        client_idx(cs, id) == -1 ==> forall|i: int|
            0 <= i < cs.len() ==> cs[i].client_id != id,
        forall|i: int| 0 <= i < client_idx(cs, id) ==> cs[i].client_id != id,
    decreases cs.len(),
{
    if cs.len() > 0 && cs[0].client_id != id {
        lemma_client_idx(cs.drop_first(), id);
        assert(forall|i: int| 1 <= i < cs.len() ==> cs.drop_first()[i - 1] == cs[i]);
    }
}

pub proof fn lemma_group_idx(gs: Seq<GroupV>, id: Seq<u8>)
    ensures
        -1 <= group_idx(gs, id) < gs.len(),
        group_idx(gs, id) >= 0 ==> gs[group_idx(gs, id)].id == id,
        group_idx(gs, id) == -1 ==> forall|i: int| 0 <= i < gs.len() ==> gs[i].id != id,
        forall|i: int| 0 <= i < group_idx(gs, id) ==> gs[i].id != id,
    decreases gs.len(),
{
    if gs.len() > 0 && gs[0].id != id {
        lemma_group_idx(gs.drop_first(), id);
        assert(forall|i: int| 1 <= i < gs.len() ==> gs.drop_first()[i - 1] == gs[i]);
    }
}

/// With unique identities, the index of any matching position is the
/// looked-up index.
pub proof fn lemma_client_idx_unique(cs: Seq<ClientV>, id: Seq<u8>, j: int)
    requires
        forall|a: int, b: int| 0 <= a < b < cs.len() ==> cs[a].client_id != cs[b].client_id,
        0 <= j < cs.len(),
        cs[j].client_id == id,
    ensures
        client_idx(cs, id) == j,
{
    lemma_client_idx(cs, id);
    let r = client_idx(cs, id);
    if r != j {
        assert(r >= 0);
        assert(cs[r].client_id == id);
    }
}

pub proof fn lemma_group_idx_unique(gs: Seq<GroupV>, id: Seq<u8>, j: int)
    requires
        forall|a: int, b: int| 0 <= a < b < gs.len() ==> gs[a].id != gs[b].id,
        0 <= j < gs.len(),
        gs[j].id == id,
    ensures
        group_idx(gs, id) == j,
{
    lemma_group_idx(gs, id);
    let r = group_idx(gs, id);
    if r != j {
        assert(r >= 0);
        assert(gs[r].id == id);
    }
}

/// `group_idx` reads only the room identities, so it is unchanged by any
/// rewrite of the groups that keeps identities in place.
pub proof fn lemma_group_idx_same_ids(gs1: Seq<GroupV>, gs2: Seq<GroupV>, id: Seq<u8>)
    requires
        gs1.len() == gs2.len(),
        forall|i: int| 0 <= i < gs1.len() ==> gs1[i].id == gs2[i].id,
    ensures
        group_idx(gs1, id) == group_idx(gs2, id),
    decreases gs1.len(),
{
    if gs1.len() > 0 {
        assert(forall|i: int| 0 <= i < gs1.len() - 1 ==> gs1.drop_first()[i] == gs1[i + 1]);
        assert(forall|i: int| 0 <= i < gs2.len() - 1 ==> gs2.drop_first()[i] == gs2[i + 1]);
        lemma_group_idx_same_ids(gs1.drop_first(), gs2.drop_first(), id);
    }
}

impl ServerStateV {
    pub open spec fn clients_unique(self) -> bool {
        forall|a: int, b: int|
            0 <= a < b < self.clients.len() ==> self.clients[a].client_id
                != self.clients[b].client_id
    }

    pub open spec fn groups_unique(self) -> bool {
        forall|a: int, b: int|
            0 <= a < b < self.groups.len() ==> self.groups[a].id != self.groups[b].id
    }

    /// A client's local consistency: a session belongs to its client and
    /// room; a client in a room is recorded in that room's membership; a
    /// session exists only while a room is assigned.
    pub open spec fn client_ok(self, c: ClientV) -> bool {
        &&& match c.peer_connection {
            Some(ps) => {
                &&& ps.wf()
                &&& ps.id == c.client_id
                &&& c.group == Some(ps.room)
            },
            None => c.group is None,
        }
        &&& match c.group {
            Some(r) => {
                &&& has_group(self.groups, r)
                &&& self.groups[group_idx(self.groups, r)].clients.contains(c.client_id)
            },
            None => true,
        }
    }

    /// Every recorded member of a room is a registered client that has
    /// this room assigned.
    pub open spec fn member_ok(self, gi: int, mi: int) -> bool {
        let m = self.groups[gi].clients[mi];
        let cj = client_idx(self.clients, m);
        &&& cj >= 0
        &&& self.clients[cj].group == Some(self.groups[gi].id)
    }

    pub open spec fn wf(self) -> bool {
        &&& self.clients_unique()
        &&& self.groups_unique()
        &&& forall|i: int|
            0 <= i < self.clients.len() ==> self.client_ok(#[trigger] self.clients[i])
        &&& forall|gi: int, mi: int|
            0 <= gi < self.groups.len() && 0 <= mi < self.groups[gi].clients.len()
                ==> #[trigger] self.member_ok(gi, mi)
    }
}

impl Group {
    /// Creates an empty room with this identity.
    pub fn new(id: Vec<u8>) -> (g: Group)
        ensures
            g@ == (GroupV { id: id@, clients: Seq::<Seq<u8>>::empty() }),
    {
        let g = Group { id, clients: Vec::new() };
        proof {
            assert(g@ =~= GroupV { id: g.id@, clients: Seq::<Seq<u8>>::empty() });
        }
        g
    }

    /// Appends a client to the membership. No duplicate check is made:
    /// a duplicate subscription is tolerated and produces duplicate relay
    /// targets.
    pub fn subscribe(&mut self, client: Vec<u8>)
        ensures
            final(self)@ == (GroupV {
                id: old(self)@.id,
                clients: old(self)@.clients.push(client@),
            }),
    {
        let ghost cv = client@;
        self.clients.push(client);
        proof {
            assert(self@ =~~= GroupV { id: old(self)@.id,
                clients: old(self)@.clients.push(cv) });
        }
    }
}

impl ServerState {
    /// A server with no clients and no rooms.
    pub fn new() -> (s: ServerState)
        ensures
            s@ == (ServerStateV { clients: Seq::<ClientV>::empty(), groups: Seq::<
                GroupV>::empty() }),
            s@.wf(),
    {
        let s = ServerState { clients: Vec::new(), groups: Vec::new() };
        proof {
            assert(s@ =~= ServerStateV { clients: Seq::<ClientV>::empty(), groups: Seq::<
                GroupV>::empty() });
        }
        s
    }

    /// The position of a registered client, if any.
    #[verifier::loop_isolation(false)]
    pub fn lookup(&self, id: &Vec<u8>) -> (r: Option<usize>)
        ensures
            match r {
                Some(j) => j == client_idx(self@.clients, id@) && 0 <= (j as int)
                    < self@.clients.len() && self@.clients[j as int].client_id == id@,
                None => client_idx(self@.clients, id@) == -1,
            },
    {
        proof {
            lemma_client_idx(self@.clients, id@);
        }
        let mut i: usize = 0;
        while i < self.clients.len()
            invariant
                0 <= i <= self@.clients.len(),
                forall|k: int| 0 <= k < i ==> self@.clients[k].client_id != id@,
            decreases self@.clients.len() - i,
        {
            if bytes_eq(&self.clients[i].client_id, id) {
                proof {
                    lemma_client_idx_rec_match(self@.clients, id@, i as int);
                }
                return Some(i);
            }
            i += 1;
        }
        None
    }

    /// The position of a room, if it exists.
    #[verifier::loop_isolation(false)]
    pub fn lookup_group(&self, id: &Vec<u8>) -> (r: Option<usize>)
        ensures
            match r {
                Some(j) => j == group_idx(self@.groups, id@) && 0 <= (j as int)
                    < self@.groups.len() && self@.groups[j as int].id == id@,
                None => group_idx(self@.groups, id@) == -1,
            },
    {
        proof {
            lemma_group_idx(self@.groups, id@);
        }
        let mut i: usize = 0;
        while i < self.groups.len()
            invariant
                0 <= i <= self@.groups.len(),
                forall|k: int| 0 <= k < i ==> self@.groups[k].id != id@,
            decreases self@.groups.len() - i,
        {
            if bytes_eq(&self.groups[i].id, id) {
                proof {
                    lemma_group_idx_rec_match(self@.groups, id@, i as int);
                }
                return Some(i);
            }
            i += 1;
        }
        None
    }

    /// Registers a newly connected client: no session, no room.
    pub fn register(&mut self, id: Vec<u8>)
        requires
            old(self)@.wf(),
            !has_client(old(self)@.clients, id@),
        ensures
            final(self)@.clients =~= old(self)@.clients.push(ClientV {
                client_id: id@,
                peer_connection: None,
                group: None,
            }),
            final(self)@.groups == old(self)@.groups,
            final(self)@.wf(),
    {
        let c = Client { client_id: id, peer_connection: None, group: None };
        self.clients.push(c);
        proof {
            let pre = old(self)@;
            let post = self@;
            assert(post.clients =~= pre.clients.push(ClientV {
                client_id: post.clients[post.clients.len() - 1].client_id,
                peer_connection: None,
                group: None,
            }));
            assert(post.groups =~= pre.groups);
            lemma_wf_after_client_push(pre, post.clients[post.clients.len() - 1]);
        }
    }
}

/// A client found by scanning matches the recursive index.
proof fn lemma_client_idx_rec_match(cs: Seq<ClientV>, id: Seq<u8>, j: int)
    requires
        0 <= j < cs.len(),
        cs[j].client_id == id,
        forall|k: int| 0 <= k < j ==> cs[k].client_id != id,
    ensures
        client_idx(cs, id) == j,
    decreases j,
{
    if j == 0 {
    } else {
        assert(forall|k: int| 0 <= k < j - 1 ==> cs.drop_first()[k] == cs[k + 1]);
        lemma_client_idx_rec_match(cs.drop_first(), id, j - 1);
    }
}

proof fn lemma_group_idx_rec_match(gs: Seq<GroupV>, id: Seq<u8>, j: int)
    requires
        0 <= j < gs.len(),
        gs[j].id == id,
        forall|k: int| 0 <= k < j ==> gs[k].id != id,
    ensures
        group_idx(gs, id) == j,
    decreases j,
{
    if j == 0 {
    } else {
        assert(forall|k: int| 0 <= k < j - 1 ==> gs.drop_first()[k] == gs[k + 1]);
        lemma_group_idx_rec_match(gs.drop_first(), id, j - 1);
    }
}

/// Appending a fresh, unassigned client keeps the state well-formed.
proof fn lemma_wf_after_client_push(pre: ServerStateV, c: ClientV)
    requires
        pre.wf(),
        !has_client(pre.clients, c.client_id),
        c.peer_connection is None,
        c.group is None,
    ensures
        (ServerStateV { clients: pre.clients.push(c), groups: pre.groups }).wf(),
{
    let post = ServerStateV { clients: pre.clients.push(c), groups: pre.groups };
    lemma_client_idx(pre.clients, c.client_id);
    assert forall|a: int, b: int| 0 <= a < b < post.clients.len() implies post.clients[a].client_id
        != post.clients[b].client_id by {
        if b == post.clients.len() - 1 {
            assert(pre.clients[a].client_id != c.client_id);
        }
    }
    assert forall|i: int| 0 <= i < post.clients.len() implies post.client_ok(
        #[trigger] post.clients[i]) by {
        if i < pre.clients.len() {
            assert(pre.client_ok(pre.clients[i]));
        }
    }
    assert forall|gi: int, mi: int| 0 <= gi < post.groups.len() && 0 <= mi
        < post.groups[gi].clients.len() implies #[trigger] post.member_ok(gi, mi) by {
        assert(pre.member_ok(gi, mi));
        let m = pre.groups[gi].clients[mi];
        let cj = client_idx(pre.clients, m);
        lemma_client_idx(pre.clients, m);
        lemma_client_idx_push(pre.clients, m, c);
        assert(client_idx(post.clients, m) == cj);
        assert(post.clients[cj] == pre.clients[cj]);
    }
}

/// Pushing a client does not move an existing client's index.
pub proof fn lemma_client_idx_push(cs: Seq<ClientV>, id: Seq<u8>, c: ClientV)
    requires
        client_idx(cs, id) >= 0,
    ensures
        client_idx(cs.push(c), id) == client_idx(cs, id),
    decreases cs.len(),
{
    if cs.len() > 0 && cs[0].client_id != id {
        assert(cs.push(c).drop_first() =~= cs.drop_first().push(c));
        lemma_client_idx_push(cs.drop_first(), id, c);
    } else {
        assert(cs.push(c)[0] == cs[0]);
    }
}


/// Relay instructions for every track in a catalog, in catalog order,
/// directed at the session of client `to`.
pub open spec fn track_directives(ts: Seq<TrackV>, to: Seq<u8>) -> Seq<EffectV>
    decreases ts.len(),
{
    if ts.len() == 0 {
        Seq::<EffectV>::empty()
    } else {
        seq![EffectV::Engine { client: to, cmd: EngineCmdV::AddRelayTrack(ts[0]) }]
            + track_directives(ts.drop_first(), to)
    }
}

/// The relay instructions one member contributes: every track of its
/// session's catalog, or nothing if it has no session.
pub open spec fn member_directives(cs: Seq<ClientV>, m: Seq<u8>, to: Seq<u8>) -> Seq<EffectV> {
    let j = client_idx(cs, m);
    if j >= 0 {
        match cs[j].peer_connection {
            Some(ps) => track_directives(ps.tracks, to),
            None => Seq::<EffectV>::empty(),
        }
    } else {
        Seq::<EffectV>::empty()
    }
}

/// The relay instructions a joining client receives: every track already
/// published by any member, in membership order.
pub open spec fn relay_directives(cs: Seq<ClientV>, members: Seq<Seq<u8>>, to: Seq<u8>)
    -> Seq<EffectV>
    decreases members.len(),
{
    if members.len() == 0 {
        Seq::<EffectV>::empty()
    } else {
        member_directives(cs, members[0], to)
            + relay_directives(cs, members.drop_first(), to)
    }
}

/// The fan-out of one newly produced track: every member other than the
/// producer that has a session is instructed to relay it.
pub open spec fn notify_directives(cs: Seq<ClientV>, members: Seq<Seq<u8>>, producer: Seq<u8>,
    t: TrackV) -> Seq<EffectV>
    decreases members.len(),
{
    if members.len() == 0 {
        Seq::<EffectV>::empty()
    } else {
        let j = client_idx(cs, members[0]);
        let head = if members[0] != producer && j >= 0 && cs[j].peer_connection is Some {
            seq![EffectV::Engine { client: members[0], cmd: EngineCmdV::AddRelayTrack(t) }]
        } else {
            Seq::<EffectV>::empty()
        };
        head + notify_directives(cs, members.drop_first(), producer, t)
    }
}

/// Finds the position of the client with this identity.
#[verifier::loop_isolation(false)]
pub fn find_client(clients: &Vec<Client>, id: &Vec<u8>) -> (r: Option<usize>)
    ensures
        match r {
            Some(j) => j == client_idx(clients.deep_view(), id@) && 0 <= (j as int)
                < clients.deep_view().len() && clients.deep_view()[j as int].client_id == id@,
            None => client_idx(clients.deep_view(), id@) == -1,
        },
{
    proof {
        lemma_client_idx(clients.deep_view(), id@);
    }
    let mut i: usize = 0;
    while i < clients.len()
        invariant
            0 <= i <= clients.deep_view().len(),
            forall|k: int| 0 <= k < i ==> clients.deep_view()[k].client_id != id@,
        decreases clients.deep_view().len() - i,
    {
        if bytes_eq(&clients[i].client_id, id) {
            proof {
                lemma_client_idx_rec_match(clients.deep_view(), id@, i as int);
            }
            return Some(i);
        }
        i += 1;
    }
    None
}

impl Group {
    /// Instructs the session of the joining client `to` to relay every
    /// track already published by this room's members. Runs after `to`
    /// has been appended to the membership, while its own session is not
    /// yet recorded, so only tracks known at join time are handed over.
    #[verifier::loop_isolation(false)]
    pub fn add_tracks(&self, clients: &Vec<Client>, to: &Vec<u8>) -> (effects: Vec<Effect>)
        ensures
            effects.deep_view() =~= relay_directives(clients.deep_view(), self@.clients, to@),
    {
        let ghost cs = clients.deep_view();
        let ghost members = self@.clients;
        let mut effects: Vec<Effect> = Vec::new();
        proof {
            assert(members.skip(0) =~= members);
            assert(effects.deep_view() =~= Seq::<EffectV>::empty());
            assert(effects.deep_view() + relay_directives(cs, members, to@)
                =~= relay_directives(cs, members, to@));
        }
        let mut mi: usize = 0;
        while mi < self.clients.len()
            invariant
                0 <= mi <= members.len(),
                members.len() == self.clients.len(),
                effects.deep_view() + relay_directives(cs, members.skip(mi as int), to@)
                    =~= relay_directives(cs, members, to@),
            decreases members.len() - mi,
        {
            proof {
                assert(members.skip(mi as int)[0] == members[mi as int]);
                assert(members.skip(mi as int).drop_first() =~= members.skip(mi as int + 1));
            }
            let ghost done = effects.deep_view();
            let found = find_client(clients, &self.clients[mi]);
            proof {
                assert(self.clients[mi as int]@ == members[mi as int]);
            }
            match found {
                Some(j) => {
                    match &clients[j].peer_connection {
                        Some(ps) => {
                            let ghost ts = ps@.tracks;
                            proof {
                                assert(cs[j as int].peer_connection == Some(ps@));
                                assert(member_directives(cs, members[mi as int], to@)
                                    == track_directives(ts, to@));
                            }
                            proof {
                                lemma_track_directives(ts, to@);
                                assert(effects.deep_view() =~= done
                                    + track_directives(ts, to@).take(0));
                            }
                            let mut ti: usize = 0;
                            while ti < ps.tracks.len()
                                invariant
                                    0 <= ti <= ts.len(),
                                    ts.len() == ps.tracks.len(),
                                    ts == ps@.tracks,
                                    effects.deep_view() =~= done + track_directives(ts, to@)
                                        .take(ti as int),
                                    track_directives(ts, to@).len() == ts.len(),
                                decreases ts.len() - ti,
                            {
                                proof {
                                    lemma_track_directives(ts, to@);
                                }
                                let ghost pre_push = effects.deep_view();
                                effects.push(Effect::Engine {
                                    client: clone_bytes(to),
                                    cmd: EngineCmd::AddRelayTrack(clone_track(&ps.tracks[ti])),
                                });
                                proof {
                                    assert(effects.deep_view() =~~= pre_push.push(
                                        EffectV::Engine { client: to@,
                                            cmd: EngineCmdV::AddRelayTrack(ts[ti as int]) }));
                                    assert(track_directives(ts, to@).take(ti as int + 1)
                                        =~= track_directives(ts, to@).take(ti as int).push(
                                        track_directives(ts, to@)[ti as int]));
                                    assert(effects.deep_view() =~= done
                                        + track_directives(ts, to@).take(ti as int + 1));
                                }
                                ti += 1;
                            }
                            proof {
                                lemma_track_directives(ts, to@);
                                assert(track_directives(ts, to@).take(ts.len() as int)
                                    =~= track_directives(ts, to@));
                            }
                        },
                        None => {
                            proof {
                                assert(member_directives(cs, members[mi as int], to@)
                                    =~= Seq::<EffectV>::empty());
                            }
                        },
                    }
                },
                None => {
                    proof {
                        assert(member_directives(cs, members[mi as int], to@)
                            =~= Seq::<EffectV>::empty());
                    }
                },
            }
            mi += 1;
            proof {
                assert(effects.deep_view() + relay_directives(cs, members.skip(mi as int), to@)
                    =~= relay_directives(cs, members, to@));
            }
        }
        proof {
            assert(members.skip(members.len() as int) =~= Seq::<Seq<u8>>::empty());
        }
        effects
    }

    /// Fans a newly produced track out: every member other than the
    /// producer that has an active session is instructed to relay it.
    #[verifier::loop_isolation(false)]
    pub fn notify_track(&self, clients: &Vec<Client>, producer: &Vec<u8>, track: &Track)
        -> (effects: Vec<Effect>)
        ensures
            effects.deep_view() =~= notify_directives(clients.deep_view(), self@.clients,
                producer@, track@),
    {
        let ghost cs = clients.deep_view();
        let ghost members = self@.clients;
        let ghost t = track@;
        let mut effects: Vec<Effect> = Vec::new();
        proof {
            assert(members.skip(0) =~= members);
            assert(effects.deep_view() =~= Seq::<EffectV>::empty());
            assert(effects.deep_view() + notify_directives(cs, members, producer@, t)
                =~= notify_directives(cs, members, producer@, t));
        }
        let mut mi: usize = 0;
        while mi < self.clients.len()
            invariant
                0 <= mi <= members.len(),
                members.len() == self.clients.len(),
                effects.deep_view() + notify_directives(cs, members.skip(mi as int), producer@, t)
                    =~= notify_directives(cs, members, producer@, t),
            decreases members.len() - mi,
        {
            proof {
                assert(members.skip(mi as int)[0] == members[mi as int]);
                assert(members.skip(mi as int).drop_first() =~= members.skip(mi as int + 1));
                assert(self.clients[mi as int]@ == members[mi as int]);
            }
            if !bytes_eq(&self.clients[mi], producer) {
                let found = find_client(clients, &self.clients[mi]);
                match found {
                    Some(j) => {
                        if clients[j].peer_connection.is_some() {
                            effects.push(Effect::Engine {
                                client: clone_bytes(&self.clients[mi]),
                                cmd: EngineCmd::AddRelayTrack(clone_track(track)),
                            });
                        }
                    },
                    None => {},
                }
            }
            mi += 1;
            proof {
                assert(effects.deep_view() + notify_directives(cs, members.skip(mi as int),
                    producer@, t) =~= notify_directives(cs, members, producer@, t));
            }
        }
        proof {
            assert(members.skip(members.len() as int) =~= Seq::<Seq<u8>>::empty());
        }
        effects
    }
}

/// Each position of the track fan-out is the instruction for the track at
/// that position.
pub proof fn lemma_track_directives(ts: Seq<TrackV>, to: Seq<u8>)
    ensures
        track_directives(ts, to).len() == ts.len(),
        forall|i: int| 0 <= i < ts.len() ==> track_directives(ts, to)[i] == (EffectV::Engine {
            client: to,
            cmd: EngineCmdV::AddRelayTrack(ts[i]),
        }),
    decreases ts.len(),
{
    if ts.len() > 0 {
        lemma_track_directives(ts.drop_first(), to);
        assert(forall|i: int| 1 <= i < ts.len() ==> ts.drop_first()[i - 1] == ts[i]);
    }
}


/// The groups after a room header: unchanged if the room exists, else
/// with a fresh empty room appended.
pub open spec fn groups_with_room(gs: Seq<GroupV>, r: Seq<u8>) -> Seq<GroupV> {
    if has_group(gs, r) {
        gs
    } else {
        gs.push(GroupV { id: r, clients: Seq::<Seq<u8>>::empty() })
    }
}

/// Pushing a group does not move an existing group's index.
pub proof fn lemma_group_idx_push(gs: Seq<GroupV>, id: Seq<u8>, g: GroupV)
    requires
        group_idx(gs, id) >= 0,
    ensures
        group_idx(gs.push(g), id) == group_idx(gs, id),
    decreases gs.len(),
{
    if gs.len() > 0 && gs[0].id != id {
        assert(gs.push(g).drop_first() =~= gs.drop_first().push(g));
        lemma_group_idx_push(gs.drop_first(), id, g);
    } else {
        assert(gs.push(g)[0] == gs[0]);
    }
}

/// The membership with every occurrence of one client removed.
pub open spec fn remove_all(ms: Seq<Seq<u8>>, id: Seq<u8>) -> Seq<Seq<u8>>
    decreases ms.len(),
{
    if ms.len() == 0 {
        Seq::<Seq<u8>>::empty()
    } else {
        let rest = remove_all(ms.drop_first(), id);
        if ms[0] == id {
            rest
        } else {
            seq![ms[0]] + rest
        }
    }
}

/// Removing one client keeps every other member and only them.
pub proof fn lemma_remove_all(ms: Seq<Seq<u8>>, id: Seq<u8>)
    ensures
        !remove_all(ms, id).contains(id),
        forall|x: Seq<u8>| x != id ==> (remove_all(ms, id).contains(x) == ms.contains(x)),
        forall|i: int| 0 <= i < remove_all(ms, id).len() ==> ms.contains(
            #[trigger] remove_all(ms, id)[i]) && remove_all(ms, id)[i] != id,
    decreases ms.len(),
{
    if ms.len() > 0 {
        lemma_remove_all(ms.drop_first(), id);
        let rest = remove_all(ms.drop_first(), id);
        assert forall|i: int| 0 <= i < ms.drop_first().len() implies ms.contains(
            ms.drop_first()[i]) by {
            assert(ms.drop_first()[i] == ms[i + 1]);
        }
        assert forall|x: Seq<u8>| x != id && ms.contains(x) implies remove_all(ms, id).contains(x)
            by {
            let w = choose|w: int| 0 <= w < ms.len() && ms[w] == x;
            if w == 0 {
                assert(remove_all(ms, id)[0] == x);
            } else {
                assert(ms.drop_first()[w - 1] == x);
                assert(ms.drop_first().contains(x));
                let v = choose|v: int| 0 <= v < rest.len() && rest[v] == x;
                if ms[0] == id {
                    assert(remove_all(ms, id)[v] == x);
                } else {
                    assert(remove_all(ms, id)[v + 1] == x);
                }
            }
        }
        assert forall|x: Seq<u8>| x != id && remove_all(ms, id).contains(x) implies ms.contains(x)
            by {
            let w = choose|w: int| 0 <= w < remove_all(ms, id).len() && remove_all(ms, id)[w]
                == x;
            if ms[0] != id && w == 0 {
                assert(ms[0] == x);
            } else {
                let base: int = if ms[0] == id { 0 } else { 1 };
                assert(rest[w - base] == x);
                assert(rest.contains(x));
            }
        }
        if ms[0] != id {
            assert forall|i: int| 0 <= i < remove_all(ms, id).len() implies ms.contains(
                #[trigger] remove_all(ms, id)[i]) && remove_all(ms, id)[i] != id by {
                if i == 0 {
                    assert(remove_all(ms, id)[0] == ms[0]);
                } else {
                    assert(remove_all(ms, id)[i] == rest[i - 1]);
                }
            }
            if remove_all(ms, id).contains(id) {
                let w = choose|w: int| 0 <= w < remove_all(ms, id).len() && remove_all(ms,
                    id)[w] == id;
            }
        } else {
            assert(remove_all(ms, id) == rest);
        }
    }
}

/// The groups with one client struck from every membership.
pub open spec fn strip_member(gs: Seq<GroupV>, id: Seq<u8>) -> Seq<GroupV> {
    gs.map(|i: int, g: GroupV| GroupV { id: g.id, clients: remove_all(g.clients, id) })
}

/// The clients with one identity removed, if present.
pub open spec fn drop_client(cs: Seq<ClientV>, id: Seq<u8>) -> Seq<ClientV> {
    if client_idx(cs, id) >= 0 {
        cs.remove(client_idx(cs, id))
    } else {
        cs
    }
}

impl ServerState {
    /// Resolves a room identity to its group, creating an empty group on
    /// first reference; idempotent for an existing room.
    pub fn get_or_create(&mut self, room: &Vec<u8>) -> (j: usize)
        requires
            old(self)@.wf(),
        ensures
            final(self)@.clients == old(self)@.clients,
            final(self)@.groups =~= groups_with_room(old(self)@.groups, room@),
            j as int == group_idx(final(self)@.groups, room@),
            0 <= (j as int) < final(self)@.groups.len(),
            final(self)@.groups[j as int].id == room@,
            has_group(old(self)@.groups, room@) ==> final(self)@.groups[j as int]
                == old(self)@.groups[j as int],
            !has_group(old(self)@.groups, room@) ==> final(self)@.groups[j as int].clients
                =~= Seq::<Seq<u8>>::empty(),
            final(self)@.wf(),
    {
        let ghost pre = self@;
        match self.lookup_group(room) {
            Some(j) => {
                proof {
                    assert(self@ =~= pre);
                }
                j
            },
            None => {
                let g = Group::new(clone_bytes(room));
                let ghost gv = g@;
                self.groups.push(g);
                let j = self.groups.len() - 1;
                proof {
                    assert(self@.clients =~= pre.clients);
                    assert(self@.groups =~~= pre.groups.push(GroupV { id: room@, clients: Seq::<
                        Seq<u8>>::empty() }));
                    lemma_group_idx(pre.groups, room@);
                    lemma_group_idx_rec_match_g(self@.groups, room@, j as int);
                    lemma_wf_after_group_push(pre, room@);
                }
                j
            },
        }
    }
}

proof fn lemma_group_idx_rec_match_g(gs: Seq<GroupV>, id: Seq<u8>, j: int)
    requires
        0 <= j < gs.len(),
        gs[j].id == id,
        forall|k: int| 0 <= k < j ==> gs[k].id != id,
    ensures
        group_idx(gs, id) == j,
    decreases j,
{
    if j > 0 {
        assert(forall|k: int| 0 <= k < j - 1 ==> gs.drop_first()[k] == gs[k + 1]);
        lemma_group_idx_rec_match_g(gs.drop_first(), id, j - 1);
    }
}

/// Appending a fresh empty room keeps the state well-formed.
proof fn lemma_wf_after_group_push(pre: ServerStateV, r: Seq<u8>)
    requires
        pre.wf(),
        !has_group(pre.groups, r),
    ensures
        (ServerStateV {
            clients: pre.clients,
            groups: pre.groups.push(GroupV { id: r, clients: Seq::<Seq<u8>>::empty() }),
        }).wf(),
{
    let g = GroupV { id: r, clients: Seq::<Seq<u8>>::empty() };
    let post = ServerStateV { clients: pre.clients, groups: pre.groups.push(g) };
    lemma_group_idx(pre.groups, r);
    assert forall|a: int, b: int| 0 <= a < b < post.groups.len() implies post.groups[a].id
        != post.groups[b].id by {
        if b == post.groups.len() - 1 {
            assert(pre.groups[a].id != r);
        }
    }
    assert forall|i: int| 0 <= i < post.clients.len() implies post.client_ok(
        #[trigger] post.clients[i]) by {
        assert(pre.client_ok(pre.clients[i]));
        let c = pre.clients[i];
        match c.group {
            Some(cr) => {
                lemma_group_idx(pre.groups, cr);
                lemma_group_idx_push(pre.groups, cr, g);
                assert(post.groups[group_idx(post.groups, cr)] == pre.groups[group_idx(
                    pre.groups, cr)]);
            },
            None => {},
        }
    }
    assert forall|gi: int, mi: int| 0 <= gi < post.groups.len() && 0 <= mi
        < post.groups[gi].clients.len() implies #[trigger] post.member_ok(gi, mi) by {
        if gi < pre.groups.len() {
            assert(pre.member_ok(gi, mi));
            assert(post.groups[gi] == pre.groups[gi]);
        }
    }
}


/// Removing one client keeps the remaining identities unique and leaves
/// none with the removed identity.
proof fn lemma_drop_client_unique(cs: Seq<ClientV>, id: Seq<u8>)
    requires
        forall|a: int, b: int| 0 <= a < b < cs.len() ==> cs[a].client_id != cs[b].client_id,
    ensures
        forall|a: int, b: int|
            0 <= a < b < drop_client(cs, id).len() ==> drop_client(cs, id)[a].client_id
                != drop_client(cs, id)[b].client_id,
        !has_client(drop_client(cs, id), id),
        forall|i: int| 0 <= i < drop_client(cs, id).len() ==> cs.contains(
            #[trigger] drop_client(cs, id)[i]),
{
    lemma_client_idx(cs, id);
    let j = client_idx(cs, id);
    let post = drop_client(cs, id);
    if j >= 0 {
        assert(forall|i: int| 0 <= i < post.len() ==> post[i] == (if i < j {
            cs[i]
        } else {
            cs[i + 1]
        }));
    }
    assert forall|i: int| 0 <= i < post.len() implies cs.contains(#[trigger] post[i]) by {
        if j >= 0 {
            if i < j {
                assert(post[i] == cs[i]);
            } else {
                assert(post[i] == cs[i + 1]);
            }
        } else {
            assert(post[i] == cs[i]);
        }
    }
    lemma_client_idx(post, id);
    let r = client_idx(post, id);
    if r >= 0 {
        if j >= 0 {
            if r < j {
                assert(cs[r].client_id == id);
            } else {
                assert(cs[r + 1].client_id == id);
            }
        }
        assert(false);
    }
}

/// A client other than the removed one is still found, unchanged.
proof fn lemma_drop_client_lookup(cs: Seq<ClientV>, id: Seq<u8>, m: Seq<u8>)
    requires
        forall|a: int, b: int| 0 <= a < b < cs.len() ==> cs[a].client_id != cs[b].client_id,
        m != id,
        client_idx(cs, m) >= 0,
    ensures
        client_idx(drop_client(cs, id), m) >= 0,
        drop_client(cs, id)[client_idx(drop_client(cs, id), m)] == cs[client_idx(cs, m)],
{
    lemma_client_idx(cs, id);
    lemma_client_idx(cs, m);
    let j = client_idx(cs, id);
    let cj = client_idx(cs, m);
    let post = drop_client(cs, id);
    if j == -1 {
        assert(post == cs);
    } else {
        assert(cs[j].client_id == id);
        assert(cj != j);
        let wit: int = if cj < j {
            cj
        } else {
            cj - 1
        };
        assert(post[wit] == cs[cj]);
        lemma_client_idx(post, m);
        let r = client_idx(post, m);
        if r == -1 {
            assert(post[wit].client_id == m);
            assert(false);
        }
        let pr: int = if r < j {
            r
        } else {
            r + 1
        };
        assert(post[r] == cs[pr]);
        assert(cs[pr].client_id == m);
        if pr != cj {
            assert(false);
        }
    }
}

/// Unregistering leaves a well-formed state.
proof fn lemma_wf_after_unregister(pre: ServerStateV, id: Seq<u8>)
    requires
        pre.wf(),
    ensures
        (ServerStateV { clients: drop_client(pre.clients, id),
            groups: strip_member(pre.groups, id) }).wf(),
        !has_client(drop_client(pre.clients, id), id),
        forall|gi: int|
            0 <= gi < strip_member(pre.groups, id).len() ==> !(#[trigger] strip_member(pre.groups,
                id)[gi]).clients.contains(id),
{
    let post = ServerStateV { clients: drop_client(pre.clients, id),
        groups: strip_member(pre.groups, id) };
    lemma_client_idx(pre.clients, id);
    let j = client_idx(pre.clients, id);
    lemma_drop_client_unique(pre.clients, id);
    assert(post.groups.len() == pre.groups.len());
    assert forall|gi: int| 0 <= gi < post.groups.len() implies (#[trigger] post.groups[gi]).id
        == pre.groups[gi].id && post.groups[gi].clients == remove_all(pre.groups[gi].clients,
        id) by {}
    assert forall|gi: int| 0 <= gi < post.groups.len() implies !(
    #[trigger] post.groups[gi]).clients.contains(id) by {
        lemma_remove_all(pre.groups[gi].clients, id);
    }
    // groups stay unique
    assert forall|a: int, b: int| 0 <= a < b < post.groups.len() implies post.groups[a].id
        != post.groups[b].id by {}
    // every member of a room is never the removed identity
    assert forall|gi: int, mi: int| 0 <= gi < pre.groups.len() && 0 <= mi
        < pre.groups[gi].clients.len() implies pre.groups[gi].clients[mi] != id || j >= 0 by {
        if pre.groups[gi].clients[mi] == id {
            assert(pre.member_ok(gi, mi));
        }
    }
    // surviving clients stay consistent
    assert forall|i: int| 0 <= i < post.clients.len() implies post.client_ok(
        #[trigger] post.clients[i]) by {
        let c = post.clients[i];
        let pi: int = if j >= 0 && i >= j {
            i + 1
        } else {
            i
        };
        assert(c == pre.clients[pi]);
        assert(pre.client_ok(c));
        if j >= 0 {
            assert(c.client_id != id);
        }
        match c.group {
            Some(r) => {
                lemma_group_idx(pre.groups, r);
                lemma_group_idx_same_ids(pre.groups, post.groups, r);
                let gi = group_idx(pre.groups, r);
                lemma_remove_all(pre.groups[gi].clients, id);
                if c.client_id == id {
                    // only possible when the identity was never registered,
                    // and then nothing was removed
                    assert(j >= 0);
                    assert(false);
                }
                assert(post.groups[gi].clients.contains(c.client_id));
            },
            None => {},
        }
    }
    // memberships still point at registered clients of the same room
    assert forall|gi: int, mi: int| 0 <= gi < post.groups.len() && 0 <= mi
        < post.groups[gi].clients.len() implies #[trigger] post.member_ok(gi, mi) by {
        let m = post.groups[gi].clients[mi];
        lemma_remove_all(pre.groups[gi].clients, id);
        assert(pre.groups[gi].clients.contains(m) && m != id);
        let mi0 = choose|mi0: int|
            0 <= mi0 < pre.groups[gi].clients.len() && pre.groups[gi].clients[mi0] == m;
        assert(pre.member_ok(gi, mi0));
        let cj = client_idx(pre.clients, m);
        lemma_drop_client_lookup(pre.clients, id, m);
        assert(post.clients[client_idx(post.clients, m)] == pre.clients[cj]);
        assert(post.clients[client_idx(post.clients, m)].group == Some(post.groups[gi].id));
    }
}

impl ServerState {
    /// Removes a client from the registry and, in the same step, every
    /// occurrence of it from every room's membership: no observer of the
    /// state sees one removal without the other. Removing an unknown
    /// identity leaves the registry as it was.
    #[verifier::loop_isolation(false)]
    pub fn unregister(&mut self, id: &Vec<u8>)
        requires
            old(self)@.wf(),
        ensures
            final(self)@.clients =~= drop_client(old(self)@.clients, id@),
            final(self)@.groups =~~= strip_member(old(self)@.groups, id@),
            !has_client(final(self)@.clients, id@),
            forall|gi: int|
                0 <= gi < final(self)@.groups.len() ==> !(
                #[trigger] final(self)@.groups[gi]).clients.contains(id@),
            final(self)@.wf(),
    {
        let ghost pre = self@;
        match self.lookup(id) {
            Some(j) => {
                self.clients.remove(j);
                proof {
                    assert(self@.clients =~~= drop_client(pre.clients, id@));
                    assert(self@.groups =~~= pre.groups);
                }
            },
            None => {
                proof {
                    assert(self@.clients =~~= drop_client(pre.clients, id@));
                }
            },
        }
        let ghost mid = self@;
        let mut gi: usize = 0;
        while gi < self.groups.len()
            invariant
                0 <= gi <= self@.groups.len(),
                self@.groups.len() == pre.groups.len(),
                self@.clients == mid.clients,
                forall|k: int|
                    0 <= k < gi ==> self@.groups[k] == strip_member(pre.groups, id@)[k],
                forall|k: int| gi <= k < pre.groups.len() ==> self@.groups[k] == pre.groups[k],
            decreases pre.groups.len() - gi,
        {
            let ghost cur = self@.groups;
            let mut g = self.groups.remove(gi);
            let ghost shrunk = self@.groups;
            proof {
                assert(shrunk =~= cur.remove(gi as int));
            }
            let ghost ms = g@.clients;
            proof {
                assert(ms == pre.groups[gi as int].clients);
            }
            let mut kept: Vec<Vec<u8>> = Vec::new();
            proof {
                assert(ms.skip(0) =~= ms);
                assert(kept.deep_view() + remove_all(ms, id@) =~= remove_all(ms, id@));
            }
            let mut k: usize = 0;
            while k < g.clients.len()
                invariant
                    0 <= k <= ms.len(),
                    ms.len() == g.clients.len(),
                    ms == g@.clients,
                    kept.deep_view() + remove_all(ms.skip(k as int), id@) =~= remove_all(ms,
                        id@),
                decreases ms.len() - k,
            {
                proof {
                    assert(ms.skip(k as int)[0] == ms[k as int]);
                    assert(ms.skip(k as int).drop_first() =~= ms.skip(k as int + 1));
                    assert(g.clients[k as int]@ == ms[k as int]);
                }
                let ghost pre_push = kept.deep_view();
                if !bytes_eq(&g.clients[k], id) {
                    kept.push(clone_bytes(&g.clients[k]));
                    proof {
                        assert(kept.deep_view() =~~= pre_push.push(ms[k as int]));
                        assert(kept.deep_view() + remove_all(ms.skip(k as int + 1), id@)
                            =~= pre_push + (seq![ms[k as int]] + remove_all(ms.skip(
                            k as int + 1), id@)));
                    }
                }
                k += 1;
            }
            proof {
                assert(ms.skip(ms.len() as int) =~= Seq::<Seq<u8>>::empty());
                assert(kept.deep_view() =~= remove_all(ms, id@));
            }
            g.clients = kept;
            let ghost gv = g@;
            self.groups.insert(gi, g);
            proof {
                assert(gv =~~= GroupV { id: pre.groups[gi as int].id,
                    clients: remove_all(pre.groups[gi as int].clients, id@) });
                assert(gv =~~= strip_member(pre.groups, id@)[gi as int]);
                assert(self@.groups =~~= shrunk.insert(gi as int, gv));
                assert forall|kk: int| 0 <= kk < gi + 1 implies self@.groups[kk] == strip_member(
                    pre.groups, id@)[kk] by {
                    if kk < gi {
                        assert(self@.groups[kk] == shrunk[kk]);
                        assert(shrunk[kk] == cur[kk]);
                    }
                }
                assert forall|kk: int| gi + 1 <= kk < pre.groups.len() implies self@.groups[kk]
                    == pre.groups[kk] by {
                    assert(self@.groups[kk] == shrunk[kk - 1]);
                    assert(shrunk[kk - 1] == cur[kk]);
                }
            }
            gi += 1;
        }
        proof {
            assert(self@.groups =~~= strip_member(pre.groups, id@));
            lemma_wf_after_unregister(pre, id@);
            assert(self@ =~~= ServerStateV { clients: drop_client(pre.clients, id@),
                groups: strip_member(pre.groups, id@) });
        }
    }
}


/// An engine event described at the spec level.
#[verifier::ext_equal]
pub enum EngineEventV {
    AnswerCreated(SessionDescriptionV),
    AnswerFailed,
    OfferCreated(SessionDescriptionV),
    OfferFailed,
    RemoteTrack(MediaKind),
    CandidateDiscovered(CandidateV),
    NegotiationNeeded,
    ConnectionStateChanged(ConnState),
}

impl View for EngineEvent {
    type V = EngineEventV;

    open spec fn view(&self) -> EngineEventV {
        match self {
            EngineEvent::AnswerCreated(d) => EngineEventV::AnswerCreated(d@),
            EngineEvent::AnswerFailed => EngineEventV::AnswerFailed,
            EngineEvent::OfferCreated(d) => EngineEventV::OfferCreated(d@),
            EngineEvent::OfferFailed => EngineEventV::OfferFailed,
            EngineEvent::RemoteTrack(k) => EngineEventV::RemoteTrack(*k),
            EngineEvent::CandidateDiscovered(c) => EngineEventV::CandidateDiscovered(c@),
            EngineEvent::NegotiationNeeded => EngineEventV::NegotiationNeeded,
            EngineEvent::ConnectionStateChanged(cs) => EngineEventV::ConnectionStateChanged(*cs),
        }
    }
}

/// Engine commands wrapped as effects addressed to one client.
pub open spec fn wrap_cmds(cmds: Seq<EngineCmdV>, cid: Seq<u8>) -> Seq<EffectV> {
    cmds.map(|i: int, c: EngineCmdV| EffectV::Engine { client: cid, cmd: c })
}

/// The description used when the inbound text failed to parse: the same
/// role with an empty body.
pub open spec fn desc_of(k: SdpKind, sdp: Option<Seq<u8>>) -> SessionDescriptionV {
    SessionDescriptionV {
        kind: k,
        sdp: match sdp {
            Some(t) => t,
            None => Seq::<u8>::empty(),
        },
    }
}

/// The log entry recorded when a description failed to parse.
pub open spec fn parse_note(sdp: Option<Seq<u8>>) -> Seq<EffectV> {
    match sdp {
        Some(_) => Seq::<EffectV>::empty(),
        None => seq![EffectV::Log(ErrorKind::DescriptionParse)],
    }
}

/// The candidate handed to the engine: the parsed one, or the default.
pub open spec fn cand_of(co: Option<CandidateV>) -> CandidateV {
    match co {
        Some(c) => c,
        None => CandidateV {
            candidate: Seq::<u8>::empty(),
            sdp_mid: None,
            sdp_mline_index: None,
            username_fragment: None,
        },
    }
}

/// Processing the room header: get-or-create the named room.
pub open spec fn step_header(s: ServerStateV, room: Option<Seq<u8>>) -> ServerStateV {
    match room {
        Some(r) => ServerStateV { clients: s.clients, groups: groups_with_room(s.groups, r) },
        None => s,
    }
}

/// Processing an offer. With a live session this is a renegotiation
/// offer. Without one, a room must have been assigned in this envelope:
/// the client is subscribed into it, its new session is handed every
/// track the room already carries, and the offer is processed.
pub open spec fn step_offer(s: ServerStateV, cid: Seq<u8>, room: Option<Seq<u8>>,
    sdp: Option<Seq<u8>>) -> (ServerStateV, Seq<EffectV>) {
    let j = client_idx(s.clients, cid);
    let c = s.clients[j];
    let cmds = wrap_cmds(seq![
        EngineCmdV::SetRemoteDescription(desc_of(SdpKind::Offer, sdp)),
        EngineCmdV::CreateAnswer,
    ], cid);
    match c.peer_connection {
        Some(ps) => {
            let c2 = ClientV {
                client_id: c.client_id,
                peer_connection: Some(PeerSessionV { state: NegotiationState::HaveRemoteOffer,
                    ..ps }),
                group: c.group,
            };
            (ServerStateV { clients: s.clients.update(j, c2), groups: s.groups },
                parse_note(sdp) + cmds)
        },
        None => match room {
            None => (s, seq![EffectV::Reject(ErrorKind::UnassignedGroup)]),
            Some(r) => {
                let gi = group_idx(s.groups, r);
                let g = s.groups[gi];
                let g2 = GroupV { id: g.id, clients: g.clients.push(cid) };
                let c_mid = ClientV { client_id: c.client_id, peer_connection: None,
                    group: Some(r) };
                let cs_mid = s.clients.update(j, c_mid);
                let dirs = relay_directives(cs_mid, g2.clients, cid);
                let ps2 = PeerSessionV {
                    id: cid,
                    room: r,
                    state: NegotiationState::HaveRemoteOffer,
                    tracks: Seq::<TrackV>::empty(),
                };
                let c2 = ClientV { client_id: c.client_id, peer_connection: Some(ps2),
                    group: Some(r) };
                (ServerStateV { clients: s.clients.update(j, c2), groups: s.groups.update(gi,
                    g2) }, dirs + parse_note(sdp) + cmds)
            },
        },
    }
}

/// Processing an answer: recorded on the live session only; with no
/// session the message is logged and dropped.
pub open spec fn step_answer(s: ServerStateV, cid: Seq<u8>, sdp: Option<Seq<u8>>)
    -> (ServerStateV, Seq<EffectV>) {
    let j = client_idx(s.clients, cid);
    let c = s.clients[j];
    match c.peer_connection {
        Some(ps) => {
            let c2 = ClientV {
                client_id: c.client_id,
                peer_connection: Some(PeerSessionV { state: NegotiationState::Stable, ..ps }),
                group: c.group,
            };
            (ServerStateV { clients: s.clients.update(j, c2), groups: s.groups },
                parse_note(sdp) + wrap_cmds(seq![
                    EngineCmdV::SetRemoteDescription(desc_of(SdpKind::Answer, sdp)),
                ], cid))
        },
        None => (s, seq![EffectV::Log(ErrorKind::MissingSession)]),
    }
}

/// Processing the session-description part of an envelope.
pub open spec fn step_sdp(s: ServerStateV, cid: Seq<u8>, room: Option<Seq<u8>>,
    part: Option<SdpPartV>) -> (ServerStateV, Seq<EffectV>) {
    match part {
        None => (s, Seq::<EffectV>::empty()),
        Some(SdpPartV::Invalid) => (s, seq![EffectV::Log(ErrorKind::UnrecognizedType)]),
        Some(SdpPartV::Desc(SdpKind::Offer, sdp)) => step_offer(s, cid, room, sdp),
        Some(SdpPartV::Desc(SdpKind::Answer, sdp)) => step_answer(s, cid, sdp),
    }
}

/// Processing the candidate part: forwarded to the live session only;
/// with no session an error is logged and the candidate dropped.
pub open spec fn step_ice(s: ServerStateV, cid: Seq<u8>, ice: Option<Option<CandidateV>>)
    -> Seq<EffectV> {
    match ice {
        None => Seq::<EffectV>::empty(),
        Some(co) => {
            let j = client_idx(s.clients, cid);
            match s.clients[j].peer_connection {
                Some(_) => (match co {
                    Some(_) => Seq::<EffectV>::empty(),
                    None => seq![EffectV::Log(ErrorKind::CandidateParse)],
                }) + wrap_cmds(seq![EngineCmdV::AddIceCandidate(cand_of(co))], cid),
                None => seq![EffectV::Log(ErrorKind::MissingSession)],
            }
        },
    }
}

/// One whole envelope: the room header first, then the description part,
/// then the candidate part.
pub open spec fn step_envelope(s: ServerStateV, cid: Seq<u8>, env: EnvelopeV) -> (ServerStateV,
    Seq<EffectV>) {
    let s1 = step_header(s, env.room);
    let r = step_sdp(s1, cid, env.room, env.sdp);
    let e2 = step_ice(r.0, cid, env.ice);
    (r.0, r.1 + e2)
}

/// `client_idx` reads only the identities, so it is unchanged by any
/// rewrite of the clients that keeps identities in place.
pub proof fn lemma_client_idx_same_ids(cs1: Seq<ClientV>, cs2: Seq<ClientV>, id: Seq<u8>)
    requires
        cs1.len() == cs2.len(),
        forall|i: int| 0 <= i < cs1.len() ==> cs1[i].client_id == cs2[i].client_id,
    ensures
        client_idx(cs1, id) == client_idx(cs2, id),
    decreases cs1.len(),
{
    if cs1.len() > 0 {
        assert(forall|i: int| 0 <= i < cs1.len() - 1 ==> cs1.drop_first()[i] == cs1[i + 1]);
        assert(forall|i: int| 0 <= i < cs2.len() - 1 ==> cs2.drop_first()[i] == cs2[i + 1]);
        lemma_client_idx_same_ids(cs1.drop_first(), cs2.drop_first(), id);
    }
}

/// Replacing one client's session, keeping its identity and room, keeps
/// the state well-formed.
proof fn lemma_wf_after_session_update(s: ServerStateV, j: int, c2: ClientV)
    requires
        s.wf(),
        0 <= j < s.clients.len(),
        c2.client_id == s.clients[j].client_id,
        c2.group == s.clients[j].group,
        match (c2.peer_connection, s.clients[j].peer_connection) {
            (Some(ps2), Some(ps)) => ps2.wf() && ps2.id == ps.id && ps2.room == ps.room,
            _ => false,
        },
    ensures
        (ServerStateV { clients: s.clients.update(j, c2), groups: s.groups }).wf(),
{
    let post = ServerStateV { clients: s.clients.update(j, c2), groups: s.groups };
    assert forall|i: int| 0 <= i < post.clients.len() implies post.client_ok(
        #[trigger] post.clients[i]) by {
        assert(s.client_ok(s.clients[i]));
        if i == j {
            assert(s.client_ok(s.clients[j]));
        }
    }
    assert forall|gi: int, mi: int| 0 <= gi < post.groups.len() && 0 <= mi
        < post.groups[gi].clients.len() implies #[trigger] post.member_ok(gi, mi) by {
        assert(s.member_ok(gi, mi));
        let m = s.groups[gi].clients[mi];
        lemma_client_idx(s.clients, m);
        lemma_client_idx_same_ids(s.clients, post.clients, m);
    }
}

/// Subscribing a sessionless client into a room and giving it a fresh
/// session for that room keeps the state well-formed.
proof fn lemma_wf_after_join(s: ServerStateV, j: int, gi: int, r: Seq<u8>)
    requires
        s.wf(),
        0 <= j < s.clients.len(),
        s.clients[j].peer_connection is None,
        0 <= gi < s.groups.len(),
        s.groups[gi].id == r,
    ensures
        ({
            let c = s.clients[j];
            let cid = c.client_id;
            let g = s.groups[gi];
            let ps2 = PeerSessionV {
                id: cid,
                room: r,
                state: NegotiationState::HaveRemoteOffer,
                tracks: Seq::<TrackV>::empty(),
            };
            let c2 = ClientV { client_id: cid, peer_connection: Some(ps2), group: Some(r) };
            let g2 = GroupV { id: g.id, clients: g.clients.push(cid) };
            (ServerStateV { clients: s.clients.update(j, c2), groups: s.groups.update(gi,
                g2) }).wf()
        }),
{
    let c = s.clients[j];
    let cid = c.client_id;
    let g = s.groups[gi];
    let ps2 = PeerSessionV {
        id: cid,
        room: r,
        state: NegotiationState::HaveRemoteOffer,
        tracks: Seq::<TrackV>::empty(),
    };
    let c2 = ClientV { client_id: cid, peer_connection: Some(ps2), group: Some(r) };
    let g2 = GroupV { id: g.id, clients: g.clients.push(cid) };
    let post = ServerStateV { clients: s.clients.update(j, c2), groups: s.groups.update(gi,
        g2) };
    assert(s.client_ok(c));
    assert(c.group is None);
    // the subscribing client is in no membership yet
    assert forall|gk: int, mk: int| 0 <= gk < s.groups.len() && 0 <= mk
        < s.groups[gk].clients.len() implies s.groups[gk].clients[mk] != cid by {
        if s.groups[gk].clients[mk] == cid {
            assert(s.member_ok(gk, mk));
            lemma_client_idx_unique(s.clients, cid, j);
        }
    }
    assert forall|i: int| 0 <= i < post.clients.len() implies post.client_ok(
        #[trigger] post.clients[i]) by {
        assert(s.client_ok(s.clients[i]));
        if i == j {
            lemma_group_idx_unique(s.groups, r, gi);
            lemma_group_idx_same_ids(s.groups, post.groups, r);
            assert(post.groups[gi].clients[post.groups[gi].clients.len() - 1] == cid);
            assert(post.groups[gi].clients.contains(cid));
        } else {
            let ci = s.clients[i];
            match ci.group {
                Some(cr) => {
                    lemma_group_idx(s.groups, cr);
                    lemma_group_idx_same_ids(s.groups, post.groups, cr);
                    let cgi = group_idx(s.groups, cr);
                    if cgi == gi {
                        let w = choose|w: int|
                            0 <= w < s.groups[gi].clients.len() && s.groups[gi].clients[w]
                                == ci.client_id;
                        assert(post.groups[gi].clients[w] == ci.client_id);
                        assert(post.groups[cgi].clients.contains(ci.client_id));
                    } else {
                        assert(post.groups[cgi] == s.groups[cgi]);
                    }
                },
                None => {},
            }
        }
    }
    assert forall|gk: int, mk: int| 0 <= gk < post.groups.len() && 0 <= mk
        < post.groups[gk].clients.len() implies #[trigger] post.member_ok(gk, mk) by {
        let m = post.groups[gk].clients[mk];
        if gk == gi && mk == g.clients.len() {
            assert(m == cid);
            lemma_client_idx_unique(s.clients, cid, j);
            lemma_client_idx_same_ids(s.clients, post.clients, cid);
            assert(post.clients[j].group == Some(r));
        } else {
            assert(m == s.groups[gk].clients[mk]);
            assert(s.member_ok(gk, mk));
            let cj = client_idx(s.clients, m);
            lemma_client_idx(s.clients, m);
            lemma_client_idx_same_ids(s.clients, post.clients, m);
            assert(m != cid);
            assert(cj != j || s.clients[cj].client_id == cid);
            assert(post.clients[cj] == s.clients[cj]);
        }
    }
}

/// Tearing one session down: the client loses its session, its room, and
/// its membership, and the state stays well-formed.
proof fn lemma_wf_after_teardown(s: ServerStateV, j: int)
    requires
        s.wf(),
        0 <= j < s.clients.len(),
        s.clients[j].peer_connection is Some,
    ensures
        ({
            let c = s.clients[j];
            let ps = c.peer_connection.unwrap();
            let gi = group_idx(s.groups, ps.room);
            let g = s.groups[gi];
            let c2 = ClientV { client_id: c.client_id, peer_connection: None, group: None };
            let g2 = GroupV { id: g.id, clients: remove_all(g.clients, c.client_id) };
            &&& 0 <= gi < s.groups.len()
            &&& (ServerStateV { clients: s.clients.update(j, c2), groups: s.groups.update(gi,
                g2) }).wf()
        }),
{
    let c = s.clients[j];
    let cid = c.client_id;
    let ps = c.peer_connection.unwrap();
    assert(s.client_ok(c));
    lemma_group_idx(s.groups, ps.room);
    let gi = group_idx(s.groups, ps.room);
    let g = s.groups[gi];
    let c2 = ClientV { client_id: cid, peer_connection: None, group: None };
    let g2 = GroupV { id: g.id, clients: remove_all(g.clients, cid) };
    let post = ServerStateV { clients: s.clients.update(j, c2), groups: s.groups.update(gi,
        g2) };
    lemma_remove_all(g.clients, cid);
    // the torn-down client appears in no other room
    assert forall|gk: int, mk: int| 0 <= gk < s.groups.len() && gk != gi && 0 <= mk
        < s.groups[gk].clients.len() implies s.groups[gk].clients[mk] != cid by {
        if s.groups[gk].clients[mk] == cid {
            assert(s.member_ok(gk, mk));
            lemma_client_idx_unique(s.clients, cid, j);
        }
    }
    assert forall|i: int| 0 <= i < post.clients.len() implies post.client_ok(
        #[trigger] post.clients[i]) by {
        assert(s.client_ok(s.clients[i]));
        if i != j {
            let ci = s.clients[i];
            match ci.group {
                Some(cr) => {
                    lemma_group_idx(s.groups, cr);
                    lemma_group_idx_same_ids(s.groups, post.groups, cr);
                    let cgi = group_idx(s.groups, cr);
                    if cgi == gi {
                        assert(ci.client_id != cid);
                        assert(post.groups[gi].clients.contains(ci.client_id));
                    } else {
                        assert(post.groups[cgi] == s.groups[cgi]);
                    }
                },
                None => {},
            }
        }
    }
    assert forall|gk: int, mk: int| 0 <= gk < post.groups.len() && 0 <= mk
        < post.groups[gk].clients.len() implies #[trigger] post.member_ok(gk, mk) by {
        let m = post.groups[gk].clients[mk];
        if gk == gi {
            assert(g.clients.contains(m) && m != cid);
            let mi0 = choose|mi0: int|
                0 <= mi0 < g.clients.len() && g.clients[mi0] == m;
            assert(s.member_ok(gi, mi0));
        } else {
            assert(s.member_ok(gk, mk));
            assert(post.groups[gk].clients[mk] == s.groups[gk].clients[mk]);
        }
        let cj = client_idx(s.clients, m);
        lemma_client_idx(s.clients, m);
        lemma_client_idx_same_ids(s.clients, post.clients, m);
        assert(m != cid);
        assert(post.clients[cj] == s.clients[cj]);
    }
}


/// Appends one effect.
fn push_effect(effects: &mut Vec<Effect>, e: Effect)
    ensures
        final(effects).deep_view() == old(effects).deep_view().push(e@),
{
    let ghost pre = effects.deep_view();
    let ghost ev = e@;
    effects.push(e);
    proof {
        assert(effects.deep_view() =~~= pre.push(ev));
    }
}

/// Appends every command as an engine effect addressed to `cid`, in order.
#[verifier::loop_isolation(false)]
fn push_engine_cmds(effects: &mut Vec<Effect>, cid: &Vec<u8>, cmds: Vec<EngineCmd>)
    ensures
        final(effects).deep_view() == old(effects).deep_view() + wrap_cmds(cmds.deep_view(),
            cid@),
{
    let ghost base = effects.deep_view();
    let ghost all = cmds.deep_view();
    let mut cmds = cmds;
    let ghost mut k: int = 0;
    proof {
        assert(all.skip(0) =~= all);
        assert(base + wrap_cmds(all, cid@).take(0) =~= base);
    }
    while cmds.len() > 0
        invariant
            0 <= k <= all.len(),
            k + cmds.len() == all.len(),
            cmds.deep_view() =~= all.skip(k),
            effects.deep_view() =~= base + wrap_cmds(all, cid@).take(k),
        decreases cmds.len(),
    {
        let ghost pre_push = effects.deep_view();
        let ghost pre_cmds = cmds.deep_view();
        let c = cmds.remove(0);
        proof {
            assert(pre_cmds[0] == c@);
            assert(all.skip(k)[0] == all[k]);
            assert(c@ == all[k]);
            assert(cmds.deep_view() =~~= pre_cmds.drop_first());
            assert(pre_cmds.drop_first() =~= all.skip(k + 1));
        }
        effects.push(Effect::Engine { client: clone_bytes(cid), cmd: c });
        proof {
            assert(effects.deep_view() =~~= pre_push.push(EffectV::Engine { client: cid@,
                cmd: all[k] }));
            assert(wrap_cmds(all, cid@)[k] == (EffectV::Engine { client: cid@,
                cmd: all[k] }));
            assert(wrap_cmds(all, cid@).take(k + 1) =~= wrap_cmds(all, cid@).take(
                k).push(wrap_cmds(all, cid@)[k]));
            assert(effects.deep_view() =~= base + wrap_cmds(all, cid@).take(k + 1));
            k = k + 1;
        }
    }
    proof {
        assert(wrap_cmds(all, cid@).take(all.len() as int) =~= wrap_cmds(all, cid@));
    }
}

impl ServerState {
    /// Dispatches one parsed envelope from a client: the room header
    /// first, then the session-description part, then the candidate part.
    /// Returns every resulting effect, in order.
    #[verifier::rlimit(100)]
    pub fn handle_envelope(&mut self, cid: &Vec<u8>, env: Envelope) -> (effects: Vec<Effect>)
        requires
            old(self)@.wf(),
            has_client(old(self)@.clients, cid@),
        ensures
            final(self)@ == step_envelope(old(self)@, cid@, env@).0,
            effects.deep_view() == step_envelope(old(self)@, cid@, env@).1,
            final(self)@.wf(),
    {
        let ghost s0 = self@;
        let ghost env_v = env@;
        let Envelope { room, sdp, ice } = env;
        match &room {
            Some(r) => {
                let _ = self.get_or_create(r);
                proof {
                    assert(self@ =~~= step_header(s0, env_v.room));
                }
            },
            None => {
                proof {
                    assert(self@ =~~= step_header(s0, env_v.room));
                }
            },
        }
        let ghost s1 = step_header(s0, env_v.room);
        proof {
            assert(self@ == s1);
            assert(s1.clients == s0.clients);
            assert(self@.wf());
        }
        let mut effects: Vec<Effect> = Vec::new();
        match sdp {
            None => {},
            Some(SdpPart::Invalid) => {
                push_effect(&mut effects, Effect::Log(ErrorKind::UnrecognizedType));
            },
            Some(SdpPart::Desc(kind, sdp_opt)) => {
                let ghost sdp_v: Option<Seq<u8>> = match sdp_opt {
                    Some(ref t) => Some(t@),
                    None => None,
                };
                let parse_failed = sdp_opt.is_none();
                let desc = SessionDescription { kind, sdp: match sdp_opt {
                    Some(t) => t,
                    None => Vec::new(),
                } };
                proof {
                    assert(desc@ =~= desc_of(kind, sdp_v));
                }
                let j = match self.lookup(cid) {
                    Some(j) => j,
                    None => {
                        proof {
                            assert(false);
                        }
                        0
                    },
                };
                let has_session = self.clients[j].peer_connection.is_some();
                match kind {
                    SdpKind::Offer => {
                        if has_session {
                            if parse_failed {
                                push_effect(&mut effects, Effect::Log(
                                    ErrorKind::DescriptionParse));
                            }
                            let mut c = self.clients.remove(j);
                            let cmds = match c.peer_connection {
                                Some(ref mut ps) => ps.process_offer(desc),
                                None => {
                                    proof {
                                        assert(false);
                                    }
                                    Vec::new()
                                },
                            };
                            self.clients.insert(j, c);
                            push_engine_cmds(&mut effects, cid, cmds);
                            proof {
                                let c0 = s1.clients[j as int];
                                let c2 = ClientV {
                                    client_id: c0.client_id,
                                    peer_connection: Some(PeerSessionV {
                                        state: NegotiationState::HaveRemoteOffer,
                                        ..c0.peer_connection.unwrap()
                                    }),
                                    group: c0.group,
                                };
                                assert(self@.clients =~~= s1.clients.update(j as int, c2));
                                assert(self@ =~~= step_offer(s1, cid@, env_v.room, sdp_v).0);
                                assert(effects.deep_view() =~~= step_offer(s1, cid@,
                                    env_v.room, sdp_v).1);
                                lemma_wf_after_session_update(s1, j as int, c2);
                                assert(self@.wf());
                                assert(has_client(self@.clients, cid@)) by {
                                    lemma_client_idx_same_ids(s1.clients, self@.clients, cid@);
                                }
                            }
                        } else {
                            match &room {
                                None => {
                                    push_effect(&mut effects, Effect::Reject(
                                        ErrorKind::UnassignedGroup));
                                    proof {
                                        assert(self@ == step_offer(s1, cid@, env_v.room,
                                            sdp_v).0);
                                        assert(effects.deep_view() =~~= step_offer(s1, cid@,
                                            env_v.room, sdp_v).1);
                                    }
                                },
                                Some(r) => {
                                    let gi = match self.lookup_group(r) {
                                        Some(gi) => gi,
                                        None => {
                                            proof {
                                                assert(false);
                                            }
                                            0
                                        },
                                    };
                                    let ghost g = s1.groups[gi as int];
                                    let ghost c0 = s1.clients[j as int];
                                    let ghost c_mid = ClientV { client_id: c0.client_id,
                                        peer_connection: None, group: Some(r@) };
                                    let ghost cs_mid = s1.clients.update(j as int, c_mid);
                                    let ghost g2 = GroupV { id: g.id,
                                        clients: g.clients.push(cid@) };
                                    let mut c = self.clients.remove(j);
                                    c.group = Some(clone_bytes(r));
                                    self.clients.insert(j, c);
                                    proof {
                                        assert(self@.clients =~~= cs_mid);
                                    }
                                    let mut grp = self.groups.remove(gi);
                                    grp.subscribe(clone_bytes(cid));
                                    self.groups.insert(gi, grp);
                                    proof {
                                        assert(self@.groups =~~= s1.groups.update(gi as int,
                                            g2));
                                    }
                                    let mut dirs = self.groups[gi].add_tracks(&self.clients,
                                        cid);
                                    let ghost dirs_v = dirs.deep_view();
                                    let ghost pre_app = effects.deep_view();
                                    effects.append(&mut dirs);
                                    proof {
                                        assert(effects.deep_view() =~~= pre_app + dirs_v);
                                        assert(dirs_v == relay_directives(cs_mid, g2.clients,
                                            cid@));
                                    }
                                    if parse_failed {
                                        push_effect(&mut effects, Effect::Log(
                                            ErrorKind::DescriptionParse));
                                    }
                                    let mut c = self.clients.remove(j);
                                    let mut ps = PeerSession::new(clone_bytes(cid),
                                        clone_bytes(r));
                                    let cmds = ps.process_offer(desc);
                                    c.peer_connection = Some(ps);
                                    self.clients.insert(j, c);
                                    push_engine_cmds(&mut effects, cid, cmds);
                                    proof {
                                        let ps2 = PeerSessionV {
                                            id: cid@,
                                            room: r@,
                                            state: NegotiationState::HaveRemoteOffer,
                                            tracks: Seq::<TrackV>::empty(),
                                        };
                                        let c2 = ClientV { client_id: c0.client_id,
                                            peer_connection: Some(ps2), group: Some(r@) };
                                        assert(self@.clients =~~= s1.clients.update(j as int,
                                            c2));
                                        assert(self@ =~~= step_offer(s1, cid@, env_v.room,
                                            sdp_v).0);
                                        assert(effects.deep_view() =~~= step_offer(s1, cid@,
                                            env_v.room, sdp_v).1);
                                        lemma_client_idx_unique(s1.clients, cid@, j as int);
                                        lemma_wf_after_join(s1, j as int, gi as int, r@);
                                        assert(self@.wf());
                                        assert(has_client(self@.clients, cid@)) by {
                                            lemma_client_idx_same_ids(s1.clients,
                                                self@.clients, cid@);
                                        }
                                    }
                                },
                            }
                        }
                    },
                    SdpKind::Answer => {
                        if has_session {
                            if parse_failed {
                                push_effect(&mut effects, Effect::Log(
                                    ErrorKind::DescriptionParse));
                            }
                            let mut c = self.clients.remove(j);
                            let cmds = match c.peer_connection {
                                Some(ref mut ps) => ps.process_answer(desc),
                                None => {
                                    proof {
                                        assert(false);
                                    }
                                    Vec::new()
                                },
                            };
                            self.clients.insert(j, c);
                            push_engine_cmds(&mut effects, cid, cmds);
                            proof {
                                let c0 = s1.clients[j as int];
                                let c2 = ClientV {
                                    client_id: c0.client_id,
                                    peer_connection: Some(PeerSessionV {
                                        state: NegotiationState::Stable,
                                        ..c0.peer_connection.unwrap()
                                    }),
                                    group: c0.group,
                                };
                                assert(self@.clients =~~= s1.clients.update(j as int, c2));
                                assert(self@ =~~= step_answer(s1, cid@, sdp_v).0);
                                assert(effects.deep_view() =~~= step_answer(s1, cid@,
                                    sdp_v).1);
                                lemma_wf_after_session_update(s1, j as int, c2);
                                assert(self@.wf());
                                assert(has_client(self@.clients, cid@)) by {
                                    lemma_client_idx_same_ids(s1.clients, self@.clients, cid@);
                                }
                            }
                        } else {
                            push_effect(&mut effects, Effect::Log(ErrorKind::MissingSession));
                            proof {
                                assert(self@ == step_answer(s1, cid@, sdp_v).0);
                                assert(effects.deep_view() =~~= step_answer(s1, cid@,
                                    sdp_v).1);
                            }
                        }
                    },
                }
            },
        }
        let ghost s2 = step_sdp(s1, cid@, env_v.room, env_v.sdp);
        proof {
            assert(self@ == s2.0);
            assert(effects.deep_view() == s2.1);
            assert(self@.wf());
            assert(has_client(self@.clients, cid@));
        }
        match ice {
            None => {},
            Some(copt) => {
                let j2 = match self.lookup(cid) {
                    Some(j2) => j2,
                    None => {
                        proof {
                            assert(false);
                        }
                        0
                    },
                };
                match &self.clients[j2].peer_connection {
                    Some(ps) => {
                        let cand = match copt {
                            Some(cand) => cand,
                            None => {
                                push_effect(&mut effects, Effect::Log(
                                    ErrorKind::CandidateParse));
                                Candidate::empty()
                            },
                        };
                        let cmds = ps.process_ice_candidate(cand);
                        push_engine_cmds(&mut effects, cid, cmds);
                    },
                    None => {
                        push_effect(&mut effects, Effect::Log(ErrorKind::MissingSession));
                    },
                }
            },
        }
        proof {
            assert(effects.deep_view() =~~= s2.1 + step_ice(s2.0, cid@, env_v.ice));
            assert(self@ == step_envelope(s0, cid@, env_v).0);
            assert(effects.deep_view() == step_envelope(s0, cid@, env_v).1);
        }
        effects
    }
}


/// The per-event well-formedness the host guarantees: a created answer
/// is an answer, a created offer is an offer.
pub open spec fn event_ok(ev: EngineEventV) -> bool {
    match ev {
        EngineEventV::AnswerCreated(d) => d.kind == SdpKind::Answer,
        EngineEventV::OfferCreated(d) => d.kind == SdpKind::Offer,
        _ => true,
    }
}

/// One engine event delivered to a client's session.
pub open spec fn step_event(s: ServerStateV, cid: Seq<u8>, ev: EngineEventV) -> (ServerStateV,
    Seq<EffectV>) {
    let j = client_idx(s.clients, cid);
    let c = s.clients[j];
    match ev {
        EngineEventV::AnswerCreated(d) => match c.peer_connection {
            Some(ps) => {
                let c2 = ClientV {
                    client_id: c.client_id,
                    peer_connection: Some(PeerSessionV { state: NegotiationState::Stable,
                        ..ps }),
                    group: c.group,
                };
                (ServerStateV { clients: s.clients.update(j, c2), groups: s.groups },
                    wrap_cmds(seq![EngineCmdV::SetLocalDescription(d)], cid)
                        + seq![EffectV::Send { to: cid, payload: ser_description(d) }])
            },
            None => (s, seq![EffectV::Log(ErrorKind::MissingSession)]),
        },
        EngineEventV::OfferCreated(d) => match c.peer_connection {
            Some(ps) => {
                let c2 = ClientV {
                    client_id: c.client_id,
                    peer_connection: Some(PeerSessionV {
                        state: NegotiationState::Renegotiating,
                        ..ps
                    }),
                    group: c.group,
                };
                (ServerStateV { clients: s.clients.update(j, c2), groups: s.groups },
                    wrap_cmds(seq![EngineCmdV::SetLocalDescription(d)], cid)
                        + seq![EffectV::Send { to: cid, payload: ser_description(d) }])
            },
            None => (s, seq![EffectV::Log(ErrorKind::MissingSession)]),
        },
        EngineEventV::AnswerFailed => match c.peer_connection {
            Some(ps) => {
                let gi = group_idx(s.groups, ps.room);
                let g = s.groups[gi];
                let c2 = ClientV { client_id: c.client_id, peer_connection: None, group: None };
                let g2 = GroupV { id: g.id, clients: remove_all(g.clients, c.client_id) };
                (ServerStateV { clients: s.clients.update(j, c2), groups: s.groups.update(gi,
                    g2) }, seq![EffectV::Reject(ErrorKind::NegotiationFailed)])
            },
            None => (s, seq![EffectV::Log(ErrorKind::MissingSession)]),
        },
        EngineEventV::OfferFailed => (s, seq![EffectV::Log(ErrorKind::NegotiationFailed)]),
        EngineEventV::RemoteTrack(kind) => match c.peer_connection {
            Some(ps) => {
                let t = TrackV { producer: c.client_id, kind };
                let ki = kind_idx(ps.tracks, kind);
                let ts2 = if ki >= 0 {
                    ps.tracks.update(ki, t)
                } else {
                    ps.tracks.push(t)
                };
                let c2 = ClientV {
                    client_id: c.client_id,
                    peer_connection: Some(PeerSessionV { tracks: ts2, ..ps }),
                    group: c.group,
                };
                let cs2 = s.clients.update(j, c2);
                let gi = group_idx(s.groups, ps.room);
                (ServerStateV { clients: cs2, groups: s.groups },
                    wrap_cmds(seq![EngineCmdV::StartKeepAlive(kind)], cid)
                        + notify_directives(cs2, s.groups[gi].clients, cid, t))
            },
            None => (s, seq![EffectV::Log(ErrorKind::MissingSession)]),
        },
        EngineEventV::CandidateDiscovered(cv) => match c.peer_connection {
            Some(_) => (s, seq![EffectV::Send { to: cid, payload: ser_candidate(cv) }]),
            None => (s, seq![EffectV::Log(ErrorKind::MissingSession)]),
        },
        EngineEventV::NegotiationNeeded => match c.peer_connection {
            Some(_) => (s, wrap_cmds(seq![EngineCmdV::CreateOffer], cid)),
            None => (s, seq![EffectV::Log(ErrorKind::MissingSession)]),
        },
        EngineEventV::ConnectionStateChanged(_) => (s, Seq::<EffectV>::empty()),
    }
}

/// Strikes every occurrence of one client from a room's membership.
#[verifier::loop_isolation(false)]
fn strip_group(g: &mut Group, id: &Vec<u8>)
    ensures
        final(g)@.id == old(g)@.id,
        final(g)@.clients == remove_all(old(g)@.clients, id@),
{
    let ghost ms = g@.clients;
    let mut kept: Vec<Vec<u8>> = Vec::new();
    proof {
        assert(ms.skip(0) =~= ms);
        assert(kept.deep_view() + remove_all(ms, id@) =~= remove_all(ms, id@));
    }
    let mut k: usize = 0;
    while k < g.clients.len()
        invariant
            0 <= k <= ms.len(),
            ms.len() == g.clients.len(),
            ms == g@.clients,
            kept.deep_view() + remove_all(ms.skip(k as int), id@) =~= remove_all(ms, id@),
        decreases ms.len() - k,
    {
        proof {
            assert(ms.skip(k as int)[0] == ms[k as int]);
            assert(ms.skip(k as int).drop_first() =~= ms.skip(k as int + 1));
            assert(g.clients[k as int]@ == ms[k as int]);
        }
        let ghost pre_push = kept.deep_view();
        if !bytes_eq(&g.clients[k], id) {
            kept.push(clone_bytes(&g.clients[k]));
            proof {
                assert(kept.deep_view() =~~= pre_push.push(ms[k as int]));
                assert(kept.deep_view() + remove_all(ms.skip(k as int + 1), id@) =~= pre_push
                    + (seq![ms[k as int]] + remove_all(ms.skip(k as int + 1), id@)));
            }
        }
        k += 1;
    }
    proof {
        assert(ms.skip(ms.len() as int) =~= Seq::<Seq<u8>>::empty());
        assert(kept.deep_view() =~= remove_all(ms, id@));
    }
    g.clients = kept;
    proof {
        assert(g@.clients =~~= remove_all(ms, id@));
    }
}

impl ServerState {
    /// Delivers one engine event to a client's session: created answers
    /// and offers become local descriptions and outbound messages, a new
    /// remote track is registered and fanned out to the room, discovered
    /// candidates trickle out at once, and a failed answer tears the
    /// session down.
    #[verifier::rlimit(100)]
    pub fn handle_engine_event(&mut self, cid: &Vec<u8>, event: EngineEvent)
        -> (effects: Vec<Effect>)
        requires
            old(self)@.wf(),
            has_client(old(self)@.clients, cid@),
            event_ok(event@),
        ensures
            final(self)@ == step_event(old(self)@, cid@, event@).0,
            effects.deep_view() == step_event(old(self)@, cid@, event@).1,
            final(self)@.wf(),
    {
        let ghost s0 = self@;
        let ghost ev = event@;
        let mut effects: Vec<Effect> = Vec::new();
        let j = match self.lookup(cid) {
            Some(j) => j,
            None => {
                proof {
                    assert(false);
                }
                0
            },
        };
        let has_session = self.clients[j].peer_connection.is_some();
        match event {
            EngineEvent::AnswerCreated(d) => {
                if has_session {
                    let payload = serialize_description(&d);
                    let ghost dv = d@;
                    let mut c = self.clients.remove(j);
                    let cmds = match c.peer_connection {
                        Some(ref mut ps) => ps.answer_created(d),
                        None => {
                            proof {
                                assert(false);
                            }
                            Vec::new()
                        },
                    };
                    self.clients.insert(j, c);
                    push_engine_cmds(&mut effects, cid, cmds);
                    push_effect(&mut effects, Effect::Send { to: clone_bytes(cid), payload });
                    proof {
                        let c0 = s0.clients[j as int];
                        let c2 = ClientV {
                            client_id: c0.client_id,
                            peer_connection: Some(PeerSessionV {
                                state: NegotiationState::Stable,
                                ..c0.peer_connection.unwrap()
                            }),
                            group: c0.group,
                        };
                        assert(self@.clients =~~= s0.clients.update(j as int, c2));
                        assert(self@ =~~= step_event(s0, cid@, ev).0);
                        assert(effects.deep_view() =~~= step_event(s0, cid@, ev).1);
                        lemma_wf_after_session_update(s0, j as int, c2);
                    }
                } else {
                    push_effect(&mut effects, Effect::Log(ErrorKind::MissingSession));
                }
            },
            EngineEvent::OfferCreated(d) => {
                if has_session {
                    let payload = serialize_description(&d);
                    let mut c = self.clients.remove(j);
                    let cmds = match c.peer_connection {
                        Some(ref mut ps) => ps.offer_created(d),
                        None => {
                            proof {
                                assert(false);
                            }
                            Vec::new()
                        },
                    };
                    self.clients.insert(j, c);
                    push_engine_cmds(&mut effects, cid, cmds);
                    push_effect(&mut effects, Effect::Send { to: clone_bytes(cid), payload });
                    proof {
                        let c0 = s0.clients[j as int];
                        let c2 = ClientV {
                            client_id: c0.client_id,
                            peer_connection: Some(PeerSessionV {
                                state: NegotiationState::Renegotiating,
                                ..c0.peer_connection.unwrap()
                            }),
                            group: c0.group,
                        };
                        assert(self@.clients =~~= s0.clients.update(j as int, c2));
                        assert(self@ =~~= step_event(s0, cid@, ev).0);
                        assert(effects.deep_view() =~~= step_event(s0, cid@, ev).1);
                        lemma_wf_after_session_update(s0, j as int, c2);
                    }
                } else {
                    push_effect(&mut effects, Effect::Log(ErrorKind::MissingSession));
                }
            },
            EngineEvent::AnswerFailed => {
                if has_session {
                    let mut c = self.clients.remove(j);
                    let ps = match c.peer_connection {
                        Some(ps) => ps,
                        None => {
                            proof {
                                assert(false);
                            }
                            PeerSession::new(Vec::new(), Vec::new())
                        },
                    };
                    c.peer_connection = None;
                    c.group = None;
                    self.clients.insert(j, c);
                    proof {
                        assert(s0.client_ok(s0.clients[j as int]));
                    }
                    let gi = match self.lookup_group(&ps.room) {
                        Some(gi) => gi,
                        None => {
                            proof {
                                assert(false);
                            }
                            0
                        },
                    };
                    let mut g = self.groups.remove(gi);
                    strip_group(&mut g, cid);
                    self.groups.insert(gi, g);
                    push_effect(&mut effects, Effect::Reject(ErrorKind::NegotiationFailed));
                    proof {
                        let c0 = s0.clients[j as int];
                        let c2 = ClientV { client_id: c0.client_id, peer_connection: None,
                            group: None };
                        let g0 = s0.groups[gi as int];
                        let g2 = GroupV { id: g0.id, clients: remove_all(g0.clients,
                            c0.client_id) };
                        assert(self@.clients =~~= s0.clients.update(j as int, c2));
                        assert(self@.groups =~~= s0.groups.update(gi as int, g2));
                        assert(self@ =~~= step_event(s0, cid@, ev).0);
                        assert(effects.deep_view() =~~= step_event(s0, cid@, ev).1);
                        lemma_wf_after_teardown(s0, j as int);
                    }
                } else {
                    push_effect(&mut effects, Effect::Log(ErrorKind::MissingSession));
                }
            },
            EngineEvent::OfferFailed => {
                push_effect(&mut effects, Effect::Log(ErrorKind::NegotiationFailed));
            },
            EngineEvent::RemoteTrack(kind) => {
                if has_session {
                    proof {
                        assert(s0.client_ok(s0.clients[j as int]));
                    }
                    let mut c = self.clients.remove(j);
                    let (t, room) = match c.peer_connection {
                        Some(ref mut ps) => {
                            let room = clone_bytes(&ps.room);
                            let t = ps.on_remote_track(kind);
                            (t, room)
                        },
                        None => {
                            proof {
                                assert(false);
                            }
                            (Track { producer: Vec::new(), kind }, Vec::new())
                        },
                    };
                    self.clients.insert(j, c);
                    push_effect(&mut effects, Effect::Engine { client: clone_bytes(cid),
                        cmd: EngineCmd::StartKeepAlive(kind) });
                    let gi = match self.lookup_group(&room) {
                        Some(gi) => gi,
                        None => {
                            proof {
                                assert(false);
                            }
                            0
                        },
                    };
                    let mut notif = self.groups[gi].notify_track(&self.clients, cid, &t);
                    let ghost notif_v = notif.deep_view();
                    let ghost pre_app = effects.deep_view();
                    effects.append(&mut notif);
                    proof {
                        assert(effects.deep_view() =~~= pre_app + notif_v);
                        let c0 = s0.clients[j as int];
                        let ps0 = c0.peer_connection.unwrap();
                        let tv = TrackV { producer: c0.client_id, kind };
                        let ki = kind_idx(ps0.tracks, kind);
                        let ts2 = if ki >= 0 {
                            ps0.tracks.update(ki, tv)
                        } else {
                            ps0.tracks.push(tv)
                        };
                        let c2 = ClientV {
                            client_id: c0.client_id,
                            peer_connection: Some(PeerSessionV { tracks: ts2, ..ps0 }),
                            group: c0.group,
                        };
                        assert(t@ =~~= tv);
                        assert(self@.clients =~~= s0.clients.update(j as int, c2));
                        assert(self@ =~~= step_event(s0, cid@, ev).0);
                        assert(effects.deep_view() =~~= step_event(s0, cid@, ev).1);
                        lemma_wf_after_session_update(s0, j as int, c2);
                    }
                } else {
                    push_effect(&mut effects, Effect::Log(ErrorKind::MissingSession));
                }
            },
            EngineEvent::CandidateDiscovered(cand) => {
                if has_session {
                    let payload = serialize_candidate(&cand);
                    push_effect(&mut effects, Effect::Send { to: clone_bytes(cid), payload });
                } else {
                    push_effect(&mut effects, Effect::Log(ErrorKind::MissingSession));
                }
            },
            EngineEvent::NegotiationNeeded => {
                if has_session {
                    let cmds = match &self.clients[j].peer_connection {
                        Some(ps) => ps.renegotiate(),
                        None => {
                            proof {
                                assert(false);
                            }
                            Vec::new()
                        },
                    };
                    push_engine_cmds(&mut effects, cid, cmds);
                } else {
                    push_effect(&mut effects, Effect::Log(ErrorKind::MissingSession));
                }
            },
            EngineEvent::ConnectionStateChanged(_) => {},
        }
        proof {
            assert(self@ == step_event(s0, cid@, ev).0);
            assert(effects.deep_view() =~~= step_event(s0, cid@, ev).1);
            assert(self@.wf());
        }
        effects
    }
}


/// The session a member of a room currently runs, if any.
pub open spec fn member_session(s: ServerStateV, gi: int, mi: int) -> Option<PeerSessionV> {
    let cj = client_idx(s.clients, s.groups[gi].clients[mi]);
    if cj >= 0 {
        s.clients[cj].peer_connection
    } else {
        None
    }
}

/// A member's track appears in the relay hand-over, whatever the rest of
/// the membership contributes.
proof fn lemma_relay_directives_member(cs: Seq<ClientV>, members: Seq<Seq<u8>>, to: Seq<u8>,
    mi: int, ti: int)
    requires
        0 <= mi < members.len(),
        client_idx(cs, members[mi]) >= 0,
        cs[client_idx(cs, members[mi])].peer_connection is Some,
        0 <= ti < cs[client_idx(cs, members[mi])].peer_connection.unwrap().tracks.len(),
    ensures
        relay_directives(cs, members, to).contains(EffectV::Engine {
            client: to,
            cmd: EngineCmdV::AddRelayTrack(cs[client_idx(cs,
                members[mi])].peer_connection.unwrap().tracks[ti]),
        }),
    decreases members.len(),
{
    lemma_client_idx(cs, members[mi]);
    let ts = cs[client_idx(cs, members[mi])].peer_connection.unwrap().tracks;
    let e = EffectV::Engine { client: to, cmd: EngineCmdV::AddRelayTrack(ts[ti]) };
    if mi == 0 {
        lemma_track_directives(ts, to);
        let head = member_directives(cs, members[0], to);
        assert(head[ti] == e);
        assert(relay_directives(cs, members, to)[ti] == e);
        assert(relay_directives(cs, members, to).contains(e));
    } else {
        assert(members.drop_first()[mi - 1] == members[mi]);
        lemma_relay_directives_member(cs, members.drop_first(), to, mi - 1, ti);
        let head = member_directives(cs, members[0], to);
        let rest = relay_directives(cs, members.drop_first(), to);
        let w = choose|w: int| 0 <= w < rest.len() && rest[w] == e;
        assert(relay_directives(cs, members, to)[head.len() + w] == e);
        assert(relay_directives(cs, members, to).contains(e));
    }
}

/// A client joining a room is instructed to relay every track a member
/// had already published there: the hand-over computed as part of the
/// join's offer contains an add-relay-track instruction, addressed to the
/// newcomer, for each track in each member's catalog at join time.
pub proof fn lemma_join_relays_existing_tracks(s: ServerStateV, cid: Seq<u8>, r: Seq<u8>,
    sdp: Option<Seq<u8>>, ma: int, ta: int)
    requires
        s.wf(),
        has_client(s.clients, cid),
        s.clients[client_idx(s.clients, cid)].peer_connection is None,
        has_group(s.groups, r),
        0 <= ma < s.groups[group_idx(s.groups, r)].clients.len(),
        member_session(s, group_idx(s.groups, r), ma) is Some,
        0 <= ta < member_session(s, group_idx(s.groups, r), ma).unwrap().tracks.len(),
    ensures
        step_offer(s, cid, Some(r), sdp).1.contains(EffectV::Engine {
            client: cid,
            cmd: EngineCmdV::AddRelayTrack(member_session(s, group_idx(s.groups, r),
                ma).unwrap().tracks[ta]),
        }),
{
    let j = client_idx(s.clients, cid);
    lemma_client_idx(s.clients, cid);
    let gi = group_idx(s.groups, r);
    lemma_group_idx(s.groups, r);
    let g = s.groups[gi];
    let m = g.clients[ma];
    let cj = client_idx(s.clients, m);
    lemma_client_idx(s.clients, m);
    let c = s.clients[j];
    let c_mid = ClientV { client_id: c.client_id, peer_connection: None, group: Some(r) };
    let cs_mid = s.clients.update(j, c_mid);
    let g2 = GroupV { id: g.id, clients: g.clients.push(cid) };
    // the member keeps its position, identity and session in the
    // intermediate state the hand-over is computed over
    assert(cj != j);
    lemma_client_idx_same_ids(s.clients, cs_mid, m);
    assert(cs_mid[cj] == s.clients[cj]);
    assert(g2.clients[ma] == m);
    lemma_relay_directives_member(cs_mid, g2.clients, cid, ma, ta);
    let dirs = relay_directives(cs_mid, g2.clients, cid);
    let e = EffectV::Engine {
        client: cid,
        cmd: EngineCmdV::AddRelayTrack(member_session(s, gi, ma).unwrap().tracks[ta]),
    };
    let w = choose|w: int| 0 <= w < dirs.len() && dirs[w] == e;
    assert(step_offer(s, cid, Some(r), sdp).1[w] == e);
    assert(step_offer(s, cid, Some(r), sdp).1.contains(e));
}

/// Track identities are unique within one room: if two members' sessions
/// carry tracks with the same (producing peer, media kind) identity, they
/// are the same member's same catalog entry.
pub proof fn lemma_track_ids_unique(s: ServerStateV, gi: int, ma: int, mb: int, ta: int,
    tb: int)
    requires
        s.wf(),
        0 <= gi < s.groups.len(),
        0 <= ma < s.groups[gi].clients.len(),
        0 <= mb < s.groups[gi].clients.len(),
        member_session(s, gi, ma) is Some,
        member_session(s, gi, mb) is Some,
        0 <= ta < member_session(s, gi, ma).unwrap().tracks.len(),
        0 <= tb < member_session(s, gi, mb).unwrap().tracks.len(),
        member_session(s, gi, ma).unwrap().tracks[ta].producer == member_session(s, gi,
            mb).unwrap().tracks[tb].producer,
        member_session(s, gi, ma).unwrap().tracks[ta].kind == member_session(s, gi,
            mb).unwrap().tracks[tb].kind,
    ensures
        client_idx(s.clients, s.groups[gi].clients[ma]) == client_idx(s.clients,
            s.groups[gi].clients[mb]),
        ta == tb,
{
    assert(s.member_ok(gi, ma));
    assert(s.member_ok(gi, mb));
    let ca = s.clients[client_idx(s.clients, s.groups[gi].clients[ma])];
    let cb = s.clients[client_idx(s.clients, s.groups[gi].clients[mb])];
    lemma_client_idx(s.clients, s.groups[gi].clients[ma]);
    lemma_client_idx(s.clients, s.groups[gi].clients[mb]);
    assert(s.client_ok(ca));
    assert(s.client_ok(cb));
    let psa = ca.peer_connection.unwrap();
    let psb = cb.peer_connection.unwrap();
    // a track's producer is its owning session's client
    assert(psa.tracks[ta].producer == ca.client_id);
    assert(psb.tracks[tb].producer == cb.client_id);
    let ia = client_idx(s.clients, s.groups[gi].clients[ma]);
    let ib = client_idx(s.clients, s.groups[gi].clients[mb]);
    if ia != ib {
        assert(ca.client_id != cb.client_id);
        assert(false);
    }
    // within one session, kinds are unique
    if ta != tb {
        assert(false);
    }
}


impl ServerState {
    /// One raw inbound message from a client: the envelope is parsed and
    /// dispatched. A malformed message is logged and dropped; it is never
    /// fatal, and later messages from the same client proceed normally.
    pub fn handle_message(&mut self, cid: &Vec<u8>, raw: &[u8]) -> (effects: Vec<Effect>)
        requires
            old(self)@.wf(),
            has_client(old(self)@.clients, cid@),
        ensures
            match parse_envelope_spec(raw@) {
                Some(env) => final(self)@ == step_envelope(old(self)@, cid@, env).0
                    && effects.deep_view() == step_envelope(old(self)@, cid@, env).1,
                None => final(self)@ == old(self)@ && effects.deep_view() == seq![
                    EffectV::Log(ErrorKind::ProtocolParse),
                ],
            },
            final(self)@.wf(),
    {
        match parse_envelope(raw) {
            Some(env) => self.handle_envelope(cid, env),
            None => {
                let mut effects: Vec<Effect> = Vec::new();
                push_effect(&mut effects, Effect::Log(ErrorKind::ProtocolParse));
                proof {
                    assert(effects.deep_view() =~= seq![
                        EffectV::Log(ErrorKind::ProtocolParse),
                    ]);
                }
                effects
            },
        }
    }
}

} // verus!
