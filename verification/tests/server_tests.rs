use signal_server::codec::{serialize_candidate, serialize_description};
use signal_server::server::{Effect, ErrorKind, Group, ServerState};
use signal_server::session::{EngineCmd, EngineEvent, NegotiationState, PeerSession};
use signal_server::types::{Candidate, MediaKind, SdpKind, SessionDescription};

fn id(s: &str) -> Vec<u8> {
    s.as_bytes().to_vec()
}

fn offer_msg(room: &str) -> Vec<u8> {
    format!(
        "{{\"headers\":{{\"stream-group\":\"{}\"}}, \"sdp\":{{\"type\":\"offer\", \"sdp\":\"v=0\\r\\n\"}}}}",
        room
    )
    .into_bytes()
}

fn has_send(effects: &[Effect]) -> bool {
    effects.iter().any(|e| matches!(e, Effect::Send { .. }))
}

fn engine_cmds(effects: &[Effect]) -> Vec<&EngineCmd> {
    effects
        .iter()
        .filter_map(|e| match e {
            Effect::Engine { cmd, .. } => Some(cmd),
            _ => None,
        })
        .collect()
}

#[test]
fn scenario_a_first_offer_creates_room_session_and_answer() {
    let mut s = ServerState::new();
    s.register(id("c1"));
    let effects = s.handle_message(&id("c1"), &offer_msg("room1"));

    // the room exists
    assert_eq!(s.groups.len(), 1);
    assert_eq!(s.groups[0].id, id("room1"));
    assert_eq!(s.groups[0].clients, vec![id("c1")]);
    // the session exists and saw the offer
    let c = &s.clients[0];
    let ps = c.peer_connection.as_ref().expect("session created");
    assert_eq!(ps.id, id("c1"));
    assert_eq!(ps.room, id("room1"));
    assert!(matches!(ps.state, NegotiationState::HaveRemoteOffer));
    assert_eq!(c.group, Some(id("room1")));
    // the engine is asked to take the offer and produce an answer
    let cmds = engine_cmds(&effects);
    assert!(matches!(cmds[0], EngineCmd::SetRemoteDescription(d)
        if matches!(d.kind, SdpKind::Offer) && d.sdp == b"v=0\r\n".to_vec()));
    assert!(matches!(cmds[1], EngineCmd::CreateAnswer));

    // the created answer is set locally and a serialized answer goes back
    let answer = SessionDescription { kind: SdpKind::Answer, sdp: id("v=0\r\nanswer") };
    let expected = serialize_description(&answer);
    let effects = s.handle_engine_event(&id("c1"), EngineEvent::AnswerCreated(answer));
    assert!(matches!(&effects[0], Effect::Engine { cmd: EngineCmd::SetLocalDescription(_), .. }));
    assert!(matches!(&effects[1], Effect::Send { to, payload }
        if *to == id("c1") && *payload == expected));
    assert!(matches!(s.clients[0].peer_connection.as_ref().unwrap().state,
        NegotiationState::Stable));
}

#[test]
fn scenario_b_second_client_inherits_published_tracks() {
    let mut s = ServerState::new();
    s.register(id("c1"));
    s.handle_message(&id("c1"), &offer_msg("room1"));
    // client 1 publishes an audio track
    let effects = s.handle_engine_event(&id("c1"), EngineEvent::RemoteTrack(MediaKind::Audio));
    assert!(matches!(&effects[0], Effect::Engine { cmd: EngineCmd::StartKeepAlive(MediaKind::Audio), .. }));
    // no other member yet, so no relay fan-out
    assert_eq!(effects.len(), 1);

    // client 2 joins the same room
    s.register(id("c2"));
    let effects = s.handle_message(&id("c2"), &offer_msg("room1"));
    assert_eq!(s.groups[0].clients, vec![id("c1"), id("c2")]);
    // the hand-over of client 1's track comes before the offer is processed
    let cmds = engine_cmds(&effects);
    assert_eq!(cmds.len(), 3);
    match (&effects[0], cmds[0]) {
        (Effect::Engine { client, .. }, EngineCmd::AddRelayTrack(t)) => {
            assert_eq!(*client, id("c2"));
            assert_eq!(t.producer, id("c1"));
            assert!(matches!(t.kind, MediaKind::Audio));
        },
        _ => panic!("expected the relay hand-over first"),
    }
    assert!(matches!(cmds[1], EngineCmd::SetRemoteDescription(_)));
    assert!(matches!(cmds[2], EngineCmd::CreateAnswer));
}

#[test]
fn track_fan_out_reaches_other_members_only() {
    let mut s = ServerState::new();
    s.register(id("c1"));
    s.register(id("c2"));
    s.handle_message(&id("c1"), &offer_msg("room1"));
    s.handle_message(&id("c2"), &offer_msg("room1"));
    // client 2 publishes video: only client 1 is instructed to relay it
    let effects = s.handle_engine_event(&id("c2"), EngineEvent::RemoteTrack(MediaKind::Video));
    assert!(matches!(&effects[0], Effect::Engine { cmd: EngineCmd::StartKeepAlive(_), .. }));
    assert_eq!(effects.len(), 2);
    match &effects[1] {
        Effect::Engine { client, cmd: EngineCmd::AddRelayTrack(t) } => {
            assert_eq!(*client, id("c1"));
            assert_eq!(t.producer, id("c2"));
            assert!(matches!(t.kind, MediaKind::Video));
        },
        _ => panic!("expected fan-out to the other member"),
    }
}

#[test]
fn republishing_a_kind_replaces_the_catalog_entry() {
    let mut s = ServerState::new();
    s.register(id("c1"));
    s.handle_message(&id("c1"), &offer_msg("room1"));
    s.handle_engine_event(&id("c1"), EngineEvent::RemoteTrack(MediaKind::Audio));
    s.handle_engine_event(&id("c1"), EngineEvent::RemoteTrack(MediaKind::Audio));
    s.handle_engine_event(&id("c1"), EngineEvent::RemoteTrack(MediaKind::Video));
    let ps = s.clients[0].peer_connection.as_ref().unwrap();
    assert_eq!(ps.tracks.len(), 2);
}

#[test]
fn scenario_c_candidate_before_offer_is_dropped_with_an_error() {
    let mut s = ServerState::new();
    s.register(id("c1"));
    let effects = s.handle_message(&id("c1"), br#"{"ice": {"candidate":"candidate:1"}}"#);
    assert_eq!(effects.len(), 1);
    assert!(matches!(effects[0], Effect::Log(ErrorKind::MissingSession)));
    assert!(s.clients[0].peer_connection.is_none());
    assert!(s.groups.is_empty());
    // the server stays responsive
    let effects = s.handle_message(&id("c1"), &offer_msg("room1"));
    assert!(!effects.is_empty());
}

#[test]
fn scenario_d_malformed_text_is_dropped_and_the_client_recovers() {
    let mut s = ServerState::new();
    s.register(id("c1"));
    let effects = s.handle_message(&id("c1"), b"{nonsense");
    assert_eq!(effects.len(), 1);
    assert!(matches!(effects[0], Effect::Log(ErrorKind::ProtocolParse)));
    assert!(!has_send(&effects));
    // the next, valid message is processed normally
    let effects = s.handle_message(&id("c1"), &offer_msg("room1"));
    assert!(s.clients[0].peer_connection.is_some());
    assert!(engine_cmds(&effects).len() == 2);
}

#[test]
fn offer_without_a_room_is_rejected_not_fatal() {
    let mut s = ServerState::new();
    s.register(id("c1"));
    let effects = s.handle_message(&id("c1"), br#"{"sdp":{"type":"offer","sdp":"v"}}"#);
    assert_eq!(effects.len(), 1);
    assert!(matches!(effects[0], Effect::Reject(ErrorKind::UnassignedGroup)));
    assert!(s.clients[0].peer_connection.is_none());
}

#[test]
fn answer_and_candidate_reach_an_existing_session() {
    let mut s = ServerState::new();
    s.register(id("c1"));
    s.handle_message(&id("c1"), &offer_msg("room1"));
    let effects = s.handle_message(&id("c1"),
        br#"{"sdp":{"type":"answer","sdp":"v=0\r\n"}}"#);
    let cmds = engine_cmds(&effects);
    assert!(matches!(cmds[0], EngineCmd::SetRemoteDescription(d)
        if matches!(d.kind, SdpKind::Answer)));
    assert!(matches!(s.clients[0].peer_connection.as_ref().unwrap().state,
        NegotiationState::Stable));

    let effects = s.handle_message(&id("c1"),
        br#"{"ice":{"candidate":"candidate:9","sdpMid":"0","sdpMLineIndex":0}}"#);
    let cmds = engine_cmds(&effects);
    assert!(matches!(cmds[0], EngineCmd::AddIceCandidate(c)
        if c.candidate == b"candidate:9".to_vec()));
}

#[test]
fn answer_without_session_is_logged_and_dropped() {
    let mut s = ServerState::new();
    s.register(id("c1"));
    let effects = s.handle_message(&id("c1"), br#"{"sdp":{"type":"answer","sdp":"v"}}"#);
    assert_eq!(effects.len(), 1);
    assert!(matches!(effects[0], Effect::Log(ErrorKind::MissingSession)));
}

#[test]
fn unknown_sdp_type_is_logged_and_dropped() {
    let mut s = ServerState::new();
    s.register(id("c1"));
    let effects = s.handle_message(&id("c1"), br#"{"sdp":{"type":"pranswer","sdp":"v"}}"#);
    assert_eq!(effects.len(), 1);
    assert!(matches!(effects[0], Effect::Log(ErrorKind::UnrecognizedType)));
}

#[test]
fn malformed_parts_fall_back_with_a_note() {
    let mut s = ServerState::new();
    s.register(id("c1"));
    s.handle_message(&id("c1"), &offer_msg("room1"));
    // an offer whose description text is missing gets an empty substitute
    let effects = s.handle_message(&id("c1"), br#"{"sdp":{"type":"offer"}}"#);
    assert!(matches!(effects[0], Effect::Log(ErrorKind::DescriptionParse)));
    let cmds = engine_cmds(&effects);
    assert!(matches!(cmds[0], EngineCmd::SetRemoteDescription(d) if d.sdp.is_empty()));
    // a malformed candidate object gets the default substitute
    let effects = s.handle_message(&id("c1"), br#"{"ice":{"candidate":5}}"#);
    assert!(matches!(effects[0], Effect::Log(ErrorKind::CandidateParse)));
    let cmds = engine_cmds(&effects);
    assert!(matches!(cmds[0], EngineCmd::AddIceCandidate(c) if c.candidate.is_empty()));
}

#[test]
fn renegotiation_offer_does_not_resubscribe() {
    let mut s = ServerState::new();
    s.register(id("c1"));
    s.handle_message(&id("c1"), &offer_msg("room1"));
    assert_eq!(s.groups[0].clients.len(), 1);
    let effects = s.handle_message(&id("c1"), &offer_msg("room1"));
    assert_eq!(s.groups[0].clients.len(), 1);
    let cmds = engine_cmds(&effects);
    assert_eq!(cmds.len(), 2);
    assert!(matches!(cmds[1], EngineCmd::CreateAnswer));
}

#[test]
fn engine_triggered_renegotiation_sends_the_offer() {
    let mut s = ServerState::new();
    s.register(id("c1"));
    s.handle_message(&id("c1"), &offer_msg("room1"));
    let effects = s.handle_engine_event(&id("c1"), EngineEvent::NegotiationNeeded);
    assert!(matches!(&effects[0], Effect::Engine { cmd: EngineCmd::CreateOffer, .. }));

    let offer = SessionDescription { kind: SdpKind::Offer, sdp: id("v=0\r\nreneg") };
    let expected = serialize_description(&offer);
    let effects = s.handle_engine_event(&id("c1"), EngineEvent::OfferCreated(offer));
    assert!(matches!(&effects[0], Effect::Engine { cmd: EngineCmd::SetLocalDescription(_), .. }));
    assert!(matches!(&effects[1], Effect::Send { payload, .. } if *payload == expected));
    assert!(matches!(s.clients[0].peer_connection.as_ref().unwrap().state,
        NegotiationState::Renegotiating));
}

#[test]
fn discovered_candidates_trickle_out_immediately() {
    let mut s = ServerState::new();
    s.register(id("c1"));
    s.handle_message(&id("c1"), &offer_msg("room1"));
    let cand = Candidate {
        candidate: id("candidate:7 1 UDP 1 192.0.2.9 9 typ host"),
        sdp_mid: Some(id("0")),
        sdp_mline_index: Some(0),
        username_fragment: None,
    };
    let expected = serialize_candidate(&cand);
    let effects = s.handle_engine_event(&id("c1"), EngineEvent::CandidateDiscovered(cand));
    assert_eq!(effects.len(), 1);
    assert!(matches!(&effects[0], Effect::Send { to, payload }
        if *to == id("c1") && *payload == expected));
}

#[test]
fn answer_failure_tears_down_only_that_session() {
    let mut s = ServerState::new();
    s.register(id("c1"));
    s.register(id("c2"));
    s.handle_message(&id("c1"), &offer_msg("room1"));
    s.handle_message(&id("c2"), &offer_msg("room1"));
    let effects = s.handle_engine_event(&id("c1"), EngineEvent::AnswerFailed);
    assert!(matches!(effects[0], Effect::Reject(ErrorKind::NegotiationFailed)));
    assert!(s.clients[0].peer_connection.is_none());
    assert!(s.clients[0].group.is_none());
    assert_eq!(s.groups[0].clients, vec![id("c2")]);
    // the other session is untouched
    assert!(s.clients[1].peer_connection.is_some());
}

#[test]
fn unregister_removes_client_and_membership_together() {
    let mut s = ServerState::new();
    s.register(id("c1"));
    s.register(id("c2"));
    s.handle_message(&id("c1"), &offer_msg("room1"));
    s.handle_message(&id("c2"), &offer_msg("room1"));
    assert_eq!(s.groups[0].clients.len(), 2);

    s.unregister(&id("c1"));
    assert!(s.lookup(&id("c1")).is_none());
    assert_eq!(s.groups[0].clients, vec![id("c2")]);
    assert_eq!(s.clients.len(), 1);
    assert_eq!(s.clients[0].client_id, id("c2"));

    // removing an unknown identity is a no-op
    s.unregister(&id("zz"));
    assert_eq!(s.clients.len(), 1);
}

#[test]
fn rooms_are_created_once_and_kept() {
    let mut s = ServerState::new();
    s.register(id("c1"));
    s.register(id("c2"));
    s.handle_message(&id("c1"), &offer_msg("roomX"));
    s.handle_message(&id("c2"), &offer_msg("roomX"));
    assert_eq!(s.groups.len(), 1);
    // a bare header also creates a room, even with nothing else inside
    s.handle_message(&id("c1"), br#"{"headers":{"stream-group":"roomY"}}"#);
    assert_eq!(s.groups.len(), 2);
    // groups are never destroyed, even when all members leave
    s.unregister(&id("c1"));
    s.unregister(&id("c2"));
    assert_eq!(s.groups.len(), 2);
}

#[test]
fn duplicate_subscription_is_tolerated() {
    let mut g = Group::new(id("r"));
    g.subscribe(id("c1"));
    g.subscribe(id("c1"));
    assert_eq!(g.clients, vec![id("c1"), id("c1")]);
}

#[test]
fn session_accessors_expose_identity_and_catalog() {
    let ps = PeerSession::new(id("c9"), id("r9"));
    assert_eq!(*ps.get_id(), id("c9"));
    assert!(ps.get_tracks().is_empty());
    assert!(matches!(ps.state, NegotiationState::NoRemoteDescription));
}

#[test]
fn attaching_a_remote_track_is_one_engine_command() {
    let ps = PeerSession::new(id("c9"), id("r9"));
    let t = signal_server::types::Track { producer: id("c8"), kind: MediaKind::Video };
    let cmds = ps.add_remote_track(&t);
    assert_eq!(cmds.len(), 1);
    assert!(matches!(&cmds[0], EngineCmd::AddRelayTrack(t2)
        if t2.producer == id("c8") && matches!(t2.kind, MediaKind::Video)));
    // the catalog holds locally produced tracks only
    assert!(ps.get_tracks().is_empty());
}

#[test]
fn connection_state_changes_are_observed_only() {
    let mut s = ServerState::new();
    s.register(id("c1"));
    s.handle_message(&id("c1"), &offer_msg("room1"));
    let effects = s.handle_engine_event(&id("c1"),
        EngineEvent::ConnectionStateChanged(signal_server::session::ConnState::Failed));
    assert!(effects.is_empty());
    assert!(s.clients[0].peer_connection.is_some());
}
