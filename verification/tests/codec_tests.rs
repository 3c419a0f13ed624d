use signal_server::codec::{parse_candidate, parse_envelope, serialize_candidate,
    serialize_description};
use signal_server::types::{Candidate, Envelope, SdpKind, SdpPart, SessionDescription};

fn desc(kind: SdpKind, sdp: &str) -> SessionDescription {
    SessionDescription { kind, sdp: sdp.as_bytes().to_vec() }
}

#[test]
fn description_wire_form_is_exact() {
    let d = desc(SdpKind::Answer, "v=0\r\no=x");
    let out = serialize_description(&d);
    assert_eq!(out, b"{\"sdp\":{\"type\":\"answer\",\"sdp\":\"v=0\\r\\no=x\"}}".to_vec());

    let d = desc(SdpKind::Offer, "a\"b\\c");
    let out = serialize_description(&d);
    assert_eq!(out, b"{\"sdp\":{\"type\":\"offer\",\"sdp\":\"a\\\"b\\\\c\"}}".to_vec());
}

#[test]
fn candidate_wire_form_is_exact() {
    let c = Candidate {
        candidate: b"candidate:1 1 UDP 2122 192.0.2.1 54400 typ host".to_vec(),
        sdp_mid: Some(b"0".to_vec()),
        sdp_mline_index: Some(0),
        username_fragment: None,
    };
    let out = serialize_candidate(&c);
    assert_eq!(out,
        b"{\"candidate\":\"candidate:1 1 UDP 2122 192.0.2.1 54400 typ host\",\"sdpMid\":\"0\",\"sdpMLineIndex\":0,\"usernameFragment\":null}"
            .to_vec());
}

#[test]
fn candidate_round_trips() {
    let c = Candidate {
        candidate: b"candidate:842163049 1 udp 1677729535 1.2.3.4 46154 typ srflx".to_vec(),
        sdp_mid: Some(b"audio".to_vec()),
        sdp_mline_index: Some(1),
        username_fragment: Some(b"abcd".to_vec()),
    };
    let out = serialize_candidate(&c);
    let back = parse_candidate(&out).expect("wire form parses").expect("candidate kept");
    assert_eq!(back.candidate, c.candidate);
    assert_eq!(back.sdp_mid, c.sdp_mid);
    assert_eq!(back.sdp_mline_index, c.sdp_mline_index);
    assert_eq!(back.username_fragment, c.username_fragment);
}

#[test]
fn candidate_with_null_fields_round_trips() {
    let c = Candidate {
        candidate: b"candidate:0 1 UDP 1 10.0.0.1 9 typ host".to_vec(),
        sdp_mid: None,
        sdp_mline_index: None,
        username_fragment: None,
    };
    let out = serialize_candidate(&c);
    let back = parse_candidate(&out).unwrap().unwrap();
    assert_eq!(back.candidate, c.candidate);
    assert_eq!(back.sdp_mid, None);
    assert_eq!(back.sdp_mline_index, None);
    assert_eq!(back.username_fragment, None);
}

#[test]
fn description_round_trips_through_the_envelope() {
    let d = desc(SdpKind::Offer, "v=0\r\ns=-\r\nt=0 0\r\n");
    let out = serialize_description(&d);
    let env = parse_envelope(&out).expect("server output is a valid envelope");
    assert!(env.room.is_none());
    assert!(env.ice.is_none());
    match env.sdp {
        Some(SdpPart::Desc(SdpKind::Offer, Some(text))) => {
            assert_eq!(text, d.sdp);
        },
        _ => panic!("offer did not survive the round trip"),
    }
}

#[test]
fn serde_accepts_the_serialized_forms() {
    let d = desc(SdpKind::Answer, "v=0\r\nm=audio 9 UDP/TLS/RTP/SAVPF 111\r\n");
    let out = serialize_description(&d);
    let v: serde_json::Value = serde_json::from_slice(&out).expect("valid to serde");
    assert_eq!(v["sdp"]["type"], "answer");
    assert_eq!(v["sdp"]["sdp"], "v=0\r\nm=audio 9 UDP/TLS/RTP/SAVPF 111\r\n");

    let c = Candidate {
        candidate: b"candidate:1 1 UDP 2 9.9.9.9 1 typ host".to_vec(),
        sdp_mid: Some(b"0".to_vec()),
        sdp_mline_index: Some(0),
        username_fragment: None,
    };
    let out = serialize_candidate(&c);
    let v: serde_json::Value = serde_json::from_slice(&out).expect("valid to serde");
    assert_eq!(v["candidate"], "candidate:1 1 UDP 2 9.9.9.9 1 typ host");
    assert_eq!(v["sdpMid"], "0");
    assert_eq!(v["sdpMLineIndex"], 0);
    assert!(v["usernameFragment"].is_null());
}

#[test]
fn envelope_parses_serde_built_text() {
    let mut headers = serde_json::Map::new();
    headers.insert("stream-group".to_string(), serde_json::Value::String("room1".into()));
    let mut sdp = serde_json::Map::new();
    sdp.insert("type".to_string(), serde_json::Value::String("offer".into()));
    sdp.insert("sdp".to_string(), serde_json::Value::String("v=0\r\n".into()));
    let mut top = serde_json::Map::new();
    top.insert("headers".to_string(), serde_json::Value::Object(headers));
    top.insert("sdp".to_string(), serde_json::Value::Object(sdp));
    let text = serde_json::to_string(&serde_json::Value::Object(top)).unwrap();
    let env = parse_envelope(text.as_bytes()).expect("parses");
    assert_eq!(env.room, Some(b"room1".to_vec()));
    match env.sdp {
        Some(SdpPart::Desc(SdpKind::Offer, Some(text))) => assert_eq!(text, b"v=0\r\n".to_vec()),
        _ => panic!("wrong sdp part"),
    }
}

#[test]
fn envelope_tolerates_whitespace_order_and_unknown_fields() {
    let raw = b" { \"extra\" : { \"deep\" : { \"x\" : null } } , \"sdp\" : { \"sdp\" : \"s\" , \"type\" : \"answer\" } , \"headers\" : { \"other\" : 7 , \"stream-group\" : \"r\" } } ";
    let env = parse_envelope(raw).expect("parses");
    assert_eq!(env.room, Some(b"r".to_vec()));
    match env.sdp {
        Some(SdpPart::Desc(SdpKind::Answer, Some(text))) => assert_eq!(text, b"s".to_vec()),
        _ => panic!("wrong sdp part"),
    }
}

#[test]
fn envelope_reads_escapes_and_numbers() {
    let raw = br#"{"ice":{"candidate":"a\"b\\c\/d\ne","sdpMid":null,"sdpMLineIndex":12345,"usernameFragment":"u"}}"#;
    let env = parse_envelope(raw).expect("parses");
    let cand = env.ice.expect("ice present").expect("well formed");
    assert_eq!(cand.candidate, b"a\"b\\c/d\ne".to_vec());
    assert_eq!(cand.sdp_mid, None);
    assert_eq!(cand.sdp_mline_index, Some(12345));
    assert_eq!(cand.username_fragment, Some(b"u".to_vec()));
}

#[test]
fn malformed_ice_object_is_kept_as_malformed() {
    // a candidate that is not a string fails the candidate shape, and the
    // dispatcher substitutes the default downstream
    let raw = br#"{"ice":{"candidate":42}}"#;
    let env = parse_envelope(raw).expect("the envelope itself is fine");
    assert!(matches!(env.ice, Some(None)));
    // a non-object ice part likewise
    let raw = br#"{"ice":"text"}"#;
    let env = parse_envelope(raw).expect("parses");
    assert!(matches!(env.ice, Some(None)));
}

#[test]
fn sdp_without_type_is_invalid_not_fatal() {
    let raw = br#"{"sdp":{"sdp":"x"}}"#;
    let env = parse_envelope(raw).expect("parses");
    assert!(matches!(env.sdp, Some(SdpPart::Invalid)));
    let raw = br#"{"sdp":{"type":"rollback","sdp":"x"}}"#;
    let env = parse_envelope(raw).expect("parses");
    assert!(matches!(env.sdp, Some(SdpPart::Invalid)));
    let raw = br#"{"sdp":{"type":7}}"#;
    let env = parse_envelope(raw).expect("parses");
    assert!(matches!(env.sdp, Some(SdpPart::Invalid)));
}

#[test]
fn offer_with_missing_sdp_text_keeps_the_kind() {
    let raw = br#"{"sdp":{"type":"offer"}}"#;
    let env = parse_envelope(raw).expect("parses");
    assert!(matches!(env.sdp, Some(SdpPart::Desc(SdpKind::Offer, None))));
}

#[test]
fn malformed_wire_text_is_rejected() {
    assert!(parse_envelope(b"not json").is_none());
    assert!(parse_envelope(b"{\"a\":").is_none());
    assert!(parse_envelope(b"{\"a\":\"unterminated}").is_none());
    assert!(parse_envelope(b"[1,2]").is_none());
    assert!(parse_envelope(b"{\"a\":1} trailing").is_none());
    assert!(parse_envelope(b"{\"a\":\"\\u0041\"}").is_none());
    assert!(parse_envelope(b"{\"headers\":{\"stream-group\":3}}").is_none());
    assert!(parse_envelope(b"").is_none());
}

#[test]
fn empty_envelope_parses() {
    let env = parse_envelope(b" {} ").expect("parses");
    assert!(env.room.is_none() && env.sdp.is_none() && env.ice.is_none());
    let env: Envelope = parse_envelope(b"{\"headers\":{}}").expect("parses");
    assert!(env.room.is_none());
}
