use std::path::PathBuf;

use x4mp::event_log::{frame_line, last_line, EventLog, EVENT_LOG_TAIL_LIMIT};
use x4mp::proto::{Authority, EventEnvelope, HandshakePayload, PROTO_VERSION};
use x4mp::server::{
    ack_envelope, handshake_outcome, process_handshake, Action, Connection, HandshakeResult,
    Inbound,
};
use x4mp::session::{AppState, DEV_JOIN_CODE, DEV_SESSION_ID};

fn payload(proto_version: u32, join_code: &str, game_version: &str, name: &str) -> HandshakePayload {
    HandshakePayload {
        mod_version: "0.1.0".into(),
        proto_version,
        bridge_version: "0.1.0".into(),
        game_version: game_version.into(),
        mods_fingerprint: "sha256:0000".into(),
        join_code: join_code.into(),
        display_name: name.into(),
    }
}

fn envelope(event_type: &str) -> EventEnvelope {
    EventEnvelope {
        v: 1,
        event_type: event_type.into(),
        session_id: 1,
        seq: 0,
        timestamp_sim_bits: 0,
        sender_id: 2,
        authority: Authority::Client,
        payload: "{}".into(),
    }
}

fn state() -> AppState {
    AppState::new(EventLog::new(PathBuf::from("data/sessions/x/event.log")), DEV_SESSION_ID)
}

fn rejected_code(r: HandshakeResult) -> String {
    match r {
        HandshakeResult::Rejected { err } => err.code,
        HandshakeResult::Accepted { .. } => panic!("accepted"),
    }
}

#[test]
fn handshake_rejections_in_order() {
    let s = DEV_SESSION_ID;
    assert_eq!(rejected_code(handshake_outcome(&None, s, 9)), "INVALID_HANDSHAKE");
    assert_eq!(
        rejected_code(handshake_outcome(&Some(payload(99, "nope", "", "")), s, 9)),
        "INCOMPATIBLE_VERSION"
    );
    assert_eq!(
        rejected_code(handshake_outcome(&Some(payload(1, "nope", "", "")), s, 9)),
        "INVALID_JOIN_CODE"
    );
    assert_eq!(
        rejected_code(handshake_outcome(&Some(payload(1, DEV_JOIN_CODE, "", "")), s, 9)),
        "INCOMPATIBLE_GAME_VERSION"
    );
    assert_eq!(
        rejected_code(handshake_outcome(&Some(payload(1, DEV_JOIN_CODE, "7.5", "  ")), s, 9)),
        "INVALID_NAME"
    );
}

#[test]
fn handshake_accepts_and_normalizes_name() {
    match handshake_outcome(&Some(payload(1, "ABCD-1234", "7.5", " Alice  B ")), 5, 77) {
        HandshakeResult::Accepted { ack, assigned_client_id } => {
            assert_eq!(assigned_client_id, 77);
            assert_eq!(ack.client_id, 77);
            assert_eq!(ack.session_id, 5);
            assert_eq!(ack.display_name, "Alice B");
            assert_eq!(ack.proto_version, PROTO_VERSION);
        }
        HandshakeResult::Rejected { err } => panic!("rejected {:?}", err),
    }
}

#[test]
fn process_handshake_assigns_random_v4_ids() {
    let st = state();
    let p = Some(payload(1, "ABCD-1234", "7.5", "Alice"));
    let id1 = match process_handshake(&p, &st) {
        HandshakeResult::Accepted { ack, assigned_client_id } => {
            assert_eq!(ack.client_id, assigned_client_id);
            assert_eq!(ack.session_id, DEV_SESSION_ID);
            assigned_client_id
        }
        _ => panic!("rejected"),
    };
    let id2 = match process_handshake(&p, &st) {
        HandshakeResult::Accepted { assigned_client_id, .. } => assigned_client_id,
        _ => panic!("rejected"),
    };
    assert_ne!(id1, 0);
    assert_ne!(id1, id2);
    assert_eq!((id1 >> 76) & 0xF, 4);
}

#[test]
fn ack_envelope_fields() {
    let e = ack_envelope(DEV_SESSION_ID, "{\"x\":1}".into());
    assert_eq!(e.v, 1);
    assert_eq!(e.event_type, "handshake.ack");
    assert_eq!(e.session_id, DEV_SESSION_ID);
    assert_eq!(e.seq, 0);
    assert_eq!(e.sender_id, 0);
    assert_eq!(e.authority, Authority::Server);
    assert_eq!(e.payload, "{\"x\":1}");
}

#[test]
fn next_seq_is_strictly_increasing_from_one() {
    let mut st = state();
    assert_eq!(st.next_seq(), 1);
    assert_eq!(st.next_seq(), 2);
    assert_eq!(st.next_seq(), 3);
}

fn text(env: EventEnvelope, hs: Option<HandshakePayload>) -> Inbound {
    Inbound::Text { envelope: Some(env), handshake: hs }
}

#[test]
fn connection_requires_handshake_first() {
    let mut st = state();
    let mut c = Connection::new();
    match c.on_inbound(&mut st, text(envelope("session.ping"), None)) {
        Action::SendErrorAndStop(err) => assert_eq!(err.code, "HANDSHAKE_REQUIRED"),
        _ => panic!("expected error"),
    }
    assert!(!c.handshaken);
    match c.on_inbound(&mut st, Inbound::Text { envelope: None, handshake: None }) {
        Action::SendErrorAndStop(err) => assert_eq!(err.code, "INVALID_JSON"),
        _ => panic!("expected error"),
    }
}

#[test]
fn ws_rejects_incompatible_proto_version() {
    let mut st = state();
    let mut c = Connection::new();
    match c.on_inbound(&mut st, text(envelope("handshake"), Some(payload(99, "ABCD-1234", "7.5", "Alice")))) {
        Action::RejectAndStop { err, recent_events } => {
            assert_eq!(err.frame_type, "error");
            assert_eq!(err.code, "INCOMPATIBLE_VERSION");
            assert!(recent_events.is_empty());
        }
        _ => panic!("expected rejection"),
    }
    assert!(!c.handshaken);
    assert_eq!(st.seq, 0);
}

#[test]
fn two_clients_receive_monotonic_seq() {
    let mut st = state();
    let mut a = Connection::new();
    let mut b = Connection::new();
    let hs = Some(payload(1, "ABCD-1234", "7.5", "Alice"));
    let id_a = match a.on_inbound(&mut st, text(envelope("handshake"), hs.clone())) {
        Action::SendAck(ack) => ack.client_id,
        _ => panic!("expected ack"),
    };
    assert!(matches!(b.on_inbound(&mut st, text(envelope("handshake"), hs)), Action::SendAck(_)));
    let seq_a = match a.on_inbound(&mut st, text(envelope("session.ping"), None)) {
        Action::AppendAndEcho(e) => {
            assert_eq!(e.event_type, "session.ping");
            assert_eq!(e.session_id, DEV_SESSION_ID);
            assert_eq!(e.sender_id, id_a);
            e.seq
        }
        _ => panic!("expected echo"),
    };
    let seq_b = match b.on_inbound(&mut st, text(envelope("session.ping"), None)) {
        Action::AppendAndEcho(e) => e.seq,
        _ => panic!("expected echo"),
    };
    assert!(seq_a >= 1);
    assert!(seq_b > seq_a);
    assert!(matches!(a.on_inbound(&mut st, Inbound::NonText), Action::Continue));
    assert!(matches!(a.on_inbound(&mut st, Inbound::Close), Action::Stop));
    assert!(matches!(a.on_inbound(&mut st, Inbound::ReadError), Action::Stop));
}

#[test]
fn recent_events_keep_the_last_200() {
    let mut st = state();
    let mut c = Connection::new();
    let hs = Some(payload(1, "ABCD-1234", "7.5", "Alice"));
    c.on_inbound(&mut st, text(envelope("handshake"), hs));
    for _ in 0..205 {
        c.on_inbound(&mut st, text(envelope("session.ping"), None));
    }
    assert_eq!(c.recent_events.len(), EVENT_LOG_TAIL_LIMIT);
    assert_eq!(c.recent_events[0].seq, 6);
    assert_eq!(c.recent_events[199].seq, 205);
}

#[test]
fn event_log_keeps_its_path() {
    let log = EventLog::new(PathBuf::from("data/sessions/abc/event.log"));
    assert_eq!(log.path(), std::path::Path::new("data/sessions/abc/event.log"));
    assert_eq!(log.path(), &PathBuf::from("data/sessions/abc/event.log"));
}

#[test]
fn ws_handshake_assigns_client_id() {
    let mut st = state();
    let mut c = Connection::new();
    let hs = Some(payload(1, "ABCD-1234", "7.5", "Alice"));
    match c.on_inbound(&mut st, text(envelope("handshake"), hs)) {
        Action::SendAck(ack) => {
            assert_ne!(ack.client_id, 0);
            assert_eq!(ack.client_id, c.client_id);
            let env = ack_envelope(st.session_id, "{}".into());
            assert_eq!(env.event_type, "handshake.ack");
        }
        _ => panic!("expected ack"),
    }
    assert!(c.handshaken);
}

#[test]
fn ws_echoes_envelope_with_seq() {
    let mut st = state();
    let mut c = Connection::new();
    let hs = Some(payload(1, "ABCD-1234", "7.5", "Alice"));
    c.on_inbound(&mut st, text(envelope("handshake"), hs));
    let echoed = match c.on_inbound(&mut st, text(envelope("session.ping"), None)) {
        Action::AppendAndEcho(e) => e,
        _ => panic!("expected echo"),
    };
    assert_eq!(echoed.event_type, "session.ping");
    assert!(echoed.seq >= 1);
    // The logged line is the one read back last.
    let line = format!("{{\"seq\":{}}}", echoed.seq);
    let content = frame_line(&line);
    let logged: serde_json::Value = serde_json::from_str(&last_line(&content).unwrap()).unwrap();
    assert_eq!(logged["seq"].as_u64().unwrap(), echoed.seq);
}

#[test]
fn handshake_rejects_non_printable_name() {
    assert_eq!(
        rejected_code(handshake_outcome(&Some(payload(1, DEV_JOIN_CODE, "7.5", "Al\u{7}ice")), 1, 9)),
        "INVALID_NAME"
    );
}

#[test]
fn interleaved_connections_get_increasing_distinct_seqs() {
    let mut st = state();
    let mut conns = vec![Connection::new(), Connection::new(), Connection::new()];
    for c in conns.iter_mut() {
        let hs = Some(payload(1, "ABCD-1234", "7.5", "Alice"));
        assert!(matches!(c.on_inbound(&mut st, text(envelope("handshake"), hs)), Action::SendAck(_)));
    }
    assert_eq!(st.seq, 0);
    let order = [2usize, 0, 0, 1, 2, 1, 0];
    let mut seen = Vec::new();
    for &i in order.iter() {
        match conns[i].on_inbound(&mut st, text(envelope("session.ping"), None)) {
            Action::AppendAndEcho(e) => seen.push(e.seq),
            _ => panic!("expected echo"),
        }
        assert!(matches!(conns[i].on_inbound(&mut st, Inbound::NonText), Action::Continue));
    }
    assert_eq!(seen, vec![1, 2, 3, 4, 5, 6, 7]);
    assert_eq!(st.seq, 7);
}
