use x4mp::bridge::{
    handshake_envelope, handshake_payload, interpret_handshake_reply, BridgeConfig, BridgeError,
    HandshakeReply, on_pipe_event, PipeAction, PipeEvent, BRIDGE_VERSION, MOD_VERSION,
};
use x4mp::offline_buffer::{InMemoryOfflineBuffer, OfflineBuffer};
use x4mp::proto::{Authority, EventEnvelope, HandshakeAckPayload, WsErrorFrame};
use x4mp::text::is_blank_str;
use x4mp::event_log::EventLog;
use x4mp::server::{ack_envelope, Action, Connection, Inbound};
use x4mp::session::{AppState, DEV_SESSION_ID};
use std::path::PathBuf;

fn envelope(event_type: &str, seq: u64) -> EventEnvelope {
    EventEnvelope {
        v: 1,
        event_type: event_type.into(),
        session_id: 0,
        seq,
        timestamp_sim_bits: 0,
        sender_id: 0,
        authority: Authority::Client,
        payload: "{}".into(),
    }
}

#[test]
fn config_defaults_and_overrides() {
    let c = BridgeConfig::from_env(None, None, None, None, None);
    assert_eq!(c.server_url, "ws://127.0.0.1:7878/ws");
    assert_eq!(c.display_name, "Player");
    assert_eq!(c.join_code, "ABCD-1234");
    assert_eq!(c.game_version, "7.5");
    assert_eq!(c.mods_fingerprint, "sha256:0000");
    let c = BridgeConfig::from_env(Some("ws://h/ws".into()), Some("Alice".into()), None, Some("8.0".into()), None);
    assert_eq!(c.server_url, "ws://h/ws");
    assert_eq!(c.display_name, "Alice");
    assert_eq!(c.game_version, "8.0");
}

#[test]
fn handshake_payload_and_envelope() {
    let config = BridgeConfig {
        server_url: "ws://127.0.0.1:1/ws".into(),
        display_name: "Alice".into(),
        join_code: "ABCD-1234".into(),
        game_version: "7.5".into(),
        mods_fingerprint: "sha256:0000".into(),
    };
    let p = handshake_payload(&config);
    assert_eq!(p.mod_version, MOD_VERSION);
    assert_eq!(p.bridge_version, BRIDGE_VERSION);
    assert_eq!(p.proto_version, 1);
    assert_eq!(p.display_name, "Alice");
    assert_eq!(p.join_code, "ABCD-1234");
    let e = handshake_envelope("{}".into());
    assert_eq!(e.event_type, "handshake");
    assert_eq!(e.authority, Authority::Client);
    assert_eq!((e.session_id, e.seq, e.sender_id, e.timestamp_sim_bits), (0, 0, 0, 0));
}

fn reply(text: &str) -> HandshakeReply {
    HandshakeReply {
        text: text.to_string(),
        as_error: Err("not an error frame".into()),
        as_envelope: Err("not an envelope".into()),
        as_ack: Err("not an ack".into()),
    }
}

#[test]
fn handshake_reply_error_frame() {
    let text = r#"{"type":"error","code":"INCOMPATIBLE_VERSION","message":"Protocol version mismatch."}"#;
    let mut r = reply(text);
    r.as_error = Ok(WsErrorFrame::new("INCOMPATIBLE_VERSION", "Protocol version mismatch."));
    assert_eq!(
        interpret_handshake_reply(r),
        Err(BridgeError::Server("INCOMPATIBLE_VERSION".into(), "Protocol version mismatch.".into()))
    );
    assert_eq!(
        interpret_handshake_reply(reply(r#"{"type":"error"}"#)),
        Err(BridgeError::Parse("not an error frame".into()))
    );
    // Text that is not JSON is refused with the parser's message.
    match interpret_handshake_reply(reply("bad json")) {
        Err(BridgeError::Parse(m)) => assert!(m.contains("expected"), "{m}"),
        other => panic!("expected a parse error, got {other:?}"),
    }
}

#[test]
fn handshake_reply_ack() {
    let mut r = reply(r#"{"type":"handshake.ack","payload":{}}"#);
    r.as_envelope = Ok(envelope("handshake.ack", 0));
    r.as_ack = Ok(HandshakeAckPayload { client_id: 7, session_id: 8, display_name: "Alice".into(), proto_version: 1 });
    let hs = interpret_handshake_reply(r).unwrap();
    assert_eq!((hs.client_id, hs.session_id), (7, 8));
    assert_eq!(hs.display_name, "Alice");

    let mut r = reply(r#"{"type":"session.ping"}"#);
    r.as_envelope = Ok(envelope("session.ping", 0));
    assert_eq!(interpret_handshake_reply(r), Err(BridgeError::UnexpectedType("session.ping".into())));

    // No "type" string: the reply is read as an envelope.
    let mut r = reply(r#"{"type":7}"#);
    r.as_envelope = Ok(envelope("handshake.ack", 0));
    assert_eq!(interpret_handshake_reply(r), Err(BridgeError::Parse("not an ack".into())));
    assert_eq!(interpret_handshake_reply(reply("{}")), Err(BridgeError::Parse("not an envelope".into())));
    // Only the "type" field decides whether the error frame is read.
    let mut r = reply(r#"{"kind":"error","type":"handshake.ack"}"#);
    r.as_error = Ok(WsErrorFrame::new("X", "y"));
    assert_eq!(interpret_handshake_reply(r), Err(BridgeError::Parse("not an envelope".into())));
}

#[test]
fn bridge_error_messages() {
    assert_eq!(BridgeError::Connect("refused".into()).describe(), "connect failed: refused");
    assert_eq!(BridgeError::Send("x".into()).describe(), "send failed: x");
    assert_eq!(BridgeError::Recv("x".into()).describe(), "recv failed: x");
    assert_eq!(BridgeError::Serialize("x".into()).describe(), "serialize failed: x");
    assert_eq!(BridgeError::Parse("x".into()).describe(), "parse failed: x");
    assert_eq!(BridgeError::Timeout.describe(), "timed out waiting for server reply");
    assert_eq!(BridgeError::Closed.describe(), "connection closed");
    assert_eq!(BridgeError::BinaryReply.describe(), "expected text frame");
    assert_eq!(BridgeError::UnexpectedType("t".into()).describe(), "unexpected frame type: t");
    assert_eq!(
        BridgeError::Server("INVALID_NAME".into(), "Display name is not valid.".into()).describe(),
        "server error INVALID_NAME: Display name is not valid."
    );
}

#[test]
fn offline_buffer_drains_in_fifo_order() {
    let mut buf = InMemoryOfflineBuffer::new();
    buf.push(1, envelope("a", 1));
    buf.push(2, envelope("b", 2));
    buf.push(3, envelope("c", 3));
    let out = buf.drain();
    let seqs: Vec<u64> = out.iter().map(|e| e.seq).collect();
    assert_eq!(seqs, vec![1, 2, 3]);
    assert!(buf.drain().is_empty());
    let mut d = InMemoryOfflineBuffer::default();
    d.push(9, envelope("z", 9));
    assert_eq!(d.drain().len(), 1);
}

#[test]
fn blank_pipe_lines_are_skipped() {
    assert!(is_blank_str(""));
    assert!(is_blank_str(" \t\r"));
    assert!(!is_blank_str(" {} "));
}

#[test]
fn bridge_handshake_and_echo() {
    let config = BridgeConfig {
        server_url: "ws://127.0.0.1:0/ws".into(),
        display_name: "Alice".into(),
        join_code: "ABCD-1234".into(),
        game_version: "7.5".into(),
        mods_fingerprint: "sha256:0000".into(),
    };
    let mut st = AppState::new(EventLog::new(PathBuf::from("event.log")), DEV_SESSION_ID);
    let mut conn = Connection::new();
    let hs = handshake_envelope("{}".into());
    let ack = match conn.on_inbound(
        &mut st,
        Inbound::Text { envelope: Some(hs), handshake: Some(handshake_payload(&config)) },
    ) {
        Action::SendAck(ack) => ack,
        _ => panic!("expected ack"),
    };
    let mut reply = reply(r#"{"type":"handshake.ack","payload":{}}"#);
    reply.as_envelope = Ok(ack_envelope(DEV_SESSION_ID, "{}".into()));
    reply.as_ack = Ok(ack.clone());
    let result = interpret_handshake_reply(reply).unwrap();
    assert_eq!(result.client_id, ack.client_id);
    assert_eq!(result.session_id, DEV_SESSION_ID);
    assert_eq!(result.display_name, "Alice");

    let echoed = match conn.on_inbound(
        &mut st,
        Inbound::Text { envelope: Some(envelope("session.ping", 0)), handshake: None },
    ) {
        Action::AppendAndEcho(e) => e,
        _ => panic!("expected echo"),
    };
    assert_eq!(echoed.event_type, "session.ping");
    assert!(echoed.seq >= 1);
}

#[test]
fn pipe_reads_are_skipped_forwarded_or_end_the_client() {
    assert!(matches!(on_pipe_event(PipeEvent::ReadFailed), PipeAction::Disconnect));
    assert!(matches!(on_pipe_event(PipeEvent::Received(String::new())), PipeAction::Skip));
    assert!(matches!(
        on_pipe_event(PipeEvent::Received("garbage_collected".to_string())),
        PipeAction::Disconnect
    ));
    match on_pipe_event(PipeEvent::Received("{\"type\":\"session.ping\"}".to_string())) {
        PipeAction::Forward(m) => assert_eq!(m, "{\"type\":\"session.ping\"}"),
        _ => panic!("expected forward"),
    }
    match on_pipe_event(PipeEvent::Received("garbage_collected\n".to_string())) {
        PipeAction::Forward(m) => assert_eq!(m, "garbage_collected\n"),
        _ => panic!("expected forward"),
    }
}
