//! The bridge's side of the handshake: its configuration, the handshake it
//! sends, and how it reads the server's reply.
use vstd::prelude::*;

use crate::proto::{Authority, EventEnvelope, HandshakeAckPayload, HandshakePayload, WsErrorFrame, PROTO_VERSION};
use crate::json::{field_str, json_field_str, json_parse_error, json_parses};
use crate::text::{concat2, eq_str, push_str, string_of};

verus! {

/// Version of the bridge (the crate version).
pub const BRIDGE_VERSION: &'static str = "0.1.0";

/// Version of the game extension the bridge serves.
pub const MOD_VERSION: &'static str = "0.1.0";

/// Bridge settings: where the server is and what the handshake says.
#[derive(Clone, Debug, PartialEq, Eq)]
pub struct BridgeConfig {
    pub server_url: String,
    pub display_name: String,
    pub join_code: String,
    pub game_version: String,
    pub mods_fingerprint: String,
}

/// The value of a setting, or its default when it is not set.
pub open spec fn setting_or(v: Option<String>, default: Seq<char>) -> Seq<char> {
    match v {
        Some(s) => s@,
        None => default,
    }
}

/// A setting that is given is used as it is, whatever its length or text;
/// only a missing one takes the default.
pub proof fn lemma_given_setting_used(v: Option<String>, default: Seq<char>)
    ensures
        v matches Some(s) ==> setting_or(v, default) == s@,
        v is None ==> setting_or(v, default) == default,
{
}

fn value_or(v: Option<String>, default: &str) -> (r: String)
    ensures
        r@ == setting_or(v, default@),
        v matches Some(s) ==> r == s,
{
    match v {
        Some(s) => s,
        None => string_of(default),
    }
}

impl BridgeConfig {
    /// The configuration from the values of `X4MP_SERVER_URL`,
    /// `X4MP_DISPLAY_NAME`, `X4MP_JOIN_CODE`, `X4MP_GAME_VERSION` and
    /// `X4MP_MODS_FINGERPRINT` (`None` when unset), with the development defaults.
    pub fn from_env(
        server_url: Option<String>,
        display_name: Option<String>,
        join_code: Option<String>,
        game_version: Option<String>,
        mods_fingerprint: Option<String>,
    ) -> (r: Self)
        ensures
            r.server_url@ == setting_or(server_url, "ws://127.0.0.1:7878/ws"@),
            r.display_name@ == setting_or(display_name, "Player"@),
            r.join_code@ == setting_or(join_code, "ABCD-1234"@),
            r.game_version@ == setting_or(game_version, "7.5"@),
            r.mods_fingerprint@ == setting_or(mods_fingerprint, "sha256:0000"@),
            server_url matches Some(s) ==> r.server_url == s,
            display_name matches Some(s) ==> r.display_name == s,
            join_code matches Some(s) ==> r.join_code == s,
            game_version matches Some(s) ==> r.game_version == s,
            mods_fingerprint matches Some(s) ==> r.mods_fingerprint == s,
    {
        BridgeConfig {
            server_url: value_or(server_url, "ws://127.0.0.1:7878/ws"),
            display_name: value_or(display_name, "Player"),
            join_code: value_or(join_code, "ABCD-1234"),
            game_version: value_or(game_version, "7.5"),
            mods_fingerprint: value_or(mods_fingerprint, "sha256:0000"),
        }
    }
}

/// A successful handshake: the ids the server assigned and the confirmed name.
#[derive(Clone, Debug, PartialEq, Eq)]
pub struct HandshakeResult {
    pub client_id: u128,
    pub session_id: u128,
    pub display_name: String,
}

#[derive(Clone, Debug, PartialEq, Eq)]
pub enum BridgeError {
    Connect(String),
    Send(String),
    Recv(String),
    Serialize(String),
    Parse(String),
    Timeout,
    Closed,
    BinaryReply,
    UnexpectedType(String),
    Server(String, String),
}

impl BridgeError {
    /// The message shown for the error.
    pub fn describe(&self) -> (r: String)
        ensures
            r@ == match *self {
                BridgeError::Connect(m) => "connect failed: "@ + m@,
                BridgeError::Send(m) => "send failed: "@ + m@,
                BridgeError::Recv(m) => "recv failed: "@ + m@,
                BridgeError::Serialize(m) => "serialize failed: "@ + m@,
                BridgeError::Parse(m) => "parse failed: "@ + m@,
                BridgeError::Timeout => "timed out waiting for server reply"@,
                BridgeError::Closed => "connection closed"@,
                BridgeError::BinaryReply => "expected text frame"@,
                BridgeError::UnexpectedType(t) => "unexpected frame type: "@ + t@,
                BridgeError::Server(code, msg) => "server error "@ + code@ + ": "@ + msg@,
            },
    {
        match self {
            BridgeError::Connect(m) => concat2("connect failed: ", m.as_str()),
            BridgeError::Send(m) => concat2("send failed: ", m.as_str()),
            BridgeError::Recv(m) => concat2("recv failed: ", m.as_str()),
            BridgeError::Serialize(m) => concat2("serialize failed: ", m.as_str()),
            BridgeError::Parse(m) => concat2("parse failed: ", m.as_str()),
            BridgeError::Timeout => string_of("timed out waiting for server reply"),
            BridgeError::Closed => string_of("connection closed"),
            BridgeError::BinaryReply => string_of("expected text frame"),
            BridgeError::UnexpectedType(t) => concat2("unexpected frame type: ", t.as_str()),
            BridgeError::Server(code, msg) => {
                let mut r = concat2("server error ", code.as_str());
                push_str(&mut r, ": ");
                push_str(&mut r, msg.as_str());
                r
            },
        }
    }
}

/// The handshake payload the bridge sends for its configuration.
pub fn handshake_payload(config: &BridgeConfig) -> (r: HandshakePayload)
    ensures
        r.mod_version@ == MOD_VERSION@,
        r.proto_version == PROTO_VERSION,
        r.bridge_version@ == BRIDGE_VERSION@,
        r.game_version == config.game_version,
        r.mods_fingerprint == config.mods_fingerprint,
        r.join_code == config.join_code,
        r.display_name == config.display_name,
{
    HandshakePayload {
        mod_version: string_of(MOD_VERSION),
        proto_version: PROTO_VERSION,
        bridge_version: string_of(BRIDGE_VERSION),
        game_version: config.game_version.clone(),
        mods_fingerprint: config.mods_fingerprint.clone(),
        join_code: config.join_code.clone(),
        display_name: config.display_name.clone(),
    }
}

/// The `handshake` envelope a client opens with: version 1, nil session and
/// sender, seq 0, time 0, client authority, carrying the payload's JSON text.
pub fn handshake_envelope(payload_json: String) -> (r: EventEnvelope)
    ensures
        r.v == 1,
        r.event_type@ == "handshake"@,
        r.session_id == 0,
        r.seq == 0,
        r.timestamp_sim_bits == 0,
        r.sender_id == 0,
        r.authority == Authority::Client,
        r.payload == payload_json,
{
    EventEnvelope {
        v: 1,
        event_type: string_of("handshake"),
        session_id: 0,
        seq: 0,
        timestamp_sim_bits: 0,
        sender_id: 0,
        authority: Authority::Client,
        payload: payload_json,
    }
}

/// The server's reply to a handshake: its text, and the text parsed as an
/// error frame, as an envelope, and (the envelope's payload) as an ack
/// payload; a parse failure carries its message.
pub struct HandshakeReply {
    pub text: String,
    pub as_error: Result<WsErrorFrame, String>,
    pub as_envelope: Result<EventEnvelope, String>,
    pub as_ack: Result<HandshakeAckPayload, String>,
}

/// What the bridge makes of the reply: text that is not JSON is a parse
/// error; a reply whose `"type"` is `"error"` ends the handshake with the
/// server's code and message; otherwise the reply must be a `handshake.ack`
/// envelope whose payload names the assigned ids.
pub fn interpret_handshake_reply(rep: HandshakeReply) -> (r: Result<HandshakeResult, BridgeError>)
    ensures
        if !json_parses(rep.text@) {
            r matches Err(BridgeError::Parse(m)) && m@ == json_parse_error(rep.text@)
        } else if json_field_str(rep.text@, "type"@) == Some("error"@) {
            match rep.as_error {
                Err(m) => r == Err::<HandshakeResult, BridgeError>(BridgeError::Parse(m)),
                Ok(f) => r == Err::<HandshakeResult, BridgeError>(
                    BridgeError::Server(f.code, f.message),
                ),
            }
        } else {
            match rep.as_envelope {
                Err(m) => r == Err::<HandshakeResult, BridgeError>(BridgeError::Parse(m)),
                Ok(env) => if env.event_type@ != "handshake.ack"@ {
                    r == Err::<HandshakeResult, BridgeError>(
                        BridgeError::UnexpectedType(env.event_type),
                    )
                } else {
                    match rep.as_ack {
                        Err(m) => r == Err::<HandshakeResult, BridgeError>(BridgeError::Parse(m)),
                        Ok(ack) => r == Ok::<HandshakeResult, BridgeError>(
                            HandshakeResult {
                                client_id: ack.client_id,
                                session_id: ack.session_id,
                                display_name: ack.display_name,
                            },
                        ),
                    }
                },
            }
        },
{
    let frame_type = match field_str(rep.text.as_str(), "type") {
        Err(m) => {
            return Err(BridgeError::Parse(m));
        },
        Ok(t) => t,
    };
    let is_error = match &frame_type {
        Some(t) => eq_str(t, "error"),
        None => false,
    };
    if is_error {
        return match rep.as_error {
            Err(m) => Err(BridgeError::Parse(m)),
            Ok(f) => Err(BridgeError::Server(f.code, f.message)),
        };
    }
    let env = match rep.as_envelope {
        Err(m) => {
            return Err(BridgeError::Parse(m));
        },
        Ok(env) => env,
    };
    if !eq_str(&env.event_type, "handshake.ack") {
        return Err(BridgeError::UnexpectedType(env.event_type));
    }
    match rep.as_ack {
        Err(m) => Err(BridgeError::Parse(m)),
        Ok(ack) => Ok(
            HandshakeResult {
                client_id: ack.client_id,
                session_id: ack.session_id,
                display_name: ack.display_name,
            },
        ),
    }
}

// ---------------------------------------------------------------------------
// The game's named pipe
// ---------------------------------------------------------------------------
/// What one read from the game's pipe gave: a failure, or the message text
/// (the bytes read, decoded lossily; empty when nothing was read).
pub enum PipeEvent {
    ReadFailed,
    Received(String),
}

/// What the pipe server does with a read.
pub enum PipeAction {
    /// Nothing was read: read again.
    Skip,
    /// Hand the message on to the server connection.
    Forward(String),
    /// The game went away (read failure, or it said `garbage_collected`):
    /// drop this client and wait for the game to reconnect.
    Disconnect,
}

/// The pipe server's decision for one read: empty reads are skipped, the
/// game's `garbage_collected` notice and read failures end the client, and
/// every other message is forwarded unchanged.
pub fn on_pipe_event(ev: PipeEvent) -> (r: PipeAction)
    ensures
        match ev {
            PipeEvent::ReadFailed => r is Disconnect,
            PipeEvent::Received(m) => if m@.len() == 0 {
                r is Skip
            } else if m@ == "garbage_collected"@ {
                r is Disconnect
            } else {
                r matches PipeAction::Forward(f) && f@ == m@
            },
        },
{
    match ev {
        PipeEvent::ReadFailed => PipeAction::Disconnect,
        PipeEvent::Received(m) => {
            if m.as_str().unicode_len() == 0 {
                PipeAction::Skip
            } else if eq_str(&m, "garbage_collected") {
                PipeAction::Disconnect
            } else {
                PipeAction::Forward(m)
            }
        },
    }
}

} // verus!
