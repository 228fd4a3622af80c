//! The server's side of one WebSocket connection: the handshake decision and
//! the per-message state machine (handshake first, then stamp, log and echo).
//! The caller performs the socket and file I/O each step asks for.
use vstd::prelude::*;

use crate::event_log::EVENT_LOG_TAIL_LIMIT;
use crate::proto::{
    display_name_error, lemma_plain_names_accepted, normalize_display_name, Authority, EventEnvelope, HandshakeAckPayload,
    HandshakePayload, WsErrorFrame, PROTO_VERSION,
};
use crate::session::{AppState, DEV_JOIN_CODE};
use crate::text::{collapse_whitespace, eq_str, string_of};

verus! {

/// Outcome of a handshake: the ack payload and the client id it assigns, or
/// the error frame that ends the connection.
pub enum HandshakeResult {
    Accepted { ack: HandshakeAckPayload, assigned_client_id: u128 },
    Rejected { err: WsErrorFrame },
}

/// The error (code and message) a handshake payload is refused with, checked
/// in order: malformed payload, protocol version, join code, game version,
/// display name.
pub open spec fn handshake_rejection(payload: Option<HandshakePayload>) -> Option<
    (Seq<char>, Seq<char>),
> {
    match payload {
        None => Some(("INVALID_HANDSHAKE"@, "Handshake payload is malformed."@)),
        Some(p) => if p.proto_version != PROTO_VERSION {
            Some(("INCOMPATIBLE_VERSION"@, "Protocol version mismatch."@))
        } else if p.join_code@ != DEV_JOIN_CODE@ {
            Some(("INVALID_JOIN_CODE"@, "Join code is not valid."@))
        } else if p.game_version@.len() == 0 {
            Some(("INCOMPATIBLE_GAME_VERSION"@, "Game version is required."@))
        } else if display_name_error(p.display_name@) is Some {
            Some(("INVALID_NAME"@, "Display name is not valid."@))
        } else {
            None
        },
    }
}

/// The handshake checks only the protocol version, the join code, that some
/// game version is given, and the display name: a payload with the right
/// protocol version and join code, any non-empty game version and a name of
/// 1 to 24 ASCII letters, digits and punctuation marks is accepted, and its
/// mod version, bridge version and mods fingerprint never matter.
pub proof fn lemma_handshake_acceptance(p: HandshakePayload, q: HandshakePayload)
    ensures
        (p.proto_version == PROTO_VERSION && p.join_code@ == DEV_JOIN_CODE@
            && p.game_version@.len() > 0 && 1 <= p.display_name@.len() <= 24 && (forall|i: int|
            0 <= i < p.display_name@.len() ==> 0x21 <= (#[trigger] p.display_name@[i]) as u32
                <= 0x7E)) ==> handshake_rejection(Some(p)) is None,
        (p.proto_version == q.proto_version && p.join_code@ == q.join_code@
            && p.display_name@ == q.display_name@ && (p.game_version@.len() > 0
            <==> q.game_version@.len() > 0)) ==> handshake_rejection(Some(p))
            == handshake_rejection(Some(q)),
{
    lemma_plain_names_accepted(p.display_name@);
}

/// How a handshake is refused: a missing payload, then a protocol version
/// other than the server's, then a wrong join code, then an empty game
/// version, then a display name that fails validation, each with its own code.
pub proof fn lemma_handshake_refusals(p: HandshakePayload)
    ensures
        handshake_rejection(None) == Some(("INVALID_HANDSHAKE"@, "Handshake payload is malformed."@)),
        p.proto_version != PROTO_VERSION ==> handshake_rejection(Some(p)) == Some(
            ("INCOMPATIBLE_VERSION"@, "Protocol version mismatch."@),
        ),
        p.proto_version == PROTO_VERSION && p.join_code@ != DEV_JOIN_CODE@ ==> handshake_rejection(
            Some(p),
        ) == Some(("INVALID_JOIN_CODE"@, "Join code is not valid."@)),
        p.proto_version == PROTO_VERSION && p.join_code@ == DEV_JOIN_CODE@ && p.game_version@.len()
            == 0 ==> handshake_rejection(Some(p)) == Some(
            ("INCOMPATIBLE_GAME_VERSION"@, "Game version is required."@),
        ),
        p.proto_version == PROTO_VERSION && p.join_code@ == DEV_JOIN_CODE@ && p.game_version@.len()
            > 0 ==> (handshake_rejection(Some(p)) is None <==> display_name_error(
            p.display_name@,
        ) is None),
        p.proto_version == PROTO_VERSION && p.join_code@ == DEV_JOIN_CODE@ && p.game_version@.len()
            > 0 && display_name_error(p.display_name@) is Some ==> handshake_rejection(Some(p))
            == Some(("INVALID_NAME"@, "Display name is not valid."@)),
{
}

/// `err` is the version-1 error frame with this code and message.
pub open spec fn is_error_frame(err: WsErrorFrame, code: Seq<char>, message: Seq<char>) -> bool {
    &&& err.v == 1
    &&& err.frame_type@ == "error"@
    &&& err.code@ == code
    &&& err.message@ == message
}

/// `r` is the outcome of the handshake `payload` in session `session_id`,
/// where an accepted client gets the id `client_id`.
pub open spec fn is_handshake_outcome(
    r: HandshakeResult,
    payload: Option<HandshakePayload>,
    session_id: u128,
    client_id: u128,
) -> bool {
    match handshake_rejection(payload) {
        Some((code, message)) => r matches HandshakeResult::Rejected { err } && is_error_frame(
            err,
            code,
            message,
        ),
        None => r matches HandshakeResult::Accepted { ack, assigned_client_id } && {
            &&& assigned_client_id == client_id
            &&& ack.client_id == client_id
            &&& ack.session_id == session_id
            &&& ack.proto_version == PROTO_VERSION
            &&& ack.display_name@ == collapse_whitespace(payload->0.display_name@)
        },
    }
}

/// A version-4 UUID value: version nibble 4, variant bits `10`.
pub open spec fn is_v4_id(id: u128) -> bool {
    id & 0x0000_0000_0000_F000_C000_0000_0000_0000u128 == 0x0000_0000_0000_4000_8000_0000_0000_0000u128
}

/// `uuid::Uuid::new_v4` read as its 128-bit value (`Uuid::as_u128`). The uuid
/// source fixes the version nibble to 4 and the variant bits to `10`; the other
/// bits come from the random number generator, so nothing more is stated.
#[verifier::external_body]
fn new_client_id() -> (id: u128)
    ensures
        is_v4_id(id),
{
    uuid::Uuid::new_v4().as_u128()
}

/// Checks a handshake payload (`None` when it did not parse) against the
/// protocol version, the join code, the game version and the display-name
/// rules, in that order; gives the confirmed display name or the error frame.
fn validate_handshake(payload: &Option<HandshakePayload>) -> (r: Result<String, WsErrorFrame>)
    ensures
        match handshake_rejection(*payload) {
            Some((code, message)) => r matches Err(err) && is_error_frame(err, code, message),
            None => r matches Ok(name) && name@ == collapse_whitespace(payload->0.display_name@),
        },
{
    let p = match payload {
        None => {
            return Err(WsErrorFrame::new("INVALID_HANDSHAKE", "Handshake payload is malformed."));
        },
        Some(p) => p,
    };
    if p.proto_version != PROTO_VERSION {
        return Err(WsErrorFrame::new("INCOMPATIBLE_VERSION", "Protocol version mismatch."));
    }
    if !eq_str(&p.join_code, DEV_JOIN_CODE) {
        return Err(WsErrorFrame::new("INVALID_JOIN_CODE", "Join code is not valid."));
    }
    if p.game_version.as_str().is_empty() {
        return Err(WsErrorFrame::new("INCOMPATIBLE_GAME_VERSION", "Game version is required."));
    }
    match normalize_display_name(p.display_name.as_str()) {
        Ok(name) => Ok(name),
        Err(_) => Err(WsErrorFrame::new("INVALID_NAME", "Display name is not valid.")),
    }
}

/// Decides a handshake for a given client id.
pub fn handshake_outcome(payload: &Option<HandshakePayload>, session_id: u128, client_id: u128) -> (r:
    HandshakeResult)
    ensures
        is_handshake_outcome(r, *payload, session_id, client_id),
{
    match validate_handshake(payload) {
        Err(err) => HandshakeResult::Rejected { err },
        Ok(display_name) => {
            let ack = HandshakeAckPayload {
                client_id,
                session_id,
                display_name,
                proto_version: PROTO_VERSION,
            };
            HandshakeResult::Accepted { ack, assigned_client_id: client_id }
        },
    }
}

/// Validates a handshake and, when it is accepted, assigns the client a fresh
/// random id.
pub fn process_handshake(payload: &Option<HandshakePayload>, state: &AppState) -> (r: HandshakeResult)
    ensures
        match r {
            HandshakeResult::Accepted { assigned_client_id, .. } => is_handshake_outcome(
                r,
                *payload,
                state.session_id,
                assigned_client_id,
            ) && is_v4_id(assigned_client_id),
            HandshakeResult::Rejected { .. } => is_handshake_outcome(
                r,
                *payload,
                state.session_id,
                0,
            ),
        },
{
    match validate_handshake(payload) {
        Err(err) => HandshakeResult::Rejected { err },
        Ok(display_name) => {
            let client_id = new_client_id();
            let ack = HandshakeAckPayload {
                client_id,
                session_id: state.session_id,
                display_name,
                proto_version: PROTO_VERSION,
            };
            HandshakeResult::Accepted { ack, assigned_client_id: client_id }
        },
    }
}

/// The `handshake.ack` envelope the server sends: version 1, seq 0, time 0,
/// nil sender, server authority, carrying the ack payload's JSON text.
pub fn ack_envelope(session_id: u128, payload_json: String) -> (r: EventEnvelope)
    ensures
        r.v == 1,
        r.event_type@ == "handshake.ack"@,
        r.session_id == session_id,
        r.seq == 0,
        r.timestamp_sim_bits == 0,
        r.sender_id == 0,
        r.authority == Authority::Server,
        r.payload == payload_json,
{
    EventEnvelope {
        v: 1,
        event_type: string_of("handshake.ack"),
        session_id,
        seq: 0,
        timestamp_sim_bits: 0,
        sender_id: 0,
        authority: Authority::Server,
        payload: payload_json,
    }
}

/// The last `n` items of `s` (all of them when there are fewer).
pub open spec fn keep_last<T>(s: Seq<T>, n: nat) -> Seq<T> {
    if s.len() > n {
        s.subrange(s.len() - n, s.len() as int)
    } else {
        s
    }
}

/// The window keeps the last `n` items: as many as there are, up to `n`, and
/// they are the final items of `s` in their order.
pub proof fn lemma_keep_last_is_suffix<T>(s: Seq<T>, n: nat)
    ensures
        keep_last(s, n).len() == if s.len() < n {
            s.len()
        } else {
            n
        },
        forall|i: int|
            0 <= i < keep_last(s, n).len() ==> #[trigger] keep_last(s, n)[i] == s[s.len()
                - keep_last(s, n).len() + i],
{
}

/// An inbound envelope as the server records it: its session, sender and seq
/// are the server's, everything else is the client's.
pub open spec fn stamped(env: EventEnvelope, session_id: u128, sender_id: u128, seq: u64) -> EventEnvelope {
    EventEnvelope { session_id, sender_id, seq, ..env }
}

/// What arrived on the socket. A text frame carries its parse as an envelope
/// (`None` when it is not a valid envelope) and the parse of the envelope's
/// payload as a handshake payload (`None` when it is not one).
pub enum Inbound {
    ReadError,
    Close,
    NonText,
    Text { envelope: Option<EventEnvelope>, handshake: Option<HandshakePayload> },
}

/// What the connection does next.
pub enum Action {
    /// Wait for the next frame.
    Continue,
    /// Close the connection.
    Stop,
    /// Send the error frame, then close.
    SendErrorAndStop(WsErrorFrame),
    /// Send the error frame, write a rejection bundle with the recent events, then close.
    RejectAndStop { err: WsErrorFrame, recent_events: Vec<EventEnvelope> },
    /// Send the `handshake.ack` envelope for this payload; close if sending fails.
    SendAck(HandshakeAckPayload),
    /// Append the stamped envelope to the event log and echo it; close if sending fails.
    AppendAndEcho(EventEnvelope),
}

/// Per-connection state.
pub struct Connection {
    pub handshaken: bool,
    pub client_id: u128,
    /// The last stamped envelopes of this connection, at most `EVENT_LOG_TAIL_LIMIT`.
    pub recent_events: Vec<EventEnvelope>,
}

impl Connection {
    /// A connection that has not completed its handshake.
    pub fn new() -> (r: Self)
        ensures
            !r.handshaken,
            r.client_id == 0,
            r.recent_events@.len() == 0,
    {
        Connection { handshaken: false, client_id: 0, recent_events: Vec::new() }
    }

    /// One step of the connection: the first text frame must be a valid
    /// handshake; after it every envelope is stamped with the session id, the
    /// client id and the next seq, kept among the recent events, logged and echoed.
    pub fn on_inbound(&mut self, state: &mut AppState, msg: Inbound) -> (a: Action)
        requires
            old(self).recent_events@.len() <= EVENT_LOG_TAIL_LIMIT,
            (old(self).handshaken && msg matches Inbound::Text { envelope: Some(_), .. }) ==> old(state).seq < u64::MAX,
        ensures
            final(self).recent_events@.len() <= EVENT_LOG_TAIL_LIMIT,
            final(state).session_id == old(state).session_id,
            final(state).event_log == old(state).event_log,
            seq_step(old(state).seq, final(state).seq, echoed_seq(a)),
            match msg {
                Inbound::ReadError | Inbound::Close => a matches Action::Stop && *final(self) == *old(self) && *final(state) == *old(state),
                Inbound::NonText => a matches Action::Continue && *final(self) == *old(self) && *final(state)
                    == *old(state),
                Inbound::Text { envelope: None, .. } => a matches Action::SendErrorAndStop(err)
                    && is_error_frame(err, "INVALID_JSON"@, "Message is not valid JSON."@)
                    && *final(self) == *old(self) && *final(state) == *old(state),
                Inbound::Text { envelope: Some(env), handshake } => if !old(self).handshaken {
                    &&& *final(state) == *old(state)
                    &&& if env.event_type@ != "handshake"@ {
                        &&& a matches Action::SendErrorAndStop(err)
                        &&& is_error_frame(
                            err,
                            "HANDSHAKE_REQUIRED"@,
                            "First message must be a handshake envelope."@,
                        )
                        &&& *final(self) == *old(self)
                    } else {
                        match handshake_rejection(handshake) {
                            Some((code, message)) => {
                                &&& a matches Action::RejectAndStop { err, recent_events }
                                &&& is_error_frame(err, code, message)
                                &&& recent_events@ == old(self).recent_events@
                                &&& *final(self) == *old(self)
                            },
                            None => {
                                &&& a matches Action::SendAck(ack)
                                &&& ack.client_id == final(self).client_id
                                &&& is_v4_id(ack.client_id)
                                &&& ack.session_id == old(state).session_id
                                &&& ack.proto_version == PROTO_VERSION
                                &&& ack.display_name@ == collapse_whitespace(
                                    handshake->0.display_name@,
                                )
                                &&& final(self).handshaken
                                &&& final(self).recent_events == old(self).recent_events
                            },
                        }
                    }
                } else {
                    let seq = (old(state).seq + 1) as u64;
                    let out = stamped(env, old(state).session_id, old(self).client_id, seq);
                    &&& a matches Action::AppendAndEcho(e)
                    &&& e == out
                    &&& final(state).seq == seq
                    &&& final(self).handshaken
                    &&& final(self).client_id == old(self).client_id
                    &&& final(self).recent_events@ == keep_last(
                        old(self).recent_events@.push(out),
                        EVENT_LOG_TAIL_LIMIT as nat,
                    )
                },
            },
    {
        match msg {
            Inbound::ReadError => Action::Stop,
            Inbound::Close => Action::Stop,
            Inbound::NonText => Action::Continue,
            Inbound::Text { envelope: None, .. } => Action::SendErrorAndStop(
                WsErrorFrame::new("INVALID_JSON", "Message is not valid JSON."),
            ),
            Inbound::Text { envelope: Some(env), handshake } => {
                if !self.handshaken {
                    if !eq_str(&env.event_type, "handshake") {
                        return Action::SendErrorAndStop(
                            WsErrorFrame::new(
                                "HANDSHAKE_REQUIRED",
                                "First message must be a handshake envelope.",
                            ),
                        );
                    }
                    match process_handshake(&handshake, state) {
                        HandshakeResult::Accepted { ack, assigned_client_id } => {
                            self.client_id = assigned_client_id;
                            self.handshaken = true;
                            Action::SendAck(ack)
                        },
                        HandshakeResult::Rejected { err } => {
                            let recent_events = crate::proto::duplicate_all(&self.recent_events);
                            Action::RejectAndStop { err, recent_events }
                        },
                    }
                } else {
                    let seq = state.next_seq();
                    let mut out = env;
                    out.session_id = state.session_id;
                    out.sender_id = self.client_id;
                    out.seq = seq;
                    let ghost before = self.recent_events@;
                    self.recent_events.push(out.duplicate());
                    if self.recent_events.len() > EVENT_LOG_TAIL_LIMIT {
                        self.recent_events.remove(0);
                        assert(self.recent_events@ =~= keep_last(
                            before.push(out),
                            EVENT_LOG_TAIL_LIMIT as nat,
                        ));
                    }
                    Action::AppendAndEcho(out)
                }
            },
        }
    }
}

/// The seq of the envelope an action echoes, if it echoes one.
pub open spec fn echoed_seq(a: Action) -> Option<u64> {
    match a {
        Action::AppendAndEcho(e) => Some(e.seq),
        _ => None,
    }
}

/// One step on the shared counter: an echo takes the next seq and leaves the
/// counter there; a step that echoes nothing leaves the counter as it was.
pub open spec fn seq_step(before: u64, after: u64, echoed: Option<u64>) -> bool {
    match echoed {
        Some(q) => q == before + 1 && after == q,
        None => after == before,
    }
}

proof fn lemma_counter_monotone(states: Seq<u64>, echoed: Seq<Option<u64>>, i: int, j: int)
    requires
        states.len() == echoed.len() + 1,
        forall|k: int|
            0 <= k < echoed.len() ==> #[trigger] seq_step(states[k], states[k + 1], echoed[k]),
        0 <= i <= j < states.len(),
    ensures
        states[i] <= states[j],
    decreases j - i,
{
    if i < j {
        lemma_counter_monotone(states, echoed, i, j - 1);
        let k = j - 1;
        assert(seq_step(states[k], states[k + 1], echoed[k]));
    }
}

/// Seqs echoed over one shared state, whatever connections the steps came
/// from: `states` is the counter before the first step and after each step,
/// in the order the steps ran, and `echoed` what each step echoed. Every
/// echoed seq is larger than every seq echoed before it, so no two echoes
/// share a seq, and each lies between the first and the last counter value.
pub proof fn lemma_echoed_seqs_increase(states: Seq<u64>, echoed: Seq<Option<u64>>)
    requires
        states.len() == echoed.len() + 1,
        forall|k: int|
            0 <= k < echoed.len() ==> #[trigger] seq_step(states[k], states[k + 1], echoed[k]),
    ensures
        forall|i: int, j: int|
            0 <= i < j < echoed.len() && (#[trigger] echoed[i]) is Some && (#[trigger] echoed[j]) is Some
                ==> echoed[i]->0 < echoed[j]->0,
        forall|i: int|
            0 <= i < echoed.len() && (#[trigger] echoed[i]) is Some ==> states[0] < echoed[i]->0
                <= states.last(),
        states[0] <= states.last(),
{
    lemma_counter_monotone(states, echoed, 0, states.len() - 1);
    assert forall|i: int, j: int|
        0 <= i < j < echoed.len() && (#[trigger] echoed[i]) is Some && (#[trigger] echoed[j]) is Some
            implies echoed[i]->0 < echoed[j]->0 by {
        assert(seq_step(states[i], states[i + 1], echoed[i]));
        assert(seq_step(states[j], states[j + 1], echoed[j]));
        lemma_counter_monotone(states, echoed, i + 1, j);
    }
    assert forall|i: int| 0 <= i < echoed.len() && (#[trigger] echoed[i]) is Some implies states[0]
        < echoed[i]->0 <= states.last() by {
        assert(seq_step(states[i], states[i + 1], echoed[i]));
        lemma_counter_monotone(states, echoed, 0, i);
        lemma_counter_monotone(states, echoed, i + 1, states.len() - 1);
    }
}

/// The recent-events window only ever holds the last `n` stamped envelopes:
/// keeping the last `n` after each push is the same as keeping the last `n`
/// of everything pushed.
pub proof fn lemma_recent_window<T>(s: Seq<T>, x: T, n: nat)
    requires
        n > 0,
    ensures
        keep_last(keep_last(s, n).push(x), n) == keep_last(s.push(x), n),
{
    if s.len() > n {
        assert(keep_last(keep_last(s, n).push(x), n) =~= keep_last(s.push(x), n));
    } else if s.len() == n {
        assert(keep_last(keep_last(s, n).push(x), n) =~= keep_last(s.push(x), n));
    }
}

} // verus!
