//! Replaying a session's event log against a server: which logged events are
//! sent again, the handshake the replay opens with, and how its outcome is
//! reported.
use vstd::prelude::*;

use crate::json::{field_str, json_field_str, json_parse_error, json_parses};
use crate::proto::{EventEnvelope, HandshakePayload, PROTO_VERSION};
use crate::text::{concat2, eq_str, string_of};

verus! {

/// Outcome counters of a replay: how many events were sent and the seq the
/// server assigned to the last echo.
#[derive(Clone, Copy, Debug, PartialEq, Eq, Structural)]
pub struct ReplayStats {
    pub events_sent: usize,
    pub last_seq: Option<u64>,
}

impl ReplayStats {
    /// The counters of a replay that sends `events_sent` events: no echo yet.
    pub fn start(events_sent: usize) -> (r: Self)
        ensures
            r.events_sent == events_sent,
            r.last_seq is None,
    {
        ReplayStats { events_sent, last_seq: None }
    }

    /// Records the seq the server gave an echoed event: it becomes the last one.
    pub fn record_echo(&mut self, seq: u64)
        ensures
            final(self).events_sent == old(self).events_sent,
            final(self).last_seq == Some(seq),
    {
        self.last_seq = Some(seq);
    }
}

#[derive(Clone, Debug, PartialEq, Eq)]
pub enum ReplayError {
    Io(String),
    Connect(String),
    Send(String),
    Recv(String),
    Serialize(String),
    Parse(String),
    Closed,
    BinaryReply,
    UnexpectedFrame(String),
}

impl ReplayError {
    /// The message shown for the error.
    pub fn describe(&self) -> (r: String)
        ensures
            r@ == match *self {
                ReplayError::Io(m) => "io error: "@ + m@,
                ReplayError::Connect(m) => "connect failed: "@ + m@,
                ReplayError::Send(m) => "send failed: "@ + m@,
                ReplayError::Recv(m) => "recv failed: "@ + m@,
                ReplayError::Serialize(m) => "serialize failed: "@ + m@,
                ReplayError::Parse(m) => "parse failed: "@ + m@,
                ReplayError::Closed => "connection closed"@,
                ReplayError::BinaryReply => "expected text frame"@,
                ReplayError::UnexpectedFrame(t) => "unexpected frame: "@ + t@,
            },
    {
        match self {
            ReplayError::Io(m) => concat2("io error: ", m.as_str()),
            ReplayError::Connect(m) => concat2("connect failed: ", m.as_str()),
            ReplayError::Send(m) => concat2("send failed: ", m.as_str()),
            ReplayError::Recv(m) => concat2("recv failed: ", m.as_str()),
            ReplayError::Serialize(m) => concat2("serialize failed: ", m.as_str()),
            ReplayError::Parse(m) => concat2("parse failed: ", m.as_str()),
            ReplayError::Closed => string_of("connection closed"),
            ReplayError::BinaryReply => string_of("expected text frame"),
            ReplayError::UnexpectedFrame(t) => concat2("unexpected frame: ", t.as_str()),
        }
    }
}

/// A logged event is replayed when it is a game event (not part of a
/// handshake) with seq at least `from_seq`.
pub open spec fn is_replayed(env: EventEnvelope, from_seq: u64) -> bool {
    &&& env.event_type@ != "handshake"@
    &&& env.event_type@ != "handshake.ack"@
    &&& env.seq >= from_seq
}

/// The replayed events of a log, in log order.
pub open spec fn replayed(all: Seq<EventEnvelope>, from_seq: u64) -> Seq<EventEnvelope>
    decreases all.len(),
{
    if all.len() == 0 {
        Seq::empty()
    } else if is_replayed(all.last(), from_seq) {
        replayed(all.drop_last(), from_seq).push(all.last())
    } else {
        replayed(all.drop_last(), from_seq)
    }
}

/// Replaying from a later seq keeps exactly the events of a replay from an
/// earlier one whose seq is at least the later seq, in the same order.
pub proof fn lemma_replay_from_later(all: Seq<EventEnvelope>, f1: u64, f2: u64)
    requires
        f1 <= f2,
    ensures
        replayed(replayed(all, f1), f2) == replayed(all, f2),
    decreases all.len(),
{
    if all.len() > 0 {
        let init = all.drop_last();
        lemma_replay_from_later(init, f1, f2);
        if is_replayed(all.last(), f1) {
            let r1 = replayed(init, f1);
            assert(r1.push(all.last()).drop_last() == r1);
        }
    }
}

/// What a replay sends: exactly the logged events that are neither a
/// `handshake` nor a `handshake.ack` and have seq at least `from_seq`, in
/// log order, whatever their sender, session or payload. In particular every
/// such event is sent, and every event sent is one of them.
pub proof fn lemma_replay_selects(all: Seq<EventEnvelope>, from_seq: u64)
    ensures
        replayed(all, from_seq) == all.filter(
            |e: EventEnvelope|
                e.event_type@ != "handshake"@ && e.event_type@ != "handshake.ack"@ && e.seq
                    >= from_seq,
        ),
        forall|i: int|
            0 <= i < all.len() && (#[trigger] all[i]).event_type@ != "handshake"@
                && all[i].event_type@ != "handshake.ack"@ && all[i].seq >= from_seq
                ==> replayed(all, from_seq).contains(all[i]),
        forall|j: int|
            0 <= j < replayed(all, from_seq).len() ==> {
                let e = #[trigger] replayed(all, from_seq)[j];
                &&& all.contains(e)
                &&& e.event_type@ != "handshake"@
                &&& e.event_type@ != "handshake.ack"@
                &&& e.seq >= from_seq
            },
    decreases all.len(),
{
    reveal(Seq::filter);
    let pred = |e: EventEnvelope|
        e.event_type@ != "handshake"@ && e.event_type@ != "handshake.ack"@ && e.seq >= from_seq;
    if all.len() > 0 {
        lemma_replay_selects(all.drop_last(), from_seq);
    }
    all.filter_lemma(pred);
    assert(replayed(all, from_seq) == all.filter(pred));
}

/// A replay from seq 0 sends every logged event that is not part of a
/// handshake, in log order.
pub proof fn lemma_replay_from_zero(all: Seq<EventEnvelope>)
    ensures
        replayed(all, 0) == all.filter(
            |e: EventEnvelope| e.event_type@ != "handshake"@ && e.event_type@ != "handshake.ack"@,
        ),
    decreases all.len(),
{
    reveal(Seq::filter);
    if all.len() > 0 {
        lemma_replay_from_zero(all.drop_last());
    }
}

/// Keeps the logged events to replay: handshake and handshake-ack entries are
/// left out, as are events with seq below `from_seq`; order is kept.
pub fn filter_replay_events(all: Vec<EventEnvelope>, from_seq: u64) -> (r: Vec<EventEnvelope>)
    ensures
        r@ == replayed(all@, from_seq),
{
    let mut r: Vec<EventEnvelope> = Vec::new();
    let n = all.len();
    for i in 0..n
        invariant
            n == all@.len(),
            r@ == replayed(all@.take(i as int), from_seq),
    {
        let ghost pre = all@.take(i as int);
        assert(all@.take(i + 1).drop_last() == pre);
        assert(all@.take(i + 1).last() == all@[i as int]);
        let env = &all[i];
        if !eq_str(&env.event_type, "handshake") && !eq_str(&env.event_type, "handshake.ack")
            && env.seq >= from_seq {
            r.push(env.duplicate());
        }
    }
    assert(all@.take(n as int) == all@);
    r
}

/// The envelope as it is sent again: the server assigns a fresh seq, so the
/// logged one is cleared.
pub fn for_resend(env: EventEnvelope) -> (r: EventEnvelope)
    ensures
        r == (EventEnvelope { seq: 0, ..env }),
{
    let mut r = env;
    r.seq = 0;
    r
}

/// The handshake payload a replay opens with.
pub fn replay_handshake_payload(display_name: &String, join_code: &String) -> (r: HandshakePayload)
    ensures
        r.mod_version@ == "0.1.0"@,
        r.proto_version == PROTO_VERSION,
        r.bridge_version@ == "0.1.0"@,
        r.game_version@ == "7.5"@,
        r.mods_fingerprint@ == "sha256:0000"@,
        r.join_code == *join_code,
        r.display_name == *display_name,
{
    HandshakePayload {
        mod_version: string_of("0.1.0"),
        proto_version: PROTO_VERSION,
        bridge_version: string_of("0.1.0"),
        game_version: string_of("7.5"),
        mods_fingerprint: string_of("sha256:0000"),
        join_code: join_code.clone(),
        display_name: display_name.clone(),
    }
}

/// The reply to a replay's handshake must be JSON whose `"type"` is
/// `"handshake.ack"`; text that is not JSON is a parse error, and any other
/// reply stops the replay with the reply's text.
pub fn check_replay_ack(reply_text: String) -> (r: Result<(), ReplayError>)
    ensures
        if !json_parses(reply_text@) {
            r matches Err(ReplayError::Parse(m)) && m@ == json_parse_error(reply_text@)
        } else if json_field_str(reply_text@, "type"@) == Some("handshake.ack"@) {
            r is Ok
        } else {
            r == Err::<(), ReplayError>(ReplayError::UnexpectedFrame(reply_text))
        },
{
    let frame_type = match field_str(reply_text.as_str(), "type") {
        Err(m) => {
            return Err(ReplayError::Parse(m));
        },
        Ok(t) => t,
    };
    let ok = match &frame_type {
        Some(t) => eq_str(t, "handshake.ack"),
        None => false,
    };
    if ok {
        Ok(())
    } else {
        Err(ReplayError::UnexpectedFrame(reply_text))
    }
}

} // verus!
