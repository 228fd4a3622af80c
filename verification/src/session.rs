//! State shared by every connection of the single development session: the
//! session id, the sequence counter and the session's event log.
use vstd::prelude::*;

use crate::event_log::EventLog;

verus! {

/// Join code the server accepts during the handshake.
pub const DEV_JOIN_CODE: &'static str = "ABCD-1234";

/// Id of the single development session (`11111111-1111-1111-1111-111111111111`).
pub const DEV_SESSION_ID: u128 = 0x1111_1111_1111_1111_1111_1111_1111_1111u128;

/// Shared listener state: one session, a monotonic seq, an append-only log.
pub struct AppState {
    pub session_id: u128,
    /// The last seq handed out (0 before the first).
    pub seq: u64,
    pub event_log: EventLog,
}

impl AppState {
    /// State for a new listener: no seq handed out yet.
    pub fn new(event_log: EventLog, session_id: u128) -> (r: Self)
        ensures
            r.session_id == session_id,
            r.seq == 0,
            r.event_log == event_log,
    {
        AppState { session_id, seq: 0, event_log }
    }

    /// The next server seq for an inbound event: one more than the previous,
    /// so the seqs handed out are 1, 2, 3, ... and strictly increasing.
    pub fn next_seq(&mut self) -> (r: u64)
        requires
            old(self).seq < u64::MAX,
        ensures
            r == old(self).seq + 1,
            final(self).seq == r,
            final(self).session_id == old(self).session_id,
            final(self).event_log == old(self).event_log,
    {
        self.seq = self.seq + 1;
        self.seq
    }
}

/// `results` are what successive calls of `next_seq` returned and `states` the
/// counter before the first call and after each call (in the order the calls
/// were made).
pub open spec fn is_seq_run(states: Seq<u64>, results: Seq<u64>) -> bool {
    &&& states.len() == results.len() + 1
    &&& forall|i: int|
        0 <= i < results.len() ==> #[trigger] results[i] == states[i] + 1 && states[i + 1]
            == results[i]
}

proof fn lemma_seq_run_at(states: Seq<u64>, results: Seq<u64>, i: int)
    requires
        is_seq_run(states, results),
        0 <= i < results.len(),
    ensures
        results[i] == states[0] + i + 1,
        states[i + 1] == states[0] + i + 1,
    decreases i,
{
    if i > 0 {
        lemma_seq_run_at(states, results, i - 1);
    }
}

/// Seqs handed out in turn from counter `s` are exactly `s + 1, ..., s + n`:
/// each is larger than every earlier one, none repeats, and the counter ends at `s + n`.
pub proof fn lemma_seq_run(states: Seq<u64>, results: Seq<u64>)
    requires
        is_seq_run(states, results),
    ensures
        forall|i: int| 0 <= i < results.len() ==> #[trigger] results[i] == states[0] + i + 1,
        forall|i: int, j: int| 0 <= i < j < results.len() ==> results[i] < results[j],
        states.last() == states[0] + results.len(),
{
    assert forall|i: int| 0 <= i < results.len() implies #[trigger] results[i] == states[0] + i
        + 1 by {
        lemma_seq_run_at(states, results, i);
    }
    assert forall|i: int, j: int| 0 <= i < j < results.len() implies results[i] < results[j] by {
        lemma_seq_run_at(states, results, i);
        lemma_seq_run_at(states, results, j);
    }
    if results.len() > 0 {
        lemma_seq_run_at(states, results, results.len() - 1);
    }
}

} // verus!
