//! The bridge's store for events not yet acknowledged by the server, kept for
//! resending after a reconnect. Events come back out in the order they went in.
use vstd::prelude::*;

use std::collections::VecDeque;

use crate::proto::EventEnvelope;

verus! {

/// A first-in first-out store of pending envelopes.
pub trait OfflineBuffer: Send + Sync {
    /// The envelopes waiting, oldest first.
    spec fn pending(&self) -> Seq<EventEnvelope>;

    /// Queues an envelope behind the ones already waiting. `local_id` is the
    /// client-local id used to recognise duplicates when resending.
    fn push(&mut self, local_id: u64, envelope: EventEnvelope)
        ensures
            final(self).pending() == old(self).pending().push(envelope),
    ;

    /// Takes every waiting envelope, oldest first, and leaves the store empty.
    fn drain(&mut self) -> (r: Vec<EventEnvelope>)
        ensures
            r@ == old(self).pending(),
            final(self).pending().len() == 0,
    ;
}

/// An offline buffer held in memory.
pub struct InMemoryOfflineBuffer {
    queue: VecDeque<EventEnvelope>,
}

impl InMemoryOfflineBuffer {
    /// An empty buffer.
    pub fn new() -> (r: Self)
        ensures
            r.pending().len() == 0,
    {
        InMemoryOfflineBuffer { queue: VecDeque::new() }
    }
}

impl Default for InMemoryOfflineBuffer {
    fn default() -> (r: Self)
        ensures
            r.pending().len() == 0,
    {
        Self::new()
    }
}

impl OfflineBuffer for InMemoryOfflineBuffer {
    closed spec fn pending(&self) -> Seq<EventEnvelope> {
        self.queue@
    }

    fn push(&mut self, local_id: u64, envelope: EventEnvelope) {
        self.queue.push_back(envelope);
    }

    fn drain(&mut self) -> (r: Vec<EventEnvelope>) {
        let mut out: Vec<EventEnvelope> = Vec::new();
        let ghost start = self.queue@;
        assert(start == old(self).pending());
        loop
            invariant
                out@ + self.queue@ == start,
                start == old(self).pending(),
            decreases self.queue@.len(),
        {
            match self.queue.pop_front() {
                Some(e) => {
                    out.push(e);
                },
                None => {
                    assert(self.queue@.len() == 0);
                    assert(out@ + self.queue@ =~= out@);
                    return out;
                },
            }
        }
    }
}

} // verus!
