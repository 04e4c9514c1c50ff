//! The queue of reverse geocoding lookups, drained one poll per tick.
//!
//! The lookups themselves run elsewhere; this queue decides which one is
//! polled on a tick and what becomes of it.
use vstd::prelude::*;

use crate::enrich::{LookupRequest, Place};

verus! {

/// A lookup that was dispatched and waits for its answer.
#[derive(Clone, Copy, Debug, PartialEq, Eq, Structural)]
pub struct Lookup {
    pub id: u64,
    pub request: LookupRequest,
}

/// What polling the lookup at the front of the queue found.
#[derive(Clone, Debug)]
pub enum PollStatus {
    /// Still running.
    Pending,
    /// Finished: the place found, or `None` where the lookup failed.
    Done(Option<Place>),
}

/// What one tick did.
#[derive(Clone, Debug)]
pub enum TickOutcome {
    /// The queue was empty.
    Idle,
    /// The front lookup was not finished and went to the back.
    Requeued(Lookup),
    /// The front lookup finished and left the queue, with its answer.
    Completed(Lookup, Option<Place>),
}

/// `after` and `r` are what a tick makes of the queue `before`, given the
/// front lookup's `status`.
pub open spec fn tick_result(before: Seq<Lookup>, status: PollStatus, after: Seq<Lookup>, r: TickOutcome) -> bool {
    if before.len() == 0 {
        after == before && r is Idle
    } else {
        match status {
            PollStatus::Pending => after == before.skip(1).push(before[0]) && r == TickOutcome::Requeued(
                before[0],
            ),
            PollStatus::Done(answer) => after == before.skip(1) && r == TickOutcome::Completed(before[0], answer),
        }
    }
}

/// Pending lookups in the order they are polled.
pub struct LookupQueue {
    pending: Vec<Lookup>,
    next_id: u64,
}

impl View for LookupQueue {
    type V = Seq<Lookup>;

    closed spec fn view(&self) -> Seq<Lookup> {
        self.pending@
    }
}

impl LookupQueue {
    /// The id that the next lookup gets.
    pub closed spec fn next_id_spec(&self) -> u64 {
        self.next_id
    }

    pub fn new() -> (r: LookupQueue)
        ensures
            r@ == Seq::<Lookup>::empty(),
    {
        LookupQueue { pending: Vec::new(), next_id: 0 }
    }

    pub fn len(&self) -> (r: usize)
        ensures
            r == self@.len(),
    {
        self.pending.len()
    }

    /// Puts a dispatched lookup at the back of the queue; it gets the next id
    /// in sequence, which is returned.
    pub fn enqueue(&mut self, request: LookupRequest) -> (r: u64)
        ensures
            r == old(self).next_id_spec(),
            final(self).next_id_spec() == old(self).next_id_spec().wrapping_add(1),
            final(self)@ == old(self)@.push(Lookup { id: r, request }),
    {
        let id = self.next_id;
        self.next_id = self.next_id.wrapping_add(1);
        self.pending.push(Lookup { id, request });
        id
    }

    /// Puts dispatched lookups at the back of the queue, in order; returns
    /// them with their ids.
    pub fn enqueue_all(&mut self, requests: &Vec<LookupRequest>) -> (r: Vec<Lookup>)
        ensures
            r@.len() == requests@.len(),
            forall|t: int| 0 <= t < r@.len() ==> (#[trigger] r@[t]).request == requests@[t],
            final(self)@ == old(self)@ + r@,
    {
        let mut dispatched: Vec<Lookup> = Vec::new();
        let ghost q0 = self@;
        for t in 0..requests.len()
            invariant
                self@ == q0 + dispatched@,
                dispatched@.len() == t,
                forall|u: int| 0 <= u < t ==> (#[trigger] dispatched@[u]).request == requests@[u],
        {
            let req = requests[t];
            let id = self.enqueue(req);
            dispatched.push(Lookup { id, request: req });
            assert(self@ =~= q0 + dispatched@);
        }
        dispatched
    }

    /// The lookup that the next tick polls.
    pub fn front(&self) -> (r: Option<Lookup>)
        ensures
            r == if self@.len() == 0 {
                None
            } else {
                Some(self@[0])
            },
    {
        if self.pending.len() == 0 {
            None
        } else {
            Some(self.pending[0])
        }
    }

    /// One tick: takes the front lookup, whose poll found `status`. A finished
    /// lookup leaves the queue with its answer; an unfinished one goes to the
    /// back. No other lookup is touched.
    pub fn tick(&mut self, status: PollStatus) -> (r: TickOutcome)
        ensures
            final(self).next_id_spec() == old(self).next_id_spec(),
            tick_result(old(self)@, status, final(self)@, r),
    {
        if self.pending.len() == 0 {
            return TickOutcome::Idle;
        }
        let head = self.pending.remove(0);
        match status {
            PollStatus::Pending => {
                self.pending.push(head);
                TickOutcome::Requeued(head)
            },
            PollStatus::Done(answer) => TickOutcome::Completed(head, answer),
        }
    }
}

} // verus!
