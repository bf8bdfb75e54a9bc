//! The pending action queue: an ordered buffer of not-yet-applied actions.
//!
//! Request handlers append to the tail; the settlement worker takes the
//! whole contents as one snapshot, leaving the queue empty. Nothing is ever
//! dropped, reordered or duplicated: an append lands either wholly before a
//! snapshot — and is in it — or wholly after it — and is in the next one.
//! The queue is unbounded by design; a pathological burst of submissions
//! between two settlements grows it without limit.

use vstd::prelude::*;

use crate::model::Action;

verus! {

/// The ordered buffer of pending actions, oldest first.
pub struct PendingQueue {
    actions: Vec<Action>,
}

impl View for PendingQueue {
    type V = Seq<Action>;

    closed spec fn view(&self) -> Seq<Action> {
        self.actions@
    }
}

impl PendingQueue {
    /// An empty queue.
    pub fn new() -> (q: PendingQueue)
        ensures
            q@ =~= Seq::<Action>::empty(),
    {
        PendingQueue { actions: Vec::new() }
    }

    /// Appends one action at the tail; everything already queued stays,
    /// in order, ahead of it.
    pub fn enqueue(&mut self, action: Action)
        ensures
            final(self)@ == old(self)@.push(action),
    {
        self.actions.push(action);
    }

    /// Atomically removes and returns the whole queue contents as one
    /// snapshot, in arrival order, leaving the queue empty.
    pub fn drain_all(&mut self) -> (batch: Vec<Action>)
        ensures
            batch@ == old(self)@,
            final(self)@ =~= Seq::<Action>::empty(),
    {
        let mut batch: Vec<Action> = Vec::new();
        core::mem::swap(&mut batch, &mut self.actions);
        batch
    }

    /// How many actions are waiting.
    pub fn len(&self) -> (n: usize)
        ensures
            n == self@.len(),
    {
        self.actions.len()
    }
}

} // verus!
