//! The settlement pass: drain the pending queue and apply every action to
//! the account store in arrival order.
//!
//! Each action settles independently — a rejected action never aborts the
//! rest of the batch — and each gets an outcome for observability. The
//! caller holds the store exclusively for the whole pass, so a balance query
//! observes either no action of an epoch or all of them, never a partially
//! applied epoch.

use vstd::prelude::*;

use crate::model::{apply_step, settle_seq, Action, Outcome};
use crate::queue::PendingQueue;
use crate::store::AccountStore;

verus! {

/// Applies one action to the store and reports its outcome.
pub fn apply_action(store: &mut AccountStore, action: &Action) -> (o: Outcome)
    requires
        old(store).wf(),
    ensures
        final(store).wf(),
        final(store).model() == apply_step(old(store).model(), *action).0,
        o == apply_step(old(store).model(), *action).1,
{
    match action {
        Action::CreateAccount { acct_id, balance_0 } => store.create_account(*acct_id, *balance_0),
        Action::Transfer { from_id, to_id, amount } => store.apply_transfer(
            *from_id,
            *to_id,
            *amount,
        ),
    }
}

/// One settlement epoch: snapshot-and-clear the queue, then apply the
/// snapshot to the store in arrival order, returning one outcome per
/// action, in the same order.
pub fn settle_epoch(queue: &mut PendingQueue, store: &mut AccountStore) -> (outcomes: Vec<Outcome>)
    requires
        old(store).wf(),
    ensures
        final(store).wf(),
        final(queue)@.len() == 0,
        final(store).model() == settle_seq(old(store).model(), old(queue)@).0,
        outcomes@ == settle_seq(old(store).model(), old(queue)@).1,
{
    let batch = queue.drain_all();
    let ghost m0 = store.model();
    let mut outcomes: Vec<Outcome> = Vec::new();
    let mut i: usize = 0;
    proof {
        assert(batch@.take(0) =~= Seq::<Action>::empty());
        assert(settle_seq(m0, batch@.take(0)).0 == m0);
        assert(settle_seq(m0, batch@.take(0)).1 =~= Seq::<Outcome>::empty());
        assert(outcomes@ =~= Seq::<Outcome>::empty());
    }
    while i < batch.len()
        invariant
            i <= batch@.len(),
            store.wf(),
            store.model() == settle_seq(m0, batch@.take(i as int)).0,
            outcomes@ == settle_seq(m0, batch@.take(i as int)).1,
        decreases batch@.len() - i,
    {
        let o = apply_action(store, &batch[i]);
        outcomes.push(o);
        proof {
            assert(batch@.take(i + 1) =~= batch@.take(i as int).push(batch@[i as int]));
            crate::model::lemma_settle_seq_push(m0, batch@.take(i as int), batch@[i as int]);
        }
        i += 1;
    }
    proof {
        assert(batch@.take(batch@.len() as int) =~= batch@);
    }
    outcomes
}

} // verus!
