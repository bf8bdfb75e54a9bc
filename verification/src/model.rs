//! The mathematical model of the ledger.
//!
//! A ledger state is a finite map from account identifier to balance together
//! with the total held across all accounts. Settlement is a fold of
//! per-action transitions over that state, in arrival order. The executable
//! store and settlement code are specified against these functions, and the
//! ledger's laws (conservation, non-negativity, idempotent creation) are
//! proved about them.

use vstd::prelude::*;

verus! {

/// The per-action result that settlement records for observability.
#[derive(Clone, Copy, Debug, PartialEq, Eq, Structural)]
pub enum Outcome {
    /// The action was applied to the account store.
    Applied,
    /// A creation named an identifier that already has an account.
    DuplicateAccount,
    /// A transfer named an account that does not exist.
    AccountNotFound,
    /// A transfer named the same account on both sides.
    SameAccount,
    /// A transfer asked for more than the source account holds.
    InsufficientFunds,
    /// A creation would push the total held past what a `u64` can count.
    BalanceOverflow,
}

/// A queued intent, validated by the gateway but not yet applied.
#[derive(Clone, Copy, Debug, PartialEq, Eq, Structural)]
pub enum Action {
    CreateAccount { acct_id: i32, balance_0: u64 },
    Transfer { from_id: i32, to_id: i32, amount: u64 },
}

/// The abstract ledger state: every account's balance, and the total held.
#[verifier::ext_equal]
pub struct LedgerModel {
    pub balances: Map<int, int>,
    pub total: int,
}

/// How a `CreateAccount` action changes the ledger: a fresh identifier gains
/// an account with the given balance; a known identifier leaves the ledger
/// unchanged and is reported as a duplicate; a balance the total cannot
/// absorb leaves the ledger unchanged and is reported as overflow.
pub open spec fn create_step(s: LedgerModel, id: int, bal: int) -> (LedgerModel, Outcome) {
    if s.balances.dom().contains(id) {
        (s, Outcome::DuplicateAccount)
    } else if s.total + bal > u64::MAX {
        (s, Outcome::BalanceOverflow)
    } else {
        (
            LedgerModel { balances: s.balances.insert(id, bal), total: s.total + bal },
            Outcome::Applied,
        )
    }
}

/// How a `Transfer` action changes the ledger: a self-transfer or a transfer
/// touching an unknown account or exceeding the source's balance is rejected
/// with no effect; otherwise the source is debited and the destination
/// credited by exactly the amount, and the total is unchanged.
pub open spec fn transfer_step(s: LedgerModel, from: int, to: int, amount: int) -> (
    LedgerModel,
    Outcome,
) {
    if from == to {
        (s, Outcome::SameAccount)
    } else if !s.balances.dom().contains(from) || !s.balances.dom().contains(to) {
        (s, Outcome::AccountNotFound)
    } else if s.balances[from] < amount {
        (s, Outcome::InsufficientFunds)
    } else {
        (
            LedgerModel {
                balances: s.balances.insert(from, s.balances[from] - amount).insert(
                    to,
                    s.balances[to] + amount,
                ),
                total: s.total,
            },
            Outcome::Applied,
        )
    }
}

/// One settlement step: dispatch an action to its transition.
pub open spec fn apply_step(s: LedgerModel, a: Action) -> (LedgerModel, Outcome) {
    match a {
        Action::CreateAccount { acct_id, balance_0 } => create_step(
            s,
            acct_id as int,
            balance_0 as int,
        ),
        Action::Transfer { from_id, to_id, amount } => transfer_step(
            s,
            from_id as int,
            to_id as int,
            amount as int,
        ),
    }
}

/// Settling a batch: fold `apply_step` over the actions in arrival order,
/// recording one outcome per action. A rejected action never aborts the rest
/// of the batch.
pub open spec fn settle_seq(s: LedgerModel, actions: Seq<Action>) -> (LedgerModel, Seq<Outcome>)
    decreases actions.len(),
{
    if actions.len() == 0 {
        (s, Seq::<Outcome>::empty())
    } else {
        let (s1, o) = apply_step(s, actions[0]);
        let (s2, os) = settle_seq(s1, actions.drop_first());
        (s2, seq![o] + os)
    }
}

/// Unrolling `settle_seq` from the tail: settling `actions.push(a)` settles
/// `actions` and then applies `a` to the result.
pub proof fn lemma_settle_seq_push(s: LedgerModel, actions: Seq<Action>, a: Action)
    ensures
        settle_seq(s, actions.push(a)).0 == apply_step(settle_seq(s, actions).0, a).0,
        settle_seq(s, actions.push(a)).1 == settle_seq(s, actions).1.push(
            apply_step(settle_seq(s, actions).0, a).1,
        ),
    decreases actions.len(),
{
    if actions.len() == 0 {
        let p = actions.push(a);
        assert(p[0] == a);
        assert(p.drop_first() =~= Seq::<Action>::empty());
        let (s1, o) = apply_step(s, a);
        assert(settle_seq(s1, p.drop_first()).0 == s1);
        assert(settle_seq(s1, p.drop_first()).1 =~= Seq::<Outcome>::empty());
        assert(settle_seq(s, p).0 == s1);
        assert(settle_seq(s, p).1 =~= seq![o]);
        assert(settle_seq(s, actions).0 == s);
        assert(settle_seq(s, actions).1 =~= Seq::<Outcome>::empty());
        assert(settle_seq(s, actions).1.push(o) =~= seq![o]);
    } else {
        assert(actions.push(a)[0] == actions[0]);
        assert(actions.push(a).drop_first() =~= actions.drop_first().push(a));
        let (s1, o) = apply_step(s, actions[0]);
        lemma_settle_seq_push(s1, actions.drop_first(), a);
        assert(settle_seq(s, actions.push(a)).1 =~= settle_seq(s, actions).1.push(
            apply_step(settle_seq(s, actions).0, a).1,
        ));
    }
}

/// Epoch composition: splitting a stream of actions at any point into two
/// consecutive epochs settles every action exactly once, in order, with
/// exactly the state and outcomes of settling the whole stream at once. An
/// action that misses one drain's snapshot and lands in the next epoch is
/// therefore never lost, duplicated or reordered.
pub proof fn lemma_settle_seq_concat(s: LedgerModel, a: Seq<Action>, b: Seq<Action>)
    ensures
        settle_seq(s, a + b).0 == settle_seq(settle_seq(s, a).0, b).0,
        settle_seq(s, a + b).1 == settle_seq(s, a).1 + settle_seq(settle_seq(s, a).0, b).1,
    decreases a.len(),
{
    if a.len() == 0 {
        assert(a + b =~= b);
        assert(settle_seq(s, a).0 == s);
        assert(settle_seq(s, a).1 =~= Seq::<Outcome>::empty());
        assert(settle_seq(s, a).1 + settle_seq(s, b).1 =~= settle_seq(s, b).1);
    } else {
        assert((a + b)[0] == a[0]);
        assert((a + b).drop_first() =~= a.drop_first() + b);
        let (s1, o) = apply_step(s, a[0]);
        lemma_settle_seq_concat(s1, a.drop_first(), b);
        assert(settle_seq(s, a + b).1 =~= settle_seq(s, a).1 + settle_seq(
            settle_seq(s, a).0,
            b,
        ).1);
    }
}

/// Conservation: a batch made of transfers alone never changes the total
/// held across all accounts, whether each transfer applies or is rejected.
pub proof fn lemma_transfers_conserve_total(s: LedgerModel, actions: Seq<Action>)
    requires
        forall|i: int| 0 <= i < actions.len() ==> actions[i] is Transfer,
    ensures
        settle_seq(s, actions).0.total == s.total,
    decreases actions.len(),
{
    if actions.len() > 0 {
        let (s1, _) = apply_step(s, actions[0]);
        assert(s1.total == s.total);
        lemma_transfers_conserve_total(s1, actions.drop_first());
    }
}

/// Every balance in the ledger is non-negative.
pub open spec fn all_balances_nonneg(s: LedgerModel) -> bool {
    forall|id: int| s.balances.dom().contains(id) ==> s.balances[id] >= 0
}

/// No negative balances: settling any batch keeps every balance at or above
/// zero, because creations carry unsigned balances and a transfer only
/// debits a source that holds at least the amount.
pub proof fn lemma_settle_preserves_nonneg(s: LedgerModel, actions: Seq<Action>)
    requires
        all_balances_nonneg(s),
    ensures
        all_balances_nonneg(settle_seq(s, actions).0),
    decreases actions.len(),
{
    if actions.len() > 0 {
        let (s1, _) = apply_step(s, actions[0]);
        assert(all_balances_nonneg(s1));
        lemma_settle_preserves_nonneg(s1, actions.drop_first());
    }
}

/// Idempotent duplicate creation: once a creation for an identifier has been
/// seen — whether it applied or was itself a duplicate — repeating it with
/// any balance leaves the ledger exactly as it was and reports a duplicate,
/// never a reset.
pub proof fn lemma_duplicate_create(s: LedgerModel, id: int, bal: int, bal2: int)
    requires
        create_step(s, id, bal).1 == Outcome::Applied || create_step(s, id, bal).1
            == Outcome::DuplicateAccount,
    ensures
        create_step(create_step(s, id, bal).0, id, bal2) == (
            create_step(s, id, bal).0,
            Outcome::DuplicateAccount,
        ),
{
}

} // verus!
