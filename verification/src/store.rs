//! The account store: the authoritative mapping of account identifier to
//! balance.
//!
//! The store is a sequence of accounts with pairwise-distinct identifiers,
//! together with a cached total of all balances. Its well-formedness
//! invariant ties the cached total to the actual sum, which both rules out
//! arithmetic overflow in transfers and makes conservation observable. Every
//! operation's contract is stated against the map-level model in
//! [`crate::model`].

use vstd::prelude::*;

use crate::model::{
    create_step, lemma_transfers_conserve_total, settle_seq, transfer_step, Action, LedgerModel,
    Outcome,
};

verus! {

/// One account: an identifier and its current balance, in fixed-point units.
#[derive(Clone, Copy, Debug, PartialEq, Eq, Structural)]
pub struct Account {
    pub acct_id: i32,
    pub balance: u64,
}

/// Whether some account in `s` has the identifier `id`.
pub open spec fn contains_id(s: Seq<Account>, id: int) -> bool {
    exists|i: int| 0 <= i < s.len() && s[i].acct_id as int == id
}

/// The balance of the first account in `s` with identifier `id`, or zero if
/// there is none. With distinct identifiers, "first" is "only".
pub open spec fn balance_of(s: Seq<Account>, id: int) -> int
    decreases s.len(),
{
    if s.len() == 0 {
        0
    } else if s[0].acct_id as int == id {
        s[0].balance as int
    } else {
        balance_of(s.drop_first(), id)
    }
}

/// The sum of all balances in `s`.
pub open spec fn sum_balances(s: Seq<Account>) -> int
    decreases s.len(),
{
    if s.len() == 0 {
        0
    } else {
        s[0].balance + sum_balances(s.drop_first())
    }
}

/// No two accounts in `s` share an identifier.
pub open spec fn ids_unique(s: Seq<Account>) -> bool {
    forall|i: int, j: int| 0 <= i < j < s.len() ==> s[i].acct_id != s[j].acct_id
}

/// The mapping that a sequence of accounts represents.
pub open spec fn store_map(s: Seq<Account>) -> Map<int, int> {
    Map::new(|id: int| contains_id(s, id), |id: int| balance_of(s, id))
}

/// With distinct identifiers, the balance recorded for an account's
/// identifier is that account's balance.
proof fn lemma_balance_of_found(s: Seq<Account>, i: int)
    requires
        ids_unique(s),
        0 <= i < s.len(),
    ensures
        balance_of(s, s[i].acct_id as int) == s[i].balance as int,
    decreases s.len(),
{
    if i > 0 {
        assert(s[0].acct_id != s[i].acct_id);
        assert(s.drop_first()[i - 1] == s[i]);
        lemma_balance_of_found(s.drop_first(), i - 1);
    }
}

/// Appending an account resolves `balance_of` for every identifier.
proof fn lemma_balance_of_push(s: Seq<Account>, a: Account, id: int)
    ensures
        balance_of(s.push(a), id) == if contains_id(s, id) {
            balance_of(s, id)
        } else if a.acct_id as int == id {
            a.balance as int
        } else {
            0
        },
    decreases s.len(),
{
    if s.len() == 0 {
        assert(s.push(a)[0] == a);
        assert(s.push(a).drop_first() =~= Seq::<Account>::empty());
        assert(balance_of(Seq::<Account>::empty(), id) == 0);
    } else {
        assert(s.push(a)[0] == s[0]);
        assert(s.push(a).drop_first() =~= s.drop_first().push(a));
        lemma_balance_of_push(s.drop_first(), a, id);
        if s[0].acct_id as int != id {
            assert(contains_id(s, id) <==> contains_id(s.drop_first(), id)) by {
                if contains_id(s, id) {
                    let w = choose|w: int| 0 <= w < s.len() && s[w].acct_id as int == id;
                    assert(s.drop_first()[w - 1] == s[w]);
                }
                if contains_id(s.drop_first(), id) {
                    let w = choose|w: int|
                        0 <= w < s.drop_first().len() && s.drop_first()[w].acct_id as int == id;
                    assert(s[w + 1] == s.drop_first()[w]);
                }
            }
        }
    }
}

/// Appending an account adds its balance to the sum.
proof fn lemma_sum_push(s: Seq<Account>, a: Account)
    ensures
        sum_balances(s.push(a)) == sum_balances(s) + a.balance,
    decreases s.len(),
{
    if s.len() == 0 {
        assert(s.push(a)[0] == a);
        assert(s.push(a).drop_first() =~= Seq::<Account>::empty());
        assert(sum_balances(Seq::<Account>::empty()) == 0);
    } else {
        assert(s.push(a)[0] == s[0]);
        assert(s.push(a).drop_first() =~= s.drop_first().push(a));
        lemma_sum_push(s.drop_first(), a);
    }
}

/// Appending an account with a fresh identifier inserts it into the map.
proof fn lemma_push_fresh(s: Seq<Account>, a: Account)
    requires
        ids_unique(s),
        !contains_id(s, a.acct_id as int),
    ensures
        ids_unique(s.push(a)),
        store_map(s.push(a)) == store_map(s).insert(a.acct_id as int, a.balance as int),
        sum_balances(s.push(a)) == sum_balances(s) + a.balance,
{
    lemma_sum_push(s, a);
    assert forall|id: int| true implies balance_of(s.push(a), id) == if contains_id(s, id) {
        balance_of(s, id)
    } else if a.acct_id as int == id {
        a.balance as int
    } else {
        0
    } by {
        lemma_balance_of_push(s, a, id);
    }
    assert forall|id: int| contains_id(s.push(a), id) implies contains_id(s, id) || id
        == a.acct_id as int by {
        let w = choose|w: int| 0 <= w < s.push(a).len() && s.push(a)[w].acct_id as int == id;
        if w < s.len() {
            assert(s[w] == s.push(a)[w]);
        }
    }
    assert forall|id: int| contains_id(s, id) implies contains_id(s.push(a), id) by {
        let w = choose|w: int| 0 <= w < s.len() && s[w].acct_id as int == id;
        assert(s.push(a)[w] == s[w]);
    }
    assert(contains_id(s.push(a), a.acct_id as int)) by {
        assert(s.push(a)[s.len() as int] == a);
    }
    assert(store_map(s.push(a)) =~= store_map(s).insert(a.acct_id as int, a.balance as int));
}

/// Replacing an account with one of the same identifier updates the map at
/// that identifier and shifts the sum by the balance difference.
proof fn lemma_balance_of_update(s: Seq<Account>, i: int, a: Account, id: int)
    requires
        ids_unique(s),
        0 <= i < s.len(),
        s[i].acct_id == a.acct_id,
    ensures
        balance_of(s.update(i, a), id) == if a.acct_id as int == id {
            a.balance as int
        } else {
            balance_of(s, id)
        },
    decreases s.len(),
{
    let s2 = s.update(i, a);
    if i == 0 {
        assert(s2[0] == a);
        if a.acct_id as int != id {
            assert(s2.drop_first() =~= s.drop_first());
        }
    } else {
        assert(s2[0] == s[0]);
        assert(s[0].acct_id != s[i].acct_id);
        assert(s2.drop_first() =~= s.drop_first().update(i - 1, a));
        assert(s.drop_first()[i - 1] == s[i]);
        lemma_balance_of_update(s.drop_first(), i - 1, a, id);
    }
}

/// Replacing an account changes the sum by the difference of balances.
proof fn lemma_sum_update(s: Seq<Account>, i: int, a: Account)
    requires
        0 <= i < s.len(),
    ensures
        sum_balances(s.update(i, a)) == sum_balances(s) - s[i].balance + a.balance,
    decreases s.len(),
{
    let s2 = s.update(i, a);
    if i == 0 {
        assert(s2[0] == a);
        assert(s2.drop_first() =~= s.drop_first());
    } else {
        assert(s2[0] == s[0]);
        assert(s2.drop_first() =~= s.drop_first().update(i - 1, a));
        assert(s.drop_first()[i - 1] == s[i]);
        lemma_sum_update(s.drop_first(), i - 1, a);
    }
}

/// Replacing an account with one of the same identifier: the map gains the
/// new balance at that identifier and nothing else moves.
proof fn lemma_update(s: Seq<Account>, i: int, a: Account)
    requires
        ids_unique(s),
        0 <= i < s.len(),
        s[i].acct_id == a.acct_id,
    ensures
        ids_unique(s.update(i, a)),
        store_map(s.update(i, a)) == store_map(s).insert(a.acct_id as int, a.balance as int),
        sum_balances(s.update(i, a)) == sum_balances(s) - s[i].balance + a.balance,
{
    let s2 = s.update(i, a);
    lemma_sum_update(s, i, a);
    assert forall|id: int| true implies balance_of(s2, id) == if a.acct_id as int == id {
        a.balance as int
    } else {
        balance_of(s, id)
    } by {
        lemma_balance_of_update(s, i, a, id);
    }
    assert forall|id: int| contains_id(s2, id) implies contains_id(s, id) by {
        let w = choose|w: int| 0 <= w < s2.len() && s2[w].acct_id as int == id;
        assert(s[w].acct_id == s2[w].acct_id);
    }
    assert forall|id: int| contains_id(s, id) implies contains_id(s2, id) by {
        let w = choose|w: int| 0 <= w < s.len() && s[w].acct_id as int == id;
        assert(s2[w].acct_id == s[w].acct_id);
    }
    assert(contains_id(s, a.acct_id as int)) by {
        assert(s[i].acct_id as int == a.acct_id as int);
    }
    assert(store_map(s2) =~= store_map(s).insert(a.acct_id as int, a.balance as int));
}

/// Every balance is non-negative, so the sum dominates each element.
proof fn lemma_elem_le_sum(s: Seq<Account>, i: int)
    requires
        0 <= i < s.len(),
    ensures
        s[i].balance <= sum_balances(s),
    decreases s.len(),
{
    lemma_sum_nonneg(s.drop_first());
    if i > 0 {
        assert(s.drop_first()[i - 1] == s[i]);
        lemma_elem_le_sum(s.drop_first(), i - 1);
    }
}

/// The sum of balances is never negative.
proof fn lemma_sum_nonneg(s: Seq<Account>)
    ensures
        sum_balances(s) >= 0,
    decreases s.len(),
{
    if s.len() > 0 {
        lemma_sum_nonneg(s.drop_first());
    }
}

/// Two distinct accounts together hold no more than the whole store.
proof fn lemma_pair_le_sum(s: Seq<Account>, i: int, j: int)
    requires
        0 <= i < s.len(),
        0 <= j < s.len(),
        i != j,
    ensures
        s[i].balance + s[j].balance <= sum_balances(s),
    decreases s.len(),
{
    if i == 0 {
        assert(s.drop_first()[j - 1] == s[j]);
        lemma_elem_le_sum(s.drop_first(), j - 1);
    } else if j == 0 {
        assert(s.drop_first()[i - 1] == s[i]);
        lemma_elem_le_sum(s.drop_first(), i - 1);
    } else {
        assert(s.drop_first()[i - 1] == s[i]);
        assert(s.drop_first()[j - 1] == s[j]);
        lemma_pair_le_sum(s.drop_first(), i - 1, j - 1);
        lemma_sum_nonneg(s.drop_first());
    }
}

/// The account store. The settlement worker is its only writer; the gateway
/// reads it to answer balance queries.
pub struct AccountStore {
    accts: Vec<Account>,
    total: u64,
}

impl AccountStore {
    /// The accounts currently in the store, in creation order.
    pub closed spec fn accounts_seq(self) -> Seq<Account> {
        self.accts@
    }

    /// The cached sum of all balances.
    pub closed spec fn spec_total(self) -> int {
        self.total as int
    }

    /// The ledger state this store represents.
    pub open spec fn model(self) -> LedgerModel {
        LedgerModel { balances: store_map(self.accounts_seq()), total: self.spec_total() }
    }

    /// Well-formedness: identifiers are pairwise distinct and the cached
    /// total is the sum of all balances. Since the total is a `u64`, the sum
    /// — and with it every individual balance — can never exceed `u64::MAX`.
    pub open spec fn wf(self) -> bool {
        &&& ids_unique(self.accounts_seq())
        &&& self.spec_total() == sum_balances(self.accounts_seq())
    }

    /// An empty store: no accounts, nothing held.
    pub fn new() -> (store: AccountStore)
        ensures
            store.wf(),
            store.model() == (LedgerModel { balances: Map::<int, int>::empty(), total: 0 }),
    {
        let store = AccountStore { accts: Vec::new(), total: 0 };
        proof {
            assert(store_map(store.accts@) =~= Map::<int, int>::empty());
        }
        store
    }

    /// The position of the account with the given identifier, if any.
    fn find_index(&self, acct_id: i32) -> (r: Option<usize>)
        ensures
            match r {
                Some(i) => i < self.accounts_seq().len() && self.accounts_seq()[i as int].acct_id
                    == acct_id && contains_id(self.accounts_seq(), acct_id as int),
                None => !contains_id(self.accounts_seq(), acct_id as int),
            },
    {
        let mut i: usize = 0;
        while i < self.accts.len()
            invariant
                i <= self.accts@.len(),
                forall|j: int| 0 <= j < i ==> self.accts@[j].acct_id != acct_id,
            decreases self.accts@.len() - i,
        {
            if self.accts[i].acct_id == acct_id {
                return Some(i);
            }
            i += 1;
        }
        None
    }

    /// Creates an account if the identifier is fresh; reports — and never
    /// silently overwrites — a duplicate; reports overflow when the total
    /// cannot absorb the starting balance.
    pub fn create_account(&mut self, acct_id: i32, balance_0: u64) -> (o: Outcome)
        requires
            old(self).wf(),
        ensures
            final(self).wf(),
            final(self).model() == create_step(
                old(self).model(),
                acct_id as int,
                balance_0 as int,
            ).0,
            o == create_step(old(self).model(), acct_id as int, balance_0 as int).1,
    {
        match self.find_index(acct_id) {
            Some(_) => Outcome::DuplicateAccount,
            None => {
                if balance_0 > u64::MAX - self.total {
                    Outcome::BalanceOverflow
                } else {
                    let ghost s0 = self.accts@;
                    let a = Account { acct_id, balance: balance_0 };
                    self.accts.push(a);
                    self.total = self.total + balance_0;
                    proof {
                        lemma_push_fresh(s0, a);
                        assert(final(self).model() =~= create_step(
                            old(self).model(),
                            acct_id as int,
                            balance_0 as int,
                        ).0);
                    }
                    Outcome::Applied
                }
            },
        }
    }

    /// A pure read of one account's balance, or `None` if the identifier is
    /// unknown.
    pub fn get_balance(&self, acct_id: i32) -> (r: Option<u64>)
        requires
            self.wf(),
        ensures
            match r {
                Some(b) => self.model().balances.dom().contains(acct_id as int) && b as int
                    == self.model().balances[acct_id as int],
                None => !self.model().balances.dom().contains(acct_id as int),
            },
    {
        match self.find_index(acct_id) {
            Some(i) => {
                proof {
                    lemma_balance_of_found(self.accts@, i as int);
                }
                Some(self.accts[i].balance)
            },
            None => None,
        }
    }

    /// Moves exactly `amount` from one account to another, atomically, or
    /// rejects the transfer with no partial effect: a self-transfer, an
    /// unknown account, or a source holding less than the amount each leave
    /// the store untouched and name the reason.
    pub fn apply_transfer(&mut self, from_id: i32, to_id: i32, amount: u64) -> (o: Outcome)
        requires
            old(self).wf(),
        ensures
            final(self).wf(),
            final(self).model() == transfer_step(
                old(self).model(),
                from_id as int,
                to_id as int,
                amount as int,
            ).0,
            o == transfer_step(old(self).model(), from_id as int, to_id as int, amount as int).1,
    {
        if from_id == to_id {
            return Outcome::SameAccount;
        }
        let fi = self.find_index(from_id);
        let ti = self.find_index(to_id);
        match (fi, ti) {
            (Some(f), Some(t)) => {
                let from_bal = self.accts[f].balance;
                let to_bal = self.accts[t].balance;
                proof {
                    lemma_balance_of_found(self.accts@, f as int);
                    lemma_balance_of_found(self.accts@, t as int);
                }
                if from_bal < amount {
                    Outcome::InsufficientFunds
                } else {
                    proof {
                        lemma_pair_le_sum(self.accts@, f as int, t as int);
                        lemma_sum_nonneg(self.accts@);
                    }
                    let ghost s0 = self.accts@;
                    let debited = Account { acct_id: from_id, balance: from_bal - amount };
                    let credited = Account { acct_id: to_id, balance: to_bal + amount };
                    self.accts[f] = debited;
                    proof {
                        lemma_update(s0, f as int, debited);
                    }
                    let ghost s1 = self.accts@;
                    self.accts[t] = credited;
                    proof {
                        lemma_update(s1, t as int, credited);
                        assert(final(self).model() =~= transfer_step(
                            old(self).model(),
                            from_id as int,
                            to_id as int,
                            amount as int,
                        ).0);
                    }
                    Outcome::Applied
                }
            },
            _ => Outcome::AccountNotFound,
        }
    }

    /// The number of accounts in the store.
    pub fn account_count(&self) -> (n: usize)
        ensures
            n == self.accounts_seq().len(),
    {
        self.accts.len()
    }

    /// The total held across all accounts. Under `wf` this is the exact sum
    /// of every balance, so two reads around a settlement of transfers show
    /// conservation directly.
    pub fn total_balance(&self) -> (t: u64)
        ensures
            t as int == self.model().total,
    {
        self.total
    }
}

/// Conservation: settling a batch made of transfers alone — applied or
/// rejected, in any mix — leaves the sum of all account balances exactly
/// as it was.
pub proof fn lemma_store_conservation(pre: AccountStore, post: AccountStore, actions: Seq<Action>)
    requires
        pre.wf(),
        post.wf(),
        post.model() == settle_seq(pre.model(), actions).0,
        forall|i: int| 0 <= i < actions.len() ==> actions[i] is Transfer,
    ensures
        sum_balances(post.accounts_seq()) == sum_balances(pre.accounts_seq()),
{
    lemma_transfers_conserve_total(pre.model(), actions);
}

} // verus!
