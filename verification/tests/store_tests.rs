use bcoin_ledger::model::Outcome;
use bcoin_ledger::store::AccountStore;

#[test]
fn create_and_read_balance() {
    let mut store = AccountStore::new();
    assert_eq!(store.create_account(1, 500), Outcome::Applied);
    assert_eq!(store.get_balance(1), Some(500));
    assert_eq!(store.get_balance(2), None);
    assert_eq!(store.account_count(), 1);
}

#[test]
fn duplicate_create_is_reported_and_not_applied() {
    let mut store = AccountStore::new();
    assert_eq!(store.create_account(5, 10), Outcome::Applied);
    assert_eq!(store.create_account(5, 999), Outcome::DuplicateAccount);
    assert_eq!(store.get_balance(5), Some(10));
    assert_eq!(store.account_count(), 1);
}

#[test]
fn transfer_moves_exactly_the_amount() {
    let mut store = AccountStore::new();
    store.create_account(1, 100);
    store.create_account(2, 7);
    assert_eq!(store.apply_transfer(1, 2, 40), Outcome::Applied);
    assert_eq!(store.get_balance(1), Some(60));
    assert_eq!(store.get_balance(2), Some(47));
}

#[test]
fn transfer_with_insufficient_funds_has_no_effect() {
    let mut store = AccountStore::new();
    store.create_account(1, 30);
    store.create_account(2, 0);
    assert_eq!(store.apply_transfer(1, 2, 31), Outcome::InsufficientFunds);
    assert_eq!(store.get_balance(1), Some(30));
    assert_eq!(store.get_balance(2), Some(0));
}

#[test]
fn self_transfer_is_rejected() {
    let mut store = AccountStore::new();
    store.create_account(1, 100);
    assert_eq!(store.apply_transfer(1, 1, 10), Outcome::SameAccount);
    assert_eq!(store.get_balance(1), Some(100));
}

#[test]
fn transfer_to_missing_account_has_no_effect() {
    let mut store = AccountStore::new();
    store.create_account(1, 100);
    assert_eq!(store.apply_transfer(1, 2, 10), Outcome::AccountNotFound);
    assert_eq!(store.apply_transfer(3, 1, 10), Outcome::AccountNotFound);
    assert_eq!(store.get_balance(1), Some(100));
}

#[test]
fn create_that_overflows_the_total_is_rejected() {
    let mut store = AccountStore::new();
    assert_eq!(store.create_account(1, u64::MAX), Outcome::Applied);
    assert_eq!(store.create_account(2, 1), Outcome::BalanceOverflow);
    assert_eq!(store.get_balance(2), None);
    assert_eq!(store.total_balance(), u64::MAX);
}

#[test]
fn transfers_conserve_the_total() {
    let mut store = AccountStore::new();
    store.create_account(1, 1000);
    store.create_account(2, 250);
    store.create_account(3, 0);
    let before = store.total_balance();
    assert_eq!(store.apply_transfer(1, 2, 999), Outcome::Applied);
    assert_eq!(store.apply_transfer(2, 3, 1249), Outcome::Applied);
    assert_eq!(store.apply_transfer(3, 1, 2000), Outcome::InsufficientFunds);
    assert_eq!(store.total_balance(), before);
    assert_eq!(store.get_balance(1), Some(1));
    assert_eq!(store.get_balance(2), Some(0));
    assert_eq!(store.get_balance(3), Some(1249));
}
