use bcoin_ledger::gateway::{handle_request, GatewayResponse};
use bcoin_ledger::model::{Action, Outcome};
use bcoin_ledger::queue::PendingQueue;
use bcoin_ledger::settle::settle_epoch;
use bcoin_ledger::store::AccountStore;

#[test]
fn settlement_is_fifo_within_an_epoch() {
    // The transfer is queued before account 2 exists; in arrival order it
    // settles first and fails, even though a creation for account 2 sits
    // right behind it in the same epoch.
    let mut queue = PendingQueue::new();
    let mut store = AccountStore::new();
    queue.enqueue(Action::CreateAccount { acct_id: 1, balance_0: 100 });
    queue.enqueue(Action::Transfer { from_id: 1, to_id: 2, amount: 50 });
    queue.enqueue(Action::CreateAccount { acct_id: 2, balance_0: 0 });
    let outcomes = settle_epoch(&mut queue, &mut store);
    assert_eq!(
        outcomes,
        vec![Outcome::Applied, Outcome::AccountNotFound, Outcome::Applied]
    );
    assert_eq!(store.get_balance(1), Some(100));
    assert_eq!(store.get_balance(2), Some(0));

    // Reordered so the creation arrives first, the same transfer succeeds.
    let mut queue = PendingQueue::new();
    let mut store = AccountStore::new();
    queue.enqueue(Action::CreateAccount { acct_id: 1, balance_0: 100 });
    queue.enqueue(Action::CreateAccount { acct_id: 2, balance_0: 0 });
    queue.enqueue(Action::Transfer { from_id: 1, to_id: 2, amount: 50 });
    let outcomes = settle_epoch(&mut queue, &mut store);
    assert_eq!(
        outcomes,
        vec![Outcome::Applied, Outcome::Applied, Outcome::Applied]
    );
    assert_eq!(store.get_balance(1), Some(50));
    assert_eq!(store.get_balance(2), Some(50));
}

#[test]
fn duplicate_create_in_one_epoch_is_idempotent() {
    let mut queue = PendingQueue::new();
    let mut store = AccountStore::new();
    queue.enqueue(Action::CreateAccount { acct_id: 5, balance_0: 10 });
    queue.enqueue(Action::CreateAccount { acct_id: 5, balance_0: 10 });
    let outcomes = settle_epoch(&mut queue, &mut store);
    assert_eq!(outcomes, vec![Outcome::Applied, Outcome::DuplicateAccount]);
    assert_eq!(store.account_count(), 1);
    assert_eq!(store.get_balance(5), Some(10));
}

#[test]
fn duplicate_create_never_resets_the_balance() {
    let mut queue = PendingQueue::new();
    let mut store = AccountStore::new();
    queue.enqueue(Action::CreateAccount { acct_id: 5, balance_0: 10 });
    queue.enqueue(Action::CreateAccount { acct_id: 5, balance_0: 9999 });
    let outcomes = settle_epoch(&mut queue, &mut store);
    assert_eq!(outcomes, vec![Outcome::Applied, Outcome::DuplicateAccount]);
    assert_eq!(store.get_balance(5), Some(10));
}

#[test]
fn every_enqueued_action_settles_in_exactly_one_epoch() {
    // Actions queued after a drain land whole in the next epoch: across two
    // consecutive epochs each of the five actions is settled exactly once.
    let mut queue = PendingQueue::new();
    let mut store = AccountStore::new();
    queue.enqueue(Action::CreateAccount { acct_id: 1, balance_0: 100 });
    queue.enqueue(Action::CreateAccount { acct_id: 2, balance_0: 0 });
    queue.enqueue(Action::Transfer { from_id: 1, to_id: 2, amount: 10 });
    let first = settle_epoch(&mut queue, &mut store);
    assert_eq!(first.len(), 3);
    assert_eq!(queue.len(), 0);
    queue.enqueue(Action::Transfer { from_id: 1, to_id: 2, amount: 10 });
    queue.enqueue(Action::Transfer { from_id: 2, to_id: 1, amount: 5 });
    let second = settle_epoch(&mut queue, &mut store);
    assert_eq!(second.len(), 2);
    assert_eq!(queue.len(), 0);
    assert_eq!(first.len() + second.len(), 5);
    assert_eq!(store.get_balance(1), Some(85));
    assert_eq!(store.get_balance(2), Some(15));
}

#[test]
fn settling_transfers_conserves_the_total() {
    let mut queue = PendingQueue::new();
    let mut store = AccountStore::new();
    queue.enqueue(Action::CreateAccount { acct_id: 1, balance_0: 700 });
    queue.enqueue(Action::CreateAccount { acct_id: 2, balance_0: 300 });
    settle_epoch(&mut queue, &mut store);
    let before = store.total_balance();
    assert_eq!(before, 1000);
    queue.enqueue(Action::Transfer { from_id: 1, to_id: 2, amount: 650 });
    queue.enqueue(Action::Transfer { from_id: 2, to_id: 1, amount: 950 });
    queue.enqueue(Action::Transfer { from_id: 2, to_id: 1, amount: 1 });
    let outcomes = settle_epoch(&mut queue, &mut store);
    assert_eq!(
        outcomes,
        vec![Outcome::Applied, Outcome::Applied, Outcome::InsufficientFunds]
    );
    assert_eq!(store.total_balance(), before);
}

#[test]
fn no_balance_ever_goes_negative() {
    // A transfer may take at most what the source holds; draining an
    // account to exactly zero is the lowest reachable balance.
    let mut queue = PendingQueue::new();
    let mut store = AccountStore::new();
    queue.enqueue(Action::CreateAccount { acct_id: 1, balance_0: 5 });
    queue.enqueue(Action::CreateAccount { acct_id: 2, balance_0: 0 });
    queue.enqueue(Action::Transfer { from_id: 1, to_id: 2, amount: 5 });
    queue.enqueue(Action::Transfer { from_id: 1, to_id: 2, amount: 1 });
    let outcomes = settle_epoch(&mut queue, &mut store);
    assert_eq!(
        outcomes,
        vec![
            Outcome::Applied,
            Outcome::Applied,
            Outcome::Applied,
            Outcome::InsufficientFunds
        ]
    );
    assert_eq!(store.get_balance(1), Some(0));
    assert_eq!(store.get_balance(2), Some(5));
}

#[test]
fn queries_see_whole_epochs_only() {
    // A balance query runs against the store alone: before settlement it
    // sees the previous epoch's state, after settlement the whole new one.
    let mut queue = PendingQueue::new();
    let mut store = AccountStore::new();
    queue.enqueue(Action::CreateAccount { acct_id: 1, balance_0: 100 });
    queue.enqueue(Action::CreateAccount { acct_id: 2, balance_0: 0 });
    settle_epoch(&mut queue, &mut store);
    queue.enqueue(Action::Transfer { from_id: 1, to_id: 2, amount: 30 });
    queue.enqueue(Action::Transfer { from_id: 1, to_id: 2, amount: 20 });
    // Pending actions are invisible to queries.
    assert_eq!(store.get_balance(1), Some(100));
    assert_eq!(store.get_balance(2), Some(0));
    settle_epoch(&mut queue, &mut store);
    // After the epoch, both of its actions are visible at once.
    assert_eq!(store.get_balance(1), Some(50));
    assert_eq!(store.get_balance(2), Some(50));
}

#[test]
fn end_to_end_create_create_transfer_one_epoch() {
    // Amounts travel as decimal text and live as hundredths: 100.0 coins
    // are 10000 units.
    let mut queue = PendingQueue::new();
    let mut store = AccountStore::new();
    let r1 = handle_request(
        &mut queue,
        &store,
        b"GET",
        b"/create-account",
        b"acct_id=1&balance_0=100.0",
    );
    assert_eq!(
        r1,
        GatewayResponse::CreateAck { acct_id: 1, balance_0: 10000 }
    );
    let r2 = handle_request(
        &mut queue,
        &store,
        b"GET",
        b"/create-account",
        b"acct_id=2&balance_0=0.0",
    );
    assert_eq!(r2, GatewayResponse::CreateAck { acct_id: 2, balance_0: 0 });
    let r3 = handle_request(
        &mut queue,
        &store,
        b"GET",
        b"/transfer",
        b"from_id=1&to_id=2&amount=40.0",
    );
    assert_eq!(r3, GatewayResponse::TransferAck);
    let outcomes = settle_epoch(&mut queue, &mut store);
    assert_eq!(
        outcomes,
        vec![Outcome::Applied, Outcome::Applied, Outcome::Applied]
    );
    let b1 = handle_request(&mut queue, &store, b"GET", b"/balance", b"acct_id=1");
    assert_eq!(b1, GatewayResponse::Balance { amount: 6000 });
    let b2 = handle_request(&mut queue, &store, b"GET", b"/balance", b"acct_id=2");
    assert_eq!(b2, GatewayResponse::Balance { amount: 4000 });
}
