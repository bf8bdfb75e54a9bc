use bcoin_ledger::gateway::{
    handle_request, query_balance, submit_create, submit_transfer, GatewayResponse,
};
use bcoin_ledger::model::{Action, Outcome};
use bcoin_ledger::queue::PendingQueue;
use bcoin_ledger::settle::settle_epoch;
use bcoin_ledger::store::AccountStore;

#[test]
fn create_request_is_acknowledged_and_queued() {
    let mut queue = PendingQueue::new();
    let r = submit_create(&mut queue, b"acct_id=7&balance_0=12.5");
    assert_eq!(r, GatewayResponse::CreateAck { acct_id: 7, balance_0: 1250 });
    assert_eq!(queue.len(), 1);
}

#[test]
fn create_request_field_order_does_not_matter() {
    let mut queue = PendingQueue::new();
    let r = submit_create(&mut queue, b"balance_0=3&acct_id=-2");
    assert_eq!(r, GatewayResponse::CreateAck { acct_id: -2, balance_0: 300 });
}

#[test]
fn missing_field_is_invalid_and_enqueues_nothing() {
    let mut queue = PendingQueue::new();
    assert_eq!(
        submit_create(&mut queue, b"acct_id=7"),
        GatewayResponse::InvalidParameters
    );
    assert_eq!(
        submit_create(&mut queue, b""),
        GatewayResponse::InvalidParameters
    );
    assert_eq!(
        submit_transfer(&mut queue, b"from_id=1&to_id=2"),
        GatewayResponse::InvalidParameters
    );
    assert_eq!(queue.len(), 0);
}

#[test]
fn duplicated_field_is_invalid() {
    let mut queue = PendingQueue::new();
    assert_eq!(
        submit_create(&mut queue, b"acct_id=1&acct_id=1&balance_0=5"),
        GatewayResponse::InvalidParameters
    );
    assert_eq!(queue.len(), 0);
}

#[test]
fn unknown_fields_are_ignored() {
    let mut queue = PendingQueue::new();
    let r = submit_create(&mut queue, b"extra=1&acct_id=3&balance_0=2&more=x");
    assert_eq!(r, GatewayResponse::CreateAck { acct_id: 3, balance_0: 200 });
}

#[test]
fn malformed_numbers_are_invalid() {
    let mut queue = PendingQueue::new();
    assert_eq!(
        submit_create(&mut queue, b"acct_id=abc&balance_0=5"),
        GatewayResponse::InvalidParameters
    );
    assert_eq!(
        submit_create(&mut queue, b"acct_id=1&balance_0=-5"),
        GatewayResponse::InvalidParameters
    );
    assert_eq!(
        submit_create(&mut queue, b"acct_id=2147483648&balance_0=5"),
        GatewayResponse::InvalidParameters
    );
    assert_eq!(
        submit_transfer(&mut queue, b"from_id=1&to_id=2&amount=1.234"),
        GatewayResponse::InvalidParameters
    );
    assert_eq!(queue.len(), 0);
}

#[test]
fn percent_encoded_values_are_decoded_before_parsing() {
    let mut queue = PendingQueue::new();
    let r = submit_create(&mut queue, b"acct_id=%31%32&balance_0=4%2E5");
    assert_eq!(r, GatewayResponse::CreateAck { acct_id: 12, balance_0: 450 });
}

#[test]
fn transfer_request_is_acknowledged_without_funds_check() {
    let mut queue = PendingQueue::new();
    // No account exists, yet submission is acknowledged: validation of
    // existence and funds happens only at settlement.
    let r = submit_transfer(&mut queue, b"from_id=1&to_id=2&amount=50");
    assert_eq!(r, GatewayResponse::TransferAck);
    assert_eq!(queue.len(), 1);
    let mut store = AccountStore::new();
    let outcomes = settle_epoch(&mut queue, &mut store);
    assert_eq!(outcomes, vec![Outcome::AccountNotFound]);
}

#[test]
fn balance_query_reads_the_store_only() {
    let mut queue = PendingQueue::new();
    let mut store = AccountStore::new();
    queue.enqueue(Action::CreateAccount { acct_id: 9, balance_0: 77 });
    // Not settled yet: the account is invisible.
    assert_eq!(
        query_balance(&store, b"acct_id=9"),
        GatewayResponse::NoAccountFound
    );
    settle_epoch(&mut queue, &mut store);
    assert_eq!(
        query_balance(&store, b"acct_id=9"),
        GatewayResponse::Balance { amount: 77 }
    );
    assert_eq!(
        query_balance(&store, b"acct_id=nine"),
        GatewayResponse::InvalidParameters
    );
}

#[test]
fn unknown_method_or_path_is_unrecognized() {
    let mut queue = PendingQueue::new();
    let store = AccountStore::new();
    assert_eq!(
        handle_request(&mut queue, &store, b"POST", b"/create-account", b"acct_id=1&balance_0=1"),
        GatewayResponse::Unrecognized
    );
    assert_eq!(
        handle_request(&mut queue, &store, b"GET", b"/other", b"x=1"),
        GatewayResponse::Unrecognized
    );
    assert_eq!(queue.len(), 0);
}
