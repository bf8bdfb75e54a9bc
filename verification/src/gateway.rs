//! The request gateway: parses and validates each inbound request, enqueues
//! the resulting action or answers a balance query, and names the response
//! to send back.
//!
//! A query string is split into key/value pairs exactly as form decoding
//! does: segments at `&` (38), each segment at its first `=` (61), both
//! sides url-decoded. A field must be present exactly once to count;
//! unknown fields are ignored. Malformed or missing parameters are rejected
//! synchronously and enqueue nothing.

use vstd::prelude::*;

use crate::model::Action;
use crate::parse::{
    decode_component, first_index_of, lemma_first_index_of_is, parse_amount, parse_i32,
    percent_decode, spec_parse_amount, spec_parse_int,
};
use crate::queue::PendingQueue;
use crate::store::AccountStore;

verus! {

/// One decoded key/value pair of a query string.
pub struct QueryPair {
    pub key: Vec<u8>,
    pub value: Vec<u8>,
}

/// The pair as a value: its decoded key and decoded value.
pub open spec fn pair_view(p: QueryPair) -> (Seq<u8>, Seq<u8>) {
    (p.key@, p.value@)
}

/// A parsed query as a value: the pairs in order.
pub open spec fn pairs_view(v: Seq<QueryPair>) -> Seq<(Seq<u8>, Seq<u8>)> {
    v.map_values(|p: QueryPair| pair_view(p))
}

/// One segment split at its first `=` (61): the key before it, the value
/// after it — empty if there is none — both url-decoded.
pub open spec fn split_pair(seg: Seq<u8>) -> (Seq<u8>, Seq<u8>) {
    let e = first_index_of(seg, 61);
    if e == seg.len() {
        (decode_component(seg), Seq::<u8>::empty())
    } else {
        (decode_component(seg.take(e)), decode_component(seg.skip(e + 1)))
    }
}

/// The pairs of a query string: segments at `&` (38), empty segments
/// skipped, each remaining segment split into a pair.
pub open spec fn query_pairs(q: Seq<u8>) -> Seq<(Seq<u8>, Seq<u8>)>
    decreases q.len(),
    via query_pairs_decreases
{
    if q.len() == 0 {
        Seq::<(Seq<u8>, Seq<u8>)>::empty()
    } else {
        let a = first_index_of(q, 38);
        let head = if a > 0 {
            seq![split_pair(q.take(a))]
        } else {
            Seq::<(Seq<u8>, Seq<u8>)>::empty()
        };
        if a == q.len() {
            head
        } else {
            head + query_pairs(q.skip(a + 1))
        }
    }
}

#[via_fn]
proof fn query_pairs_decreases(q: Seq<u8>) {
    crate::parse::lemma_first_index_of(q, 38);
}

/// How often a key occurs among the pairs.
pub open spec fn count_key(ps: Seq<(Seq<u8>, Seq<u8>)>, name: Seq<u8>) -> int
    decreases ps.len(),
{
    if ps.len() == 0 {
        0
    } else {
        (if ps[0].0 == name {
            1int
        } else {
            0int
        }) + count_key(ps.drop_first(), name)
    }
}

/// The value of the first pair with the given key, or empty if there is
/// none.
pub open spec fn first_value(ps: Seq<(Seq<u8>, Seq<u8>)>, name: Seq<u8>) -> Seq<u8>
    decreases ps.len(),
{
    if ps.len() == 0 {
        Seq::<u8>::empty()
    } else if ps[0].0 == name {
        ps[0].1
    } else {
        first_value(ps.drop_first(), name)
    }
}

/// A field counts only when its key occurs exactly once: a missing field
/// and a duplicated one are both rejected, as form deserialization does.
pub open spec fn get_field(ps: Seq<(Seq<u8>, Seq<u8>)>, name: Seq<u8>) -> Option<Seq<u8>> {
    if count_key(ps, name) == 1 {
        Some(first_value(ps, name))
    } else {
        None
    }
}

/// The value at the first occurrence of a key is `first_value`.
proof fn lemma_first_value_at(ps: Seq<(Seq<u8>, Seq<u8>)>, name: Seq<u8>, fi: int)
    requires
        0 <= fi < ps.len(),
        ps[fi].0 == name,
        forall|k: int| 0 <= k < fi ==> ps[k].0 != name,
    ensures
        first_value(ps, name) == ps[fi].1,
    decreases ps.len(),
{
    if fi > 0 {
        assert(ps.drop_first()[fi - 1] == ps[fi]);
        assert forall|k: int| 0 <= k < fi - 1 implies ps.drop_first()[k].0 != name by {
            assert(ps.drop_first()[k] == ps[k + 1]);
        }
        lemma_first_value_at(ps.drop_first(), name, fi - 1);
    }
}

/// Whether two byte strings are equal.
fn bytes_eq(a: &[u8], b: &[u8]) -> (r: bool)
    ensures
        r == (a@ == b@),
{
    let n = a.len();
    if n != b.len() {
        return false;
    }
    let mut i: usize = 0;
    while i < n
        invariant
            0 <= i <= n,
            n == a@.len() == b@.len(),
            forall|k: int| 0 <= k < i ==> a@[k] == b@[k],
        decreases n - i,
    {
        if a[i] != b[i] {
            return false;
        }
        i += 1;
    }
    proof {
        assert(a@ =~= b@);
    }
    true
}

/// Splits a raw query string into its decoded pairs, exactly as
/// [`query_pairs`] says.
pub fn parse_query(q: &[u8]) -> (ps: Vec<QueryPair>)
    ensures
        pairs_view(ps@) == query_pairs(q@),
{
    let n = q.len();
    let mut out: Vec<QueryPair> = Vec::new();
    let mut i: usize = 0;
    proof {
        assert(q@.skip(0) =~= q@);
        assert(pairs_view(out@) =~= Seq::<(Seq<u8>, Seq<u8>)>::empty());
        assert(pairs_view(out@) + query_pairs(q@.skip(0)) =~= query_pairs(q@));
    }
    while i < n
        invariant
            0 <= i <= n,
            n == q@.len(),
            query_pairs(q@) == pairs_view(out@) + query_pairs(q@.skip(i as int)),
        decreases n - i,
    {
        let ghost rest = q@.skip(i as int);
        let mut j = i;
        while j < n && q[j] != 38
            invariant
                i <= j <= n,
                n == q@.len(),
                forall|k: int| i <= k < j ==> q@[k] != 38,
            decreases n - j,
        {
            j += 1;
        }
        proof {
            assert forall|k: int| 0 <= k < j - i implies rest[k] != 38 by {
                assert(rest[k] == q@[i + k]);
            }
            if j < n {
                assert(rest[j - i] == q@[j as int]);
            }
            lemma_first_index_of_is(rest, 38, j - i);
        }
        let ghost out0 = out@;
        let ghost a = j - i;
        if j > i {
            let seg = vstd::slice::slice_subrange(q, i, j);
            proof {
                assert(seg@ =~= rest.take(a));
            }
            let m = seg.len();
            let mut k: usize = 0;
            while k < m && seg[k] != 61
                invariant
                    0 <= k <= m,
                    m == seg@.len(),
                    forall|t: int| 0 <= t < k ==> seg@[t] != 61,
                decreases m - k,
            {
                k += 1;
            }
            proof {
                lemma_first_index_of_is(seg@, 61, k as int);
            }
            let pair: QueryPair = if k == m {
                let keyv = percent_decode(seg);
                QueryPair { key: keyv, value: Vec::new() }
            } else {
                let key_part = vstd::slice::slice_subrange(seg, 0, k);
                let val_part = vstd::slice::slice_subrange(seg, k + 1, m);
                proof {
                    assert(key_part@ =~= seg@.take(k as int));
                    assert(val_part@ =~= seg@.skip(k + 1));
                }
                let keyv = percent_decode(key_part);
                let valv = percent_decode(val_part);
                QueryPair { key: keyv, value: valv }
            };
            proof {
                assert(pair_view(pair) == split_pair(seg@));
            }
            out.push(pair);
            proof {
                assert(pairs_view(out@) =~= pairs_view(out0).push(split_pair(rest.take(a))));
            }
        }
        if j < n {
            i = j + 1;
            proof {
                assert(rest.skip(a + 1) =~= q@.skip(i as int));
            }
        } else {
            i = n;
            proof {
                assert(q@.skip(n as int) =~= Seq::<u8>::empty());
                assert(query_pairs(Seq::<u8>::empty()) =~= Seq::<(Seq<u8>, Seq<u8>)>::empty());
            }
        }
        proof {
            if a == 0 {
                assert(query_pairs(rest) == query_pairs(rest.skip(1)));
                assert(rest.skip(1) =~= q@.skip(i as int));
                assert(pairs_view(out@) + query_pairs(q@.skip(i as int)) =~= pairs_view(out0)
                    + query_pairs(rest));
            } else if j < n {
                assert(query_pairs(rest) == seq![split_pair(rest.take(a))] + query_pairs(
                    rest.skip(a + 1),
                ));
                assert(pairs_view(out@) + query_pairs(q@.skip(i as int)) =~= pairs_view(out0)
                    + query_pairs(rest));
            } else {
                assert(a == rest.len());
                assert(query_pairs(rest) == seq![split_pair(rest.take(a))]);
                assert(pairs_view(out@) + query_pairs(q@.skip(i as int)) =~= pairs_view(out0)
                    + query_pairs(rest));
            }
        }
    }
    proof {
        assert(q@.skip(n as int) =~= Seq::<u8>::empty());
        assert(query_pairs(Seq::<u8>::empty()) =~= Seq::<(Seq<u8>, Seq<u8>)>::empty());
        assert(pairs_view(out@) + query_pairs(q@.skip(n as int)) =~= pairs_view(out@));
    }
    out
}

/// The decoded value of the field `name`, if it occurs exactly once among
/// the pairs, exactly as [`get_field`] says.
pub fn get_field_value(ps: &Vec<QueryPair>, name: &[u8]) -> (r: Option<Vec<u8>>)
    ensures
        match r {
            Some(v) => get_field(pairs_view(ps@), name@) == Some(v@),
            None => get_field(pairs_view(ps@), name@) is None,
        },
{
    let ghost full = pairs_view(ps@);
    let n = ps.len();
    let mut cnt: usize = 0;
    let mut found: Option<usize> = None;
    let mut i: usize = 0;
    proof {
        assert(full.skip(0) =~= full);
    }
    while i < n
        invariant
            0 <= i <= n,
            n == ps@.len(),
            full == pairs_view(ps@),
            full.len() == n,
            cnt <= i,
            found is None ==> cnt == 0,
            found is Some ==> cnt >= 1,
            count_key(full, name@) == cnt + count_key(full.skip(i as int), name@),
            match found {
                Some(fi) => fi < i && full[fi as int].0 == name@ && (forall|k: int|
                    0 <= k < fi ==> full[k].0 != name@),
                None => forall|k: int| 0 <= k < i ==> full[k].0 != name@,
            },
        decreases n - i,
    {
        proof {
            assert(full.skip(i as int)[0] == full[i as int]);
            assert(full.skip(i as int).drop_first() =~= full.skip(i + 1));
            assert(full[i as int] == pair_view(ps@[i as int]));
        }
        let hit = bytes_eq(ps[i].key.as_slice(), name);
        if hit {
            cnt = cnt + 1;
            if cnt == 1 {
                found = Some(i);
            }
        }
        i += 1;
    }
    proof {
        assert(full.skip(n as int) =~= Seq::<(Seq<u8>, Seq<u8>)>::empty());
        assert(count_key(Seq::<(Seq<u8>, Seq<u8>)>::empty(), name@) == 0);
    }
    if cnt == 1 {
        match found {
            Some(fi) => {
                proof {
                    lemma_first_value_at(full, name@, fi as int);
                }
                Some(vstd::slice::slice_to_vec(ps[fi].value.as_slice()))
            },
            None => {
                proof {
                    assert(false);
                }
                None
            },
        }
    } else {
        None
    }
}

/// The bytes of the field name `acct_id`.
pub open spec fn key_acct_id() -> Seq<u8> {
    seq![97u8, 99, 99, 116, 95, 105, 100]
}

/// The bytes of the field name `balance_0`.
pub open spec fn key_balance_0() -> Seq<u8> {
    seq![98u8, 97, 108, 97, 110, 99, 101, 95, 48]
}

/// The bytes of the field name `from_id`.
pub open spec fn key_from_id() -> Seq<u8> {
    seq![102u8, 114, 111, 109, 95, 105, 100]
}

/// The bytes of the field name `to_id`.
pub open spec fn key_to_id() -> Seq<u8> {
    seq![116u8, 111, 95, 105, 100]
}

/// The bytes of the field name `amount`.
pub open spec fn key_amount() -> Seq<u8> {
    seq![97u8, 109, 111, 117, 110, 116]
}

/// The bytes of the method `GET`.
pub open spec fn method_get() -> Seq<u8> {
    seq![71u8, 69, 84]
}

/// The bytes of the path `/create-account`.
pub open spec fn path_create() -> Seq<u8> {
    seq![47u8, 99, 114, 101, 97, 116, 101, 45, 97, 99, 99, 111, 117, 110, 116]
}

/// The bytes of the path `/transfer`.
pub open spec fn path_transfer() -> Seq<u8> {
    seq![47u8, 116, 114, 97, 110, 115, 102, 101, 114]
}

/// The bytes of the path `/balance`.
pub open spec fn path_balance() -> Seq<u8> {
    seq![47u8, 98, 97, 108, 97, 110, 99, 101]
}

/// What a valid account-creation query carries: `acct_id`, an integer in
/// `i32` range, and `balance_0`, an amount in `u64` range, each present
/// exactly once. Anything else is malformed.
pub open spec fn spec_create_fields(q: Seq<u8>) -> Option<(int, int)> {
    let ps = query_pairs(q);
    match (get_field(ps, key_acct_id()), get_field(ps, key_balance_0())) {
        (Some(idt), Some(bt)) => match (spec_parse_int(idt), spec_parse_amount(bt)) {
            (Some(id), Some(b)) => if i32::MIN <= id <= i32::MAX && b <= u64::MAX {
                Some((id, b))
            } else {
                None
            },
            _ => None,
        },
        _ => None,
    }
}

/// What a valid transfer query carries: `from_id` and `to_id`, integers in
/// `i32` range, and `amount`, an amount in `u64` range, each present
/// exactly once.
pub open spec fn spec_transfer_fields(q: Seq<u8>) -> Option<(int, int, int)> {
    let ps = query_pairs(q);
    match (get_field(ps, key_from_id()), get_field(ps, key_to_id()), get_field(ps, key_amount())) {
        (Some(ft), Some(tt), Some(at)) => match (
            spec_parse_int(ft),
            spec_parse_int(tt),
            spec_parse_amount(at),
        ) {
            (Some(f), Some(t), Some(a)) => if i32::MIN <= f <= i32::MAX && i32::MIN <= t
                <= i32::MAX && a <= u64::MAX {
                Some((f, t, a))
            } else {
                None
            },
            _ => None,
        },
        _ => None,
    }
}

/// What a valid balance query carries: `acct_id`, an integer in `i32`
/// range, present exactly once.
pub open spec fn spec_balance_field(q: Seq<u8>) -> Option<int> {
    let ps = query_pairs(q);
    match get_field(ps, key_acct_id()) {
        Some(idt) => match spec_parse_int(idt) {
            Some(id) => if i32::MIN <= id <= i32::MAX {
                Some(id)
            } else {
                None
            },
            None => None,
        },
        None => None,
    }
}

/// What the service answers: every response is sent with a success status,
/// so a logical failure is visible only in the body text the caller reads.
#[derive(Clone, Copy, Debug, PartialEq, Eq, Structural)]
pub enum GatewayResponse {
    /// The creation was accepted and queued — not yet applied.
    CreateAck { acct_id: i32, balance_0: u64 },
    /// The transfer was accepted and queued — not yet applied.
    TransferAck,
    /// The queried account's current balance.
    Balance { amount: u64 },
    /// The queried account does not exist.
    NoAccountFound,
    /// The query string was malformed for the requested operation.
    InvalidParameters,
    /// No operation matches the method and path.
    Unrecognized,
}

/// Validates an account-creation request and, when the parameters are
/// well-formed, enqueues the action — acknowledging receipt, not
/// application. A malformed query enqueues nothing.
pub fn submit_create(queue: &mut PendingQueue, query: &[u8]) -> (r: GatewayResponse)
    ensures
        match spec_create_fields(query@) {
            Some(f) => final(queue)@ == old(queue)@.push(
                Action::CreateAccount { acct_id: f.0 as i32, balance_0: f.1 as u64 },
            ) && r == (GatewayResponse::CreateAck { acct_id: f.0 as i32, balance_0: f.1 as u64 }),
            None => final(queue)@ == old(queue)@ && r == GatewayResponse::InvalidParameters,
        },
{
    let ps = parse_query(query);
    let key_id: [u8; 7] = [97, 99, 99, 116, 95, 105, 100];
    let key_bal: [u8; 9] = [98, 97, 108, 97, 110, 99, 101, 95, 48];
    proof {
        assert(key_id@ =~= key_acct_id());
        assert(key_bal@ =~= key_balance_0());
    }
    let id_field = get_field_value(&ps, key_id.as_slice());
    let bal_field = get_field_value(&ps, key_bal.as_slice());
    match (id_field, bal_field) {
        (Some(idv), Some(balv)) => {
            match (parse_i32(idv.as_slice()), parse_amount(balv.as_slice())) {
                (Some(id), Some(bal)) => {
                    queue.enqueue(Action::CreateAccount { acct_id: id, balance_0: bal });
                    GatewayResponse::CreateAck { acct_id: id, balance_0: bal }
                },
                _ => GatewayResponse::InvalidParameters,
            }
        },
        _ => GatewayResponse::InvalidParameters,
    }
}

/// Validates a transfer request and, when the parameters are well-formed,
/// enqueues the action. No funds or existence check happens here: those are
/// settled later, and their failures are only logged.
pub fn submit_transfer(queue: &mut PendingQueue, query: &[u8]) -> (r: GatewayResponse)
    ensures
        match spec_transfer_fields(query@) {
            Some(f) => final(queue)@ == old(queue)@.push(
                Action::Transfer { from_id: f.0 as i32, to_id: f.1 as i32, amount: f.2 as u64 },
            ) && r == GatewayResponse::TransferAck,
            None => final(queue)@ == old(queue)@ && r == GatewayResponse::InvalidParameters,
        },
{
    let ps = parse_query(query);
    let key_from: [u8; 7] = [102, 114, 111, 109, 95, 105, 100];
    let key_to: [u8; 5] = [116, 111, 95, 105, 100];
    let key_amt: [u8; 6] = [97, 109, 111, 117, 110, 116];
    proof {
        assert(key_from@ =~= key_from_id());
        assert(key_to@ =~= key_to_id());
        assert(key_amt@ =~= key_amount());
    }
    let from_field = get_field_value(&ps, key_from.as_slice());
    let to_field = get_field_value(&ps, key_to.as_slice());
    let amt_field = get_field_value(&ps, key_amt.as_slice());
    match (from_field, to_field, amt_field) {
        (Some(fv), Some(tv), Some(av)) => {
            match (parse_i32(fv.as_slice()), parse_i32(tv.as_slice()), parse_amount(
                av.as_slice(),
            )) {
                (Some(f), Some(t), Some(a)) => {
                    queue.enqueue(Action::Transfer { from_id: f, to_id: t, amount: a });
                    GatewayResponse::TransferAck
                },
                _ => GatewayResponse::InvalidParameters,
            }
        },
        _ => GatewayResponse::InvalidParameters,
    }
}

/// Answers a balance query from the store alone: it never touches the
/// queue, so it never sees actions that are still pending.
pub fn query_balance(store: &AccountStore, query: &[u8]) -> (r: GatewayResponse)
    requires
        store.wf(),
    ensures
        match spec_balance_field(query@) {
            Some(id) => if store.model().balances.dom().contains(id) {
                r matches GatewayResponse::Balance { amount } && amount as int
                    == store.model().balances[id]
            } else {
                r == GatewayResponse::NoAccountFound
            },
            None => r == GatewayResponse::InvalidParameters,
        },
{
    let ps = parse_query(query);
    let key_id: [u8; 7] = [97, 99, 99, 116, 95, 105, 100];
    proof {
        assert(key_id@ =~= key_acct_id());
    }
    match get_field_value(&ps, key_id.as_slice()) {
        Some(idv) => match parse_i32(idv.as_slice()) {
            Some(id) => match store.get_balance(id) {
                Some(b) => GatewayResponse::Balance { amount: b },
                None => GatewayResponse::NoAccountFound,
            },
            None => GatewayResponse::InvalidParameters,
        },
        None => GatewayResponse::InvalidParameters,
    }
}

/// Dispatches one request: a `GET` on a known path runs its operation;
/// everything else — another method, another path — is answered
/// `Unrecognized` and changes nothing.
pub fn handle_request(
    queue: &mut PendingQueue,
    store: &AccountStore,
    method: &[u8],
    path: &[u8],
    query: &[u8],
) -> (r: GatewayResponse)
    requires
        store.wf(),
    ensures
        method@ == method_get() && path@ == path_create() ==> match spec_create_fields(query@) {
            Some(f) => final(queue)@ == old(queue)@.push(
                Action::CreateAccount { acct_id: f.0 as i32, balance_0: f.1 as u64 },
            ) && r == (GatewayResponse::CreateAck { acct_id: f.0 as i32, balance_0: f.1 as u64 }),
            None => final(queue)@ == old(queue)@ && r == GatewayResponse::InvalidParameters,
        },
        method@ == method_get() && path@ == path_transfer() ==> match spec_transfer_fields(
            query@,
        ) {
            Some(f) => final(queue)@ == old(queue)@.push(
                Action::Transfer { from_id: f.0 as i32, to_id: f.1 as i32, amount: f.2 as u64 },
            ) && r == GatewayResponse::TransferAck,
            None => final(queue)@ == old(queue)@ && r == GatewayResponse::InvalidParameters,
        },
        method@ == method_get() && path@ == path_balance() ==> final(queue)@ == old(queue)@
            && match spec_balance_field(query@) {
            Some(id) => if store.model().balances.dom().contains(id) {
                r matches GatewayResponse::Balance { amount } && amount as int
                    == store.model().balances[id]
            } else {
                r == GatewayResponse::NoAccountFound
            },
            None => r == GatewayResponse::InvalidParameters,
        },
        !(method@ == method_get() && (path@ == path_create() || path@ == path_transfer() || path@
            == path_balance())) ==> final(queue)@ == old(queue)@ && r
            == GatewayResponse::Unrecognized,
{
    let get_word: [u8; 3] = [71, 69, 84];
    let create_path: [u8; 15] = [
        47,
        99,
        114,
        101,
        97,
        116,
        101,
        45,
        97,
        99,
        99,
        111,
        117,
        110,
        116,
    ];
    let transfer_path: [u8; 9] = [47, 116, 114, 97, 110, 115, 102, 101, 114];
    let balance_path: [u8; 8] = [47, 98, 97, 108, 97, 110, 99, 101];
    proof {
        assert(get_word@ =~= method_get());
        assert(create_path@ =~= path_create());
        assert(transfer_path@ =~= path_transfer());
        assert(balance_path@ =~= path_balance());
    }
    if !bytes_eq(method, get_word.as_slice()) {
        return GatewayResponse::Unrecognized;
    }
    if bytes_eq(path, create_path.as_slice()) {
        submit_create(queue, query)
    } else if bytes_eq(path, transfer_path.as_slice()) {
        submit_transfer(queue, query)
    } else if bytes_eq(path, balance_path.as_slice()) {
        query_balance(store, query)
    } else {
        GatewayResponse::Unrecognized
    }
}

} // verus!
