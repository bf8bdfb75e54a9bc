//! An in-memory ledger with buffered, epoch-based settlement.
//!
//! Clients submit account-creation and transfer requests; the gateway
//! validates each request and appends it as a pending action to an ordered
//! queue. A settlement worker periodically drains the queue and applies the
//! actions to the account store in arrival order, recording a per-action
//! outcome. Balance queries read the store directly and never observe a
//! partially applied epoch.
//!
//! Balances and transfer amounts are fixed-point: a `u64` counting hundredths
//! of a coin. The surrounding process converts between that representation
//! and the decimal text used on the wire.

pub mod gateway;
pub mod model;
pub mod parse;
pub mod queue;
pub mod settle;
pub mod store;

use vstd::prelude::*;

verus! {

/// The number of fixed-point units in one whole coin.
pub const AMOUNT_SCALE: u64 = 100;

} // verus!
