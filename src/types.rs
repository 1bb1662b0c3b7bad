//! Scalar types and principals shared by every component.
use vstd::prelude::*;

verus! {

/// An amount of some asset, in the asset's own fixed-point scale.
pub type Amount = u128;

/// Monotonic microseconds supplied by the host runtime.
pub type Timestamp = u64;

/// A price, fixed point scaled by 10^8.
pub type Price = u64;

/// A quantity, fixed point scaled by 10^8.
pub type Quantity = u64;

pub type OrderId = u64;

pub type TradeId = u64;

pub type SettlementId = u64;

pub type TransferId = u64;

/// Microseconds in one second.
pub const MICROS_PER_SECOND: u64 = 1_000_000;

/// An opaque principal that owns balances, orders, settlements and transfers.
#[derive(Clone, Copy, Debug, PartialEq, Eq, Structural, Hash)]
pub struct Account {
    pub owner: u64,
}

impl Account {
    pub fn new(owner: u64) -> (r: Account)
        ensures
            r.owner == owner,
    {
        Account { owner }
    }
}

/// `now` plus `seconds`, in microseconds, saturating at the largest timestamp.
pub open spec fn spec_deadline(now: Timestamp, seconds: u64) -> int {
    let d = now + seconds * MICROS_PER_SECOND;
    if d > u64::MAX {
        u64::MAX as int
    } else {
        d
    }
}

/// Adds a duration in whole seconds to a timestamp, saturating.
pub fn deadline(now: Timestamp, seconds: u64) -> (r: Timestamp)
    ensures
        r == spec_deadline(now, seconds),
{
    let micros = seconds.checked_mul(MICROS_PER_SECOND);
    match micros {
        Some(m) => now.saturating_add(m),
        None => u64::MAX,
    }
}

} // verus!
