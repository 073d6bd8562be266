//! Order types for the limit order book.
//!
//! Prices are `i64` ticks; quantities are `u64` lots.

use vstd::prelude::*;

verus! {

/// Unique order identifier, monotonically increasing per matching session.
#[derive(Debug, Clone, Copy, PartialEq, Eq, Structural, Hash, PartialOrd, Ord)]
pub struct OrderId(pub u64);

/// Side of the market.
#[derive(Debug, Clone, Copy, PartialEq, Eq, Structural, Hash)]
pub enum Side {
    /// Buyer: willing to pay up to `price` ticks.
    Bid,
    /// Seller: willing to accept at least `price` ticks.
    Ask,
}

/// Classification of an order's execution behaviour.
#[derive(Debug, Clone, Copy, PartialEq, Eq, Structural)]
pub enum OrderType {
    /// Rests on the book at a specific price.
    Limit,
    /// Executes immediately at the best available prices; never rests.
    Market,
    /// Handled as a limit order at `price`; `stop_price` is carried along.
    StopLimit {
        /// Activation threshold in ticks.
        stop_price: i64,
    },
}

/// Time-in-force policy governing how long an order remains active.
#[derive(Debug, Clone, Copy, PartialEq, Eq, Structural)]
pub enum TimeInForce {
    /// Good-till-cancelled: rests until explicitly cancelled.
    GTC,
    /// Immediate-or-cancel: fill what is available, discard the remainder.
    IOC,
    /// Fill-or-kill: fill entirely or not at all.
    FOK,
    /// Good-till-date: expires at `expiry_ns` (nanoseconds since the epoch).
    GTD {
        /// Expiry time as nanoseconds since the Unix epoch.
        expiry_ns: u64,
    },
}

/// A single order submitted to the matching engine.
#[derive(Debug, Clone)]
pub struct Order {
    /// Identifier assigned at submission time.
    pub id: OrderId,
    /// Buy (`Bid`) or sell (`Ask`).
    pub side: Side,
    /// Execution classification.
    pub order_type: OrderType,
    /// Limit price in ticks; not used for matching `Market` orders.
    pub price: i64,
    /// Total quantity requested, in lots.
    pub quantity: u64,
    /// Quantity already executed.
    pub filled_quantity: u64,
    /// Submission time as nanoseconds since the Unix epoch.
    pub timestamp_ns: u64,
    /// Lifetime policy for any unexecuted remainder.
    pub time_in_force: TimeInForce,
}

impl Order {
    /// Unexecuted quantity, `quantity - filled_quantity`, as an integer.
    pub open spec fn rem(self) -> int {
        self.quantity - self.filled_quantity
    }

    /// The whole requested quantity has been executed.
    pub open spec fn filled(self) -> bool {
        self.filled_quantity >= self.quantity
    }

    /// Quantity that has not yet been executed.
    pub fn remaining(&self) -> (r: u64)
        requires
            self.filled_quantity <= self.quantity,
        ensures
            r == self.rem(),
    {
        self.quantity - self.filled_quantity
    }

    /// Returns `true` when the entire requested quantity has been executed.
    pub fn is_filled(&self) -> (r: bool)
        ensures
            r == self.filled(),
    {
        self.filled_quantity >= self.quantity
    }
}

} // verus!
