//! Trades: what the matching engine records when two orders meet.

use vstd::prelude::*;

use crate::order::Order;

verus! {

/// A trade of `quantity` units at `price`, between the buy and the sell order
/// as they stood just before it, made at `timestamp` (milliseconds since the
/// Unix epoch).
#[derive(Debug, Clone, Copy)]
pub struct Trade {
    pub price: i64,
    pub quantity: i64,
    pub buy_order: Order,
    pub sell_order: Order,
    pub timestamp: u128,
}

} // verus!
