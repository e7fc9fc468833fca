//! Orders and the ranking that decides which resting order trades first.

use vstd::prelude::*;

use crate::clock;

verus! {

/// The side of the market an order is on.
#[derive(Debug, Clone, Copy, PartialEq, Eq, Structural)]
pub enum Side {
    Buy,
    Sell,
}

/// A limit order: `price` is an integer number of units of `10^-decimals`,
/// `remaining` is the part of `original_qty` that has not traded yet, and
/// `timestamp` is the creation time in milliseconds since the Unix epoch.
#[derive(Debug, Clone, Copy)]
pub struct Order {
    pub side: Side,
    pub price: i64,
    pub decimals: i32,
    pub original_qty: i64,
    pub remaining: i64,
    pub timestamp: u128,
}

/// The order `o` with `remaining` replaced.
pub open spec fn with_remaining(o: Order, remaining: i64) -> Order {
    Order {
        side: o.side,
        price: o.price,
        decimals: o.decimals,
        original_qty: o.original_qty,
        remaining: remaining,
        timestamp: o.timestamp,
    }
}

/// Whether, among resting orders of side `side`, `a` is served no later than
/// `b`: buy orders by higher price first, sell orders by lower price first,
/// and at equal price the earlier order first.
pub open spec fn ranks_before(side: Side, a: Order, b: Order) -> bool {
    match side {
        Side::Buy => a.price > b.price || (a.price == b.price && a.timestamp <= b.timestamp),
        Side::Sell => a.price < b.price || (a.price == b.price && a.timestamp <= b.timestamp),
    }
}

/// Price-time priority: between two resting orders of one side, the one at
/// the better price (higher for buys, lower for sells) is served first; at
/// equal price the earlier one is, whatever the quantities.
pub proof fn law_price_time_ranking(side: Side, a: Order, b: Order)
    ensures
        a.price == b.price ==> (ranks_before(side, a, b) <==> a.timestamp <= b.timestamp),
        a.price != b.price && side == Side::Buy ==> (ranks_before(side, a, b) <==> a.price > b.price),
        a.price != b.price && side == Side::Sell ==> (ranks_before(side, a, b) <==> a.price < b.price),
{
}

/// `s` lists orders of side `side` in the order in which they are served.
pub open spec fn ranked(side: Side, s: Seq<Order>) -> bool {
    forall|i: int, j: int| 0 <= i < j < s.len() ==> ranks_before(side, #[trigger] s[i], #[trigger] s[j])
}

/// Any two orders are ranked one way or the other.
pub proof fn lemma_ranks_total(side: Side, a: Order, b: Order)
    ensures
        ranks_before(side, a, b) || ranks_before(side, b, a),
        !ranks_before(side, a, b) ==> ranks_before(side, b, a),
{
}

impl Order {
    /// The order of `quantity` units at `price`, created at `timestamp`,
    /// of which nothing has traded yet.
    pub open spec fn spec_with_timestamp(side: Side, quantity: i64, price: i64, decimals: i32, timestamp: u128) -> Order {
        Order {
            side: side,
            price: price,
            decimals: decimals,
            original_qty: quantity,
            remaining: quantity,
            timestamp: timestamp,
        }
    }

    /// Builds an order of `quantity` units at `price`, created at `timestamp`
    /// milliseconds after the Unix epoch; nothing of it has traded yet.
    pub fn with_timestamp(side: Side, quantity: i64, price: i64, decimals: i32, timestamp: u128) -> (o: Order)
        ensures
            o == Order::spec_with_timestamp(side, quantity, price, decimals, timestamp),
    {
        Order { side, price, decimals, original_qty: quantity, remaining: quantity, timestamp }
    }

    /// Builds an order of `quantity` units at `price`, stamped with the
    /// current time of the system clock; `None` where the clock reads before
    /// the Unix epoch, for which no timestamp exists.
    pub fn new(side: Side, quantity: i64, price: i64, decimals: i32) -> (o: Option<Order>)
        ensures
            o matches Some(order) ==> order == Order::spec_with_timestamp(side, quantity, price, decimals, order.timestamp),
    {
        match clock::now_millis() {
            Some(timestamp) => Some(Order::with_timestamp(side, quantity, price, decimals, timestamp)),
            None => None,
        }
    }
}

} // verus!
