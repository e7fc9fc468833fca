//! Random orders, as the order generator of the simulation makes them.

use vstd::prelude::*;

use rand::Rng;

use crate::clock;
use crate::order::{Order, Side};

verus! {

/// `rand::rngs::ThreadRng`, carried through opaque.
#[verifier::external_type_specification]
#[verifier::external_body]
pub struct ExThreadRng(rand::rngs::ThreadRng);

/// Calls `rand::thread_rng`, the random number generator of the current
/// thread. Nothing is stated of it.
#[verifier::external_body]
fn thread_rng() -> rand::rngs::ThreadRng {
    rand::thread_rng()
}

/// Calls `Rng::gen_range` on the inclusive range `lo..=hi`; rand documents
/// the result as a value of that range and panics on an empty range, which
/// `requires` rules out. Which value comes is chance.
#[verifier::external_body]
fn gen_range_inclusive(rng: &mut rand::rngs::ThreadRng, lo: i64, hi: i64) -> (r: i64)
    requires
        lo <= hi,
    ensures
        lo <= r <= hi,
{
    rng.gen_range(lo..=hi)
}

/// Calls `Rng::gen_ratio`: `true` with probability
/// `numerator / denominator`, certainly `true` when they are equal and
/// certainly `false` when `numerator` is 0 (so rand documents it); it panics
/// when `denominator` is 0 or `numerator > denominator`, which `requires`
/// rules out. Otherwise the outcome is chance.
#[verifier::external_body]
fn gen_ratio(rng: &mut rand::rngs::ThreadRng, numerator: u32, denominator: u32) -> (b: bool)
    requires
        0 < denominator,
        numerator <= denominator,
    ensures
        numerator == denominator ==> b,
        numerator == 0 ==> !b,
{
    rng.gen_ratio(numerator, denominator)
}

/// The order that the draws describe: a buy where `buy` holds, else a sell,
/// of `quantity` units at `price` hundredths, created at `timestamp`.
pub fn order_from_draws(buy: bool, price: i64, quantity: i64, timestamp: u128) -> (o: Order)
    ensures
        o == order_from_draws_spec(buy, price, quantity, timestamp),
{
    let side = if buy {
        Side::Buy
    } else {
        Side::Sell
    };
    Order::with_timestamp(side, quantity, price, 2, timestamp)
}

/// A random order, stamped with the current time: a buy or a sell with even
/// odds, a price from 9000 to 11000 in hundredths, and a quantity from 1 to
/// 100 (see `order_from_draws`); `None` where the clock reads before the
/// Unix epoch.
pub fn generate_random_order() -> (o: Option<Order>)
    ensures
        o matches Some(order) ==> {
            &&& 9000 <= order.price <= 11000
            &&& 1 <= order.original_qty <= 100
            &&& order == order_from_draws_spec(order.side == Side::Buy, order.price, order.original_qty, order.timestamp)
        },
{
    let mut rng = thread_rng();
    let price = gen_range_inclusive(&mut rng, 9000, 11000);
    let quantity = gen_range_inclusive(&mut rng, 1, 100);
    let buy = gen_ratio(&mut rng, 1, 2);
    match clock::now_millis() {
        Some(timestamp) => Some(order_from_draws(buy, price, quantity, timestamp)),
        None => None,
    }
}

/// What `order_from_draws` returns.
pub open spec fn order_from_draws_spec(buy: bool, price: i64, quantity: i64, timestamp: u128) -> Order {
    Order::spec_with_timestamp(
        if buy {
            Side::Buy
        } else {
            Side::Sell
        },
        quantity,
        price,
        2,
        timestamp,
    )
}

} // verus!
