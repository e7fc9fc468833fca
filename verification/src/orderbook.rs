//! The order book and its matching engine.
//!
//! Resting sell orders (asks) are served lowest price first and resting buy
//! orders (bids) highest price first; at equal price the earlier order is
//! served first. An incoming order trades with the best opposing orders for as
//! long as their prices meet its limit, each trade at the resting order's
//! price; whatever is left of it then rests on its own side of the book.

use vstd::prelude::*;

use crate::clock;
use crate::errors::OrderError;
use crate::mpsc::TryRecvError;
use crate::order::{lemma_ranks_total, ranked, ranks_before, with_remaining, Order, Side};
use crate::trade::Trade;

verus! {

// ---------------------------------------------------------------------------
// The model
// ---------------------------------------------------------------------------

/// The other side of the market.
pub open spec fn opposite(side: Side) -> Side {
    match side {
        Side::Buy => Side::Sell,
        Side::Sell => Side::Buy,
    }
}

/// Whether the resting order `resting` meets the limit of `incoming`: a buy
/// meets sell orders priced at or below its limit, a sell meets buy orders
/// priced at or above it.
pub open spec fn crosses(incoming: Order, resting: Order) -> bool {
    match incoming.side {
        Side::Buy => resting.price <= incoming.price,
        Side::Sell => resting.price >= incoming.price,
    }
}

/// The trade of `quantity` units between `incoming` and `resting`, at the
/// resting order's price, both orders as they stood before it.
pub open spec fn trade_of(incoming: Order, resting: Order, quantity: i64, now: u128) -> Trade {
    match incoming.side {
        Side::Buy => Trade {
            price: resting.price,
            quantity: quantity,
            buy_order: incoming,
            sell_order: resting,
            timestamp: now,
        },
        Side::Sell => Trade {
            price: resting.price,
            quantity: quantity,
            buy_order: resting,
            sell_order: incoming,
            timestamp: now,
        },
    }
}

/// The resting order of a trade made by an incoming order of side `side`.
pub open spec fn resting_order_of(side: Side, t: Trade) -> Order {
    match side {
        Side::Buy => t.sell_order,
        Side::Sell => t.buy_order,
    }
}

/// The incoming order of a trade made by an incoming order of side `side`.
pub open spec fn incoming_order_of(side: Side, t: Trade) -> Order {
    match side {
        Side::Buy => t.buy_order,
        Side::Sell => t.sell_order,
    }
}

pub open spec fn min_i64(a: i64, b: i64) -> i64 {
    if a <= b {
        a
    } else {
        b
    }
}

/// Matching `incoming` against the opposing orders `book` (best first):
/// the incoming order as it is left, the opposing orders as they are left,
/// and the trades made, in the order in which they were made.
pub open spec fn match_spec(incoming: Order, book: Seq<Order>, now: u128) -> (Order, Seq<Order>, Seq<Trade>)
    decreases book.len(),
{
    if incoming.remaining <= 0 || book.len() == 0 || !crosses(incoming, book[0]) {
        (incoming, book, Seq::<Trade>::empty())
    } else {
        let best = book[0];
        let qty = min_i64(incoming.remaining, best.remaining);
        let trade = trade_of(incoming, best, qty, now);
        let left = with_remaining(incoming, (incoming.remaining - qty) as i64);
        let rest = with_remaining(best, (best.remaining - qty) as i64);
        if rest.remaining > 0 {
            (left, book.update(0, rest), seq![trade])
        } else {
            let r = match_spec(left, book.drop_first(), now);
            (r.0, r.1, seq![trade] + r.2)
        }
    }
}

/// The sum of the quantities of `ts`.
pub open spec fn total_quantity(ts: Seq<Trade>) -> int
    decreases ts.len(),
{
    if ts.len() == 0 {
        0
    } else {
        ts[0].quantity + total_quantity(ts.drop_first())
    }
}

/// The sum of what is left of the orders of `s`.
pub open spec fn total_remaining(s: Seq<Order>) -> int
    decreases s.len(),
{
    if s.len() == 0 {
        0
    } else {
        s[0].remaining + total_remaining(s.drop_first())
    }
}

/// `p` is where `o` goes among the ranked orders `s`: after every order that
/// ranks before it, before every other.
pub open spec fn is_rank_slot(side: Side, s: Seq<Order>, o: Order, p: int) -> bool {
    &&& 0 <= p <= s.len()
    &&& forall|k: int| 0 <= k < p ==> ranks_before(side, #[trigger] s[k], o)
    &&& p < s.len() ==> !ranks_before(side, s[p], o)
}

/// The ranked orders `s` with `o` put in its place.
pub open spec fn insert_ranked(side: Side, s: Seq<Order>, o: Order) -> Seq<Order> {
    s.insert(choose|p: int| is_rank_slot(side, s, o, p), o)
}

/// Every order of `s` is of side `side` and has something left to trade.
pub open spec fn resting_ok(side: Side, s: Seq<Order>) -> bool {
    forall|i: int| 0 <= i < s.len() ==> (#[trigger] s[i]).remaining > 0 && s[i].side == side
}

/// The two orders are the same order, whatever is left of each.
pub open spec fn same_order(a: Order, b: Order) -> bool {
    &&& a.side == b.side
    &&& a.price == b.price
    &&& a.decimals == b.decimals
    &&& a.original_qty == b.original_qty
    &&& a.timestamp == b.timestamp
}

/// The order has a positive price and `0 < remaining <= original_qty`.
pub open spec fn order_sound(o: Order) -> bool {
    o.price > 0 && 0 < o.remaining <= o.original_qty
}

/// Every order of `s` is sound (see `order_sound`).
pub open spec fn orders_sound(s: Seq<Order>) -> bool {
    forall|i: int| 0 <= i < s.len() ==> order_sound(#[trigger] s[i])
}

/// What an order book holds: the resting sell orders and the resting buy
/// orders, each best first, and every trade made, oldest first.
pub struct BookView {
    pub asks: Seq<Order>,
    pub bids: Seq<Order>,
    pub trades: Seq<Trade>,
}

impl BookView {
    /// The book is well formed: each side is in the order in which it is
    /// served, holds only orders of its side with something left, and the
    /// book is not crossed (the best bid is below the best ask).
    pub open spec fn wf(self) -> bool {
        &&& ranked(Side::Sell, self.asks)
        &&& ranked(Side::Buy, self.bids)
        &&& resting_ok(Side::Sell, self.asks)
        &&& resting_ok(Side::Buy, self.bids)
        &&& (self.asks.len() > 0 && self.bids.len() > 0 ==> self.bids[0].price < self.asks[0].price)
    }

    /// Every resting order has a positive price and
    /// `0 < remaining <= original_qty`.
    pub open spec fn sound(self) -> bool {
        orders_sound(self.asks) && orders_sound(self.bids)
    }

    /// The resting orders of side `side`.
    pub open spec fn side(self, side: Side) -> Seq<Order> {
        match side {
            Side::Buy => self.bids,
            Side::Sell => self.asks,
        }
    }
}

/// The empty book.
pub open spec fn empty_book() -> BookView {
    BookView { asks: Seq::empty(), bids: Seq::empty(), trades: Seq::empty() }
}

/// What matching `o` against the book `v` yields (see `match_spec`).
pub open spec fn match_in_book(v: BookView, o: Order, now: u128) -> (Order, Seq<Order>, Seq<Trade>) {
    match_spec(o, v.side(opposite(o.side)), now)
}

/// The book after the order `o` has been processed at time `now`: it trades
/// with the opposing side, and whatever is left of it rests on its own side.
pub open spec fn process_spec(v: BookView, o: Order, now: u128) -> BookView {
    let r = match_in_book(v, o, now);
    let own = if r.0.remaining > 0 {
        insert_ranked(o.side, v.side(o.side), r.0)
    } else {
        v.side(o.side)
    };
    match o.side {
        Side::Buy => BookView { asks: r.1, bids: own, trades: v.trades + r.2 },
        Side::Sell => BookView { asks: own, bids: r.1, trades: v.trades + r.2 },
    }
}

/// The book after the orders of `history` have been processed in turn, each
/// at its time, starting from the empty book.
pub open spec fn replay(history: Seq<(Order, u128)>) -> BookView
    decreases history.len(),
{
    if history.len() == 0 {
        empty_book()
    } else {
        process_spec(replay(history.drop_last()), history.last().0, history.last().1)
    }
}

/// The sum of the quantities of the orders of side `side` in `history`.
pub open spec fn submitted_quantity(history: Seq<(Order, u128)>, side: Side) -> int
    decreases history.len(),
{
    if history.len() == 0 {
        0
    } else {
        submitted_quantity(history.drop_last(), side) + if history.last().0.side == side {
            history.last().0.remaining as int
        } else {
            0
        }
    }
}

/// Why an order is refused, if it is: a quantity that is not positive, then
/// a price that is not positive.
pub open spec fn validation(o: Order) -> Result<(), OrderError> {
    if o.remaining <= 0 {
        Err(OrderError::InvalidQuantity)
    } else if o.price <= 0 {
        Err(OrderError::InvalidPrice)
    } else {
        Ok(())
    }
}

// ---------------------------------------------------------------------------
// Lemmas
// ---------------------------------------------------------------------------

proof fn lemma_rank_slot_unique(side: Side, s: Seq<Order>, o: Order, p: int, q: int)
    requires
        is_rank_slot(side, s, o, p),
        is_rank_slot(side, s, o, q),
    ensures
        p == q,
{
    if p < q {
        assert(ranks_before(side, s[p], o));
    } else if q < p {
        assert(ranks_before(side, s[q], o));
    }
}

proof fn lemma_rank_slot_exists(side: Side, s: Seq<Order>, o: Order)
    ensures
        exists|p: int| is_rank_slot(side, s, o, p),
    decreases s.len(),
{
    if s.len() == 0 {
        assert(is_rank_slot(side, s, o, 0));
    } else if !ranks_before(side, s[0], o) {
        assert(is_rank_slot(side, s, o, 0));
    } else {
        let t = s.drop_first();
        lemma_rank_slot_exists(side, t, o);
        let p = choose|p: int| is_rank_slot(side, t, o, p);
        assert forall|k: int| 0 <= k < p + 1 implies ranks_before(side, #[trigger] s[k], o) by {
            if k > 0 {
                assert(s[k] == t[k - 1]);
            }
        }
        if p + 1 < s.len() {
            assert(s[p + 1] == t[p]);
        }
        assert(is_rank_slot(side, s, o, p + 1));
    }
}

/// The place of an order among ranked orders is determined.
proof fn lemma_rank_slot_is_chosen(side: Side, s: Seq<Order>, o: Order, p: int)
    requires
        is_rank_slot(side, s, o, p),
    ensures
        insert_ranked(side, s, o) == s.insert(p, o),
{
    let q = choose|q: int| is_rank_slot(side, s, o, q);
    lemma_rank_slot_unique(side, s, o, p, q);
}

/// Putting an order in its place keeps the orders ranked.
proof fn lemma_insert_ranked(side: Side, s: Seq<Order>, o: Order)
    requires
        ranked(side, s),
    ensures
        ranked(side, insert_ranked(side, s, o)),
        insert_ranked(side, s, o).len() == s.len() + 1,
        exists|p: int| is_rank_slot(side, s, o, p) && insert_ranked(side, s, o) == s.insert(p, o),
{
    lemma_rank_slot_exists(side, s, o);
    let p = choose|p: int| is_rank_slot(side, s, o, p);
    lemma_rank_slot_is_chosen(side, s, o, p);
    let t = s.insert(p, o);
    if p < s.len() {
        lemma_ranks_total(side, s[p], o);
    }
    assert forall|i: int, j: int| 0 <= i < j < t.len() implies ranks_before(side, #[trigger] t[i], #[trigger] t[j]) by {
        if j < p {
            assert(t[i] == s[i] && t[j] == s[j]);
        } else if j == p {
            assert(t[i] == s[i] && t[j] == o);
        } else if i < p {
            assert(t[i] == s[i] && t[j] == s[j - 1]);
            assert(ranks_before(side, s[i], o));
            assert(ranks_before(side, o, s[p]));
            assert(ranks_before(side, s[p], s[j - 1]) || p == j - 1);
        } else if i == p {
            assert(t[i] == o && t[j] == s[j - 1]);
            assert(ranks_before(side, o, s[p]));
            assert(ranks_before(side, s[p], s[j - 1]) || p == j - 1);
        } else {
            assert(t[i] == s[i - 1] && t[j] == s[j - 1]);
        }
    }
}

/// Orders that are the same orders as a stretch of ranked orders are ranked.
proof fn lemma_ranked_same_orders(side: Side, book: Seq<Order>, s: Seq<Order>, d: int)
    requires
        ranked(side, book),
        0 <= d,
        d + s.len() <= book.len(),
        forall|j: int| 0 <= j < s.len() ==> same_order(#[trigger] s[j], book[j + d]),
    ensures
        ranked(side, s),
{
    assert forall|i: int, j: int| 0 <= i < j < s.len() implies ranks_before(side, #[trigger] s[i], #[trigger] s[j]) by {
        assert(same_order(s[i], book[i + d]));
        assert(same_order(s[j], book[j + d]));
        assert(ranks_before(side, book[i + d], book[j + d]));
    }
}

/// What matching leaves and makes.
proof fn lemma_match_shape(incoming: Order, book: Seq<Order>, now: u128)
    requires
        resting_ok(opposite(incoming.side), book),
    ensures
        ({
            let r = match_spec(incoming, book, now);
            let d = book.len() - r.1.len();
            &&& r.0 == with_remaining(incoming, r.0.remaining)
            &&& incoming.remaining <= 0 ==> r == (incoming, book, Seq::<Trade>::empty())
            &&& incoming.remaining > 0 ==> 0 <= r.0.remaining <= incoming.remaining
            &&& r.0.remaining > 0 ==> r.1.len() == 0 || !crosses(r.0, r.1[0])
            &&& 0 <= d <= book.len()
            &&& forall|j: int| 0 <= j < r.1.len() ==> same_order(#[trigger] r.1[j], book[j + d])
            &&& forall|j: int| 0 < j < r.1.len() ==> #[trigger] r.1[j] == book[j + d]
            &&& resting_ok(opposite(incoming.side), r.1)
            &&& r.2.len() <= book.len()
            &&& forall|i: int| 0 <= i < r.2.len() ==> {
                &&& resting_order_of(incoming.side, #[trigger] r.2[i]) == book[i]
                &&& same_order(incoming_order_of(incoming.side, r.2[i]), incoming)
                &&& r.2[i].price == book[i].price
                &&& r.2[i].quantity > 0
                &&& crosses(incoming, book[i])
            }
            &&& total_quantity(r.2) == incoming.remaining - r.0.remaining
        }),
    decreases book.len(),
{
    let r = match_spec(incoming, book, now);
    if incoming.remaining <= 0 || book.len() == 0 || !crosses(incoming, book[0]) {
        assert(r.0 == with_remaining(incoming, r.0.remaining));
    } else {
        let best = book[0];
        let qty = min_i64(incoming.remaining, best.remaining);
        let trade = trade_of(incoming, best, qty, now);
        let left = with_remaining(incoming, (incoming.remaining - qty) as i64);
        let rest = with_remaining(best, (best.remaining - qty) as i64);
        assert(best.remaining > 0);
        if rest.remaining > 0 {
            assert(r == (left, book.update(0, rest), seq![trade]));
            assert(total_quantity(seq![trade].drop_first()) == 0) by {
                assert(seq![trade].drop_first() =~= Seq::<Trade>::empty());
            }
            assert(resting_ok(opposite(incoming.side), r.1)) by {
                assert forall|i: int| 0 <= i < r.1.len() implies (#[trigger] r.1[i]).remaining > 0
                    && r.1[i].side == opposite(incoming.side) by {
                    if i > 0 {
                        assert(r.1[i] == book[i]);
                    }
                }
            }
        } else {
            let t = book.drop_first();
            assert(resting_ok(opposite(incoming.side), t)) by {
                assert forall|i: int| 0 <= i < t.len() implies (#[trigger] t[i]).remaining > 0
                    && t[i].side == opposite(incoming.side) by {
                    assert(t[i] == book[i + 1]);
                }
            }
            lemma_match_shape(left, t, now);
            let r2 = match_spec(left, t, now);
            assert(r == (r2.0, r2.1, seq![trade] + r2.2));
            assert((seq![trade] + r2.2).drop_first() =~= r2.2);
            let d2 = t.len() - r2.1.len();
            assert forall|j: int| 0 <= j < r.1.len() implies same_order(#[trigger] r.1[j], book[j + (book.len() - r.1.len())]) by {
                assert(same_order(r2.1[j], t[j + d2]));
                assert(t[j + d2] == book[j + d2 + 1]);
            }
            assert forall|j: int| 0 < j < r.1.len() implies #[trigger] r.1[j] == book[j + (book.len() - r.1.len())] by {
                assert(r2.1[j] == t[j + d2]);
                assert(t[j + d2] == book[j + d2 + 1]);
            }
            assert forall|i: int| 0 <= i < r.2.len() implies {
                &&& resting_order_of(incoming.side, #[trigger] r.2[i]) == book[i]
                &&& same_order(incoming_order_of(incoming.side, r.2[i]), incoming)
                &&& r.2[i].price == book[i].price
                &&& r.2[i].quantity > 0
                &&& crosses(incoming, book[i])
            } by {
                if i > 0 {
                    assert(r.2[i] == r2.2[i - 1]);
                    assert(t[i - 1] == book[i]);
                }
            }
        }
    }
}

/// What the opposing orders lose is exactly what is traded.
proof fn lemma_match_conserves_resting(incoming: Order, book: Seq<Order>, now: u128)
    requires
        resting_ok(opposite(incoming.side), book),
    ensures
        total_remaining(book) == total_remaining(match_spec(incoming, book, now).1)
            + total_quantity(match_spec(incoming, book, now).2),
    decreases book.len(),
{
    let r = match_spec(incoming, book, now);
    if incoming.remaining <= 0 || book.len() == 0 || !crosses(incoming, book[0]) {
    } else {
        let best = book[0];
        let qty = min_i64(incoming.remaining, best.remaining);
        let trade = trade_of(incoming, best, qty, now);
        let left = with_remaining(incoming, (incoming.remaining - qty) as i64);
        let rest = with_remaining(best, (best.remaining - qty) as i64);
        assert(best.remaining > 0);
        if rest.remaining > 0 {
            assert(book.update(0, rest).drop_first() =~= book.drop_first());
            assert(seq![trade].drop_first() =~= Seq::<Trade>::empty());
            assert(total_quantity(Seq::<Trade>::empty()) == 0);
            assert(r.1 == book.update(0, rest));
            assert(total_remaining(r.1) == rest.remaining + total_remaining(book.drop_first()));
            assert(total_quantity(r.2) == qty);
        } else {
            let t = book.drop_first();
            assert(resting_ok(opposite(incoming.side), t)) by {
                assert forall|i: int| 0 <= i < t.len() implies (#[trigger] t[i]).remaining > 0
                    && t[i].side == opposite(incoming.side) by {
                    assert(t[i] == book[i + 1]);
                }
            }
            lemma_match_conserves_resting(left, t, now);
            let r2 = match_spec(left, t, now);
            assert((seq![trade] + r2.2).drop_first() =~= r2.2);
            assert(r.1 == r2.1);
            assert(r.2 == seq![trade] + r2.2);
            assert(total_quantity(r.2) == qty + total_quantity(r2.2));
            assert(total_remaining(book) == best.remaining + total_remaining(t));
        }
    }
}

/// Each trade records the incoming order as it stood just before it: with
/// what was left of it after the trades before, and the time of matching.
proof fn lemma_trades_record_incoming(incoming: Order, book: Seq<Order>, now: u128)
    requires
        resting_ok(opposite(incoming.side), book),
    ensures
        ({
            let ts = match_spec(incoming, book, now).2;
            forall|i: int| 0 <= i < ts.len() ==> {
                &&& incoming_order_of(incoming.side, #[trigger] ts[i])
                    == with_remaining(incoming, (incoming.remaining - total_quantity(ts.take(i))) as i64)
                &&& ts[i].timestamp == now
            }
        }),
    decreases book.len(),
{
    let r = match_spec(incoming, book, now);
    if incoming.remaining <= 0 || book.len() == 0 || !crosses(incoming, book[0]) {
    } else {
        let best = book[0];
        let qty = min_i64(incoming.remaining, best.remaining);
        let trade = trade_of(incoming, best, qty, now);
        let left = with_remaining(incoming, (incoming.remaining - qty) as i64);
        let rest = with_remaining(best, (best.remaining - qty) as i64);
        assert(best.remaining > 0);
        assert(total_quantity(Seq::<Trade>::empty()) == 0);
        if rest.remaining > 0 {
            assert(r.2 == seq![trade]);
            assert(r.2.take(0) =~= Seq::<Trade>::empty());
        } else {
            let t = book.drop_first();
            assert(resting_ok(opposite(incoming.side), t)) by {
                assert forall|i: int| 0 <= i < t.len() implies (#[trigger] t[i]).remaining > 0
                    && t[i].side == opposite(incoming.side) by {
                    assert(t[i] == book[i + 1]);
                }
            }
            lemma_trades_record_incoming(left, t, now);
            let r2 = match_spec(left, t, now);
            assert(r.2 == seq![trade] + r2.2);
            assert forall|i: int| 0 <= i < r.2.len() implies {
                &&& incoming_order_of(incoming.side, #[trigger] r.2[i])
                    == with_remaining(incoming, (incoming.remaining - total_quantity(r.2.take(i))) as i64)
                &&& r.2[i].timestamp == now
            } by {
                if i == 0 {
                    assert(r.2.take(0) =~= Seq::<Trade>::empty());
                } else {
                    assert(r.2[i] == r2.2[i - 1]);
                    assert(r.2.take(i).drop_first() =~= r2.2.take(i - 1));
                    assert(r.2.take(i)[0] == trade);
                    assert(total_quantity(r.2.take(i)) == qty + total_quantity(r2.2.take(i - 1)));
                }
            }
        }
    }
}

/// Matching only takes from what is left of the opposing orders.
proof fn lemma_match_remaining_shrinks(incoming: Order, book: Seq<Order>, now: u128)
    requires
        resting_ok(opposite(incoming.side), book),
    ensures
        ({
            let r = match_spec(incoming, book, now);
            let d = book.len() - r.1.len();
            &&& r.1.len() <= book.len()
            &&& forall|j: int| 0 <= j < r.1.len() ==> (#[trigger] r.1[j]).remaining <= book[j + d].remaining
        }),
    decreases book.len(),
{
    let r = match_spec(incoming, book, now);
    if incoming.remaining <= 0 || book.len() == 0 || !crosses(incoming, book[0]) {
    } else {
        let best = book[0];
        let qty = min_i64(incoming.remaining, best.remaining);
        let left = with_remaining(incoming, (incoming.remaining - qty) as i64);
        let rest = with_remaining(best, (best.remaining - qty) as i64);
        assert(best.remaining > 0);
        if rest.remaining > 0 {
            assert forall|j: int| 0 <= j < r.1.len() implies (#[trigger] r.1[j]).remaining <= book[j].remaining by {
                if j > 0 {
                    assert(r.1[j] == book[j]);
                }
            }
        } else {
            let t = book.drop_first();
            assert(resting_ok(opposite(incoming.side), t)) by {
                assert forall|i: int| 0 <= i < t.len() implies (#[trigger] t[i]).remaining > 0
                    && t[i].side == opposite(incoming.side) by {
                    assert(t[i] == book[i + 1]);
                }
            }
            lemma_match_remaining_shrinks(left, t, now);
            let r2 = match_spec(left, t, now);
            assert(r.1 == r2.1);
            let d2 = t.len() - r2.1.len();
            assert forall|j: int| 0 <= j < r.1.len() implies (#[trigger] r.1[j]).remaining <= book[j + (book.len() - r.1.len())].remaining by {
                assert(r2.1[j].remaining <= t[j + d2].remaining);
                assert(t[j + d2] == book[j + d2 + 1]);
            }
        }
    }
}

/// Matching against ranked resting orders leaves the opposing orders ranked
/// and with a best order no better than before.
proof fn lemma_match_keeps_ranked(incoming: Order, book: Seq<Order>, now: u128)
    requires
        resting_ok(opposite(incoming.side), book),
        ranked(opposite(incoming.side), book),
    ensures
        ({
            let r = match_spec(incoming, book, now);
            &&& ranked(opposite(incoming.side), r.1)
            &&& r.1.len() > 0 ==> ranks_before(opposite(incoming.side), book[0], r.1[0])
        }),
{
    lemma_match_shape(incoming, book, now);
    let r = match_spec(incoming, book, now);
    let d = book.len() - r.1.len();
    lemma_ranked_same_orders(opposite(incoming.side), book, r.1, d);
    if r.1.len() > 0 {
        assert(same_order(r.1[0], book[d]));
        if d > 0 {
            assert(ranks_before(opposite(incoming.side), book[0], book[d]));
        }
    }
}

/// Processing an order keeps the book well formed.
proof fn lemma_process_wf(v: BookView, o: Order, now: u128)
    requires
        v.wf(),
    ensures
        process_spec(v, o, now).wf(),
{
    let opp = opposite(o.side);
    let book = v.side(opp);
    lemma_match_shape(o, book, now);
    lemma_match_keeps_ranked(o, book, now);
    let r = match_spec(o, book, now);
    let own = v.side(o.side);
    let w = process_spec(v, o, now);
    if r.0.remaining > 0 {
        lemma_insert_ranked(o.side, own, r.0);
        let p = choose|p: int| is_rank_slot(o.side, own, r.0, p) && insert_ranked(o.side, own, r.0) == own.insert(p, r.0);
        let ins = own.insert(p, r.0);
        assert(resting_ok(o.side, ins)) by {
            assert forall|i: int| 0 <= i < ins.len() implies (#[trigger] ins[i]).remaining > 0 && ins[i].side == o.side by {
                if i < p {
                    assert(ins[i] == own[i]);
                } else if i > p {
                    assert(ins[i] == own[i - 1]);
                }
            }
        }
        // Not crossed: the new best order of the own side is either the old
        // one or what is left of the incoming order.
        if r.1.len() > 0 {
            if p == 0 {
                assert(ins[0] == r.0);
                assert(!crosses(r.0, r.1[0]));
            } else {
                assert(ins[0] == own[0]);
                assert(book.len() > 0);
                assert(ranks_before(opp, book[0], r.1[0]));
            }
        }
    } else {
        if r.1.len() > 0 && own.len() > 0 {
            assert(book.len() > 0);
            assert(ranks_before(opp, book[0], r.1[0]));
        }
    }
}


// ---------------------------------------------------------------------------
// Laws of the matching engine
// ---------------------------------------------------------------------------

/// Processing an order keeps the book well formed; in particular the book is
/// never crossed: after any order, the best bid is below the best ask.
pub proof fn law_processing_keeps_book_well_formed(v: BookView, o: Order, now: u128)
    requires
        v.wf(),
    ensures
        process_spec(v, o, now).wf(),
        process_spec(v, o, now).bids.len() > 0 && process_spec(v, o, now).asks.len() > 0
            ==> process_spec(v, o, now).bids[0].price < process_spec(v, o, now).asks[0].price,
{
    lemma_process_wf(v, o, now);
}

/// Nothing is lost or made up: of an incoming order, the part that traded
/// (the sum of the quantities of the trades it made) and the part that is
/// left add up to its quantity; the opposing side loses exactly the traded
/// quantity; the part left rests on its side of the book when there is one,
/// and the trades are appended to the record of trades.
pub proof fn law_fill_conservation(v: BookView, o: Order, now: u128)
    requires
        v.wf(),
        o.remaining > 0,
    ensures
        ({
            let r = match_in_book(v, o, now);
            let w = process_spec(v, o, now);
            &&& total_quantity(r.2) + r.0.remaining == o.remaining
            &&& total_remaining(v.side(opposite(o.side)))
                == total_remaining(w.side(opposite(o.side))) + total_quantity(r.2)
            &&& 0 <= r.0.remaining <= o.remaining
            &&& same_order(r.0, o)
            &&& w.trades == v.trades + r.2
            &&& r.0.remaining > 0 ==> w.side(o.side) == insert_ranked(o.side, v.side(o.side), r.0)
            &&& r.0.remaining == 0 ==> w.side(o.side) == v.side(o.side)
        }),
{
    lemma_match_shape(o, v.side(opposite(o.side)), now);
    lemma_match_conserves_resting(o, v.side(opposite(o.side)), now);
}

/// Each trade records the incoming order as it stood just before that
/// trade: with its quantity less the quantities of the trades before, and
/// every trade is stamped with the time at which the order is processed.
pub proof fn law_trades_record_orders_as_they_stood(v: BookView, o: Order, now: u128)
    requires
        v.wf(),
    ensures
        ({
            let ts = match_in_book(v, o, now).2;
            forall|i: int| 0 <= i < ts.len() ==> {
                &&& incoming_order_of(o.side, #[trigger] ts[i])
                    == with_remaining(o, (o.remaining - total_quantity(ts.take(i))) as i64)
                &&& ts[i].timestamp == now
            }
        }),
{
    lemma_trades_record_incoming(o, v.side(opposite(o.side)), now);
}

/// Both sides of a well-formed book are in price-time priority: bids by
/// higher price first, asks by lower price first, and at equal price the
/// earlier order first, whatever the quantities.
pub proof fn law_sides_in_price_time_order(v: BookView)
    requires
        v.wf(),
    ensures
        forall|i: int, j: int| 0 <= i < j < v.bids.len() ==> (#[trigger] v.bids[i]).price > (#[trigger] v.bids[j]).price
            || (v.bids[i].price == v.bids[j].price && v.bids[i].timestamp <= v.bids[j].timestamp),
        forall|i: int, j: int| 0 <= i < j < v.asks.len() ==> (#[trigger] v.asks[i]).price < (#[trigger] v.asks[j]).price
            || (v.asks[i].price == v.asks[j].price && v.asks[i].timestamp <= v.asks[j].timestamp),
{
}

/// Price-time priority: the orders an incoming order trades with are the
/// first ones of the opposing side, in the order in which they are served;
/// each trade is at the resting order's price, which meets the incoming
/// order's limit, and is for a positive quantity.
pub proof fn law_price_time_priority(v: BookView, o: Order, now: u128)
    requires
        v.wf(),
    ensures
        ({
            let book = v.side(opposite(o.side));
            let ts = match_in_book(v, o, now).2;
            &&& ts.len() <= book.len()
            &&& forall|i: int| 0 <= i < ts.len() ==> {
                &&& resting_order_of(o.side, #[trigger] ts[i]) == book[i]
                &&& same_order(incoming_order_of(o.side, ts[i]), o)
                &&& ts[i].buy_order.side == Side::Buy
                &&& ts[i].sell_order.side == Side::Sell
                &&& ts[i].price == book[i].price
                &&& crosses(o, book[i])
                &&& ts[i].quantity > 0
            }
        }),
{
    lemma_match_shape(o, v.side(opposite(o.side)), now);
}

/// An incoming order whose limit the best opposing order does not meet
/// makes no trade and rests whole on its own side.
pub proof fn law_no_trade_without_price_overlap(v: BookView, o: Order, now: u128)
    requires
        v.wf(),
        o.remaining > 0,
        v.side(opposite(o.side)).len() == 0 || !crosses(o, v.side(opposite(o.side))[0]),
    ensures
        ({
            let w = process_spec(v, o, now);
            &&& w.trades == v.trades
            &&& w.side(opposite(o.side)) == v.side(opposite(o.side))
            &&& w.side(o.side) == insert_ranked(o.side, v.side(o.side), o)
        }),
{
    assert(v.trades + Seq::<Trade>::empty() =~= v.trades);
}

/// An order that trades in full leaves nothing on its own side of the book,
/// and its trades add up to its whole quantity.
pub proof fn law_full_fill_does_not_rest(v: BookView, o: Order, now: u128)
    requires
        v.wf(),
        o.remaining > 0,
        match_in_book(v, o, now).0.remaining == 0,
    ensures
        process_spec(v, o, now).side(o.side) == v.side(o.side),
        total_quantity(match_in_book(v, o, now).2) == o.remaining,
{
    lemma_match_shape(o, v.side(opposite(o.side)), now);
}

proof fn lemma_total_quantity_append(a: Seq<Trade>, b: Seq<Trade>)
    ensures
        total_quantity(a + b) == total_quantity(a) + total_quantity(b),
    decreases a.len(),
{
    if a.len() == 0 {
        assert(a + b =~= b);
    } else {
        assert((a + b).drop_first() =~= a.drop_first() + b);
        assert((a + b)[0] == a[0]);
        lemma_total_quantity_append(a.drop_first(), b);
    }
}

proof fn lemma_total_remaining_insert(s: Seq<Order>, p: int, x: Order)
    requires
        0 <= p <= s.len(),
    ensures
        total_remaining(s.insert(p, x)) == total_remaining(s) + x.remaining,
    decreases s.len(),
{
    if p == 0 {
        assert(s.insert(0, x)[0] == x);
        assert(s.insert(0, x).drop_first() =~= s);
    } else {
        assert(s.insert(p, x)[0] == s[0]);
        assert(s.insert(p, x).drop_first() =~= s.drop_first().insert(p - 1, x));
        lemma_total_remaining_insert(s.drop_first(), p - 1, x);
    }
}

proof fn lemma_matched_side_sound(incoming: Order, book: Seq<Order>, now: u128)
    requires
        resting_ok(opposite(incoming.side), book),
        orders_sound(book),
    ensures
        orders_sound(match_spec(incoming, book, now).1),
{
    lemma_match_shape(incoming, book, now);
    lemma_match_remaining_shrinks(incoming, book, now);
    let r = match_spec(incoming, book, now);
    let d = book.len() - r.1.len();
    assert forall|j: int| 0 <= j < r.1.len() implies order_sound(#[trigger] r.1[j]) by {
        assert(same_order(r.1[j], book[j + d]));
        assert(order_sound(book[j + d]));
        assert(r.1[j].remaining > 0);
    }
}

proof fn lemma_left_sound(incoming: Order, book: Seq<Order>, now: u128)
    requires
        resting_ok(opposite(incoming.side), book),
        order_sound(incoming),
    ensures
        match_spec(incoming, book, now).0.remaining > 0 ==> order_sound(match_spec(incoming, book, now).0),
{
    lemma_match_shape(incoming, book, now);
}

proof fn lemma_insert_sound(side: Side, s: Seq<Order>, x: Order)
    requires
        ranked(side, s),
        orders_sound(s),
        order_sound(x),
    ensures
        orders_sound(insert_ranked(side, s, x)),
{
    lemma_insert_ranked(side, s, x);
    let p = choose|p: int| is_rank_slot(side, s, x, p) && insert_ranked(side, s, x) == s.insert(p, x);
    let ins = s.insert(p, x);
    assert forall|i: int| 0 <= i < ins.len() implies order_sound(#[trigger] ins[i]) by {
        if i < p {
            assert(ins[i] == s[i]);
        } else if i > p {
            assert(ins[i] == s[i - 1]);
        }
    }
}

/// Resting orders stay sound: when every resting order has a positive price
/// and `0 < remaining <= original_qty`, and so has the incoming order, then
/// so has every resting order after it is processed.
pub proof fn law_resting_orders_stay_sound(v: BookView, o: Order, now: u128)
    requires
        v.wf(),
        v.sound(),
        order_sound(o),
    ensures
        process_spec(v, o, now).sound(),
{
    let opp = opposite(o.side);
    let book = v.side(opp);
    let own = v.side(o.side);
    assert(resting_ok(opp, book) && orders_sound(book) && ranked(o.side, own) && orders_sound(own));
    lemma_matched_side_sound(o, book, now);
    lemma_left_sound(o, book, now);
    let r = match_spec(o, book, now);
    if r.0.remaining > 0 {
        lemma_insert_sound(o.side, own, r.0);
    }
}

/// Nothing is lost or made up over any run of accepted orders: from the
/// empty book, the quantity of the buy orders processed equals what rests on
/// the buy side plus the quantity traded, and likewise for the sell orders.
pub proof fn law_conservation_over_history(history: Seq<(Order, u128)>)
    requires
        forall|i: int| 0 <= i < history.len() ==> validation((#[trigger] history[i]).0) is Ok,
    ensures
        replay(history).wf(),
        submitted_quantity(history, Side::Buy) == total_remaining(replay(history).bids)
            + total_quantity(replay(history).trades),
        submitted_quantity(history, Side::Sell) == total_remaining(replay(history).asks)
            + total_quantity(replay(history).trades),
    decreases history.len(),
{
    if history.len() == 0 {
        assert(total_remaining(Seq::<Order>::empty()) == 0);
        assert(total_quantity(Seq::<Trade>::empty()) == 0);
    } else {
        let prefix = history.drop_last();
        assert forall|i: int| 0 <= i < prefix.len() implies validation((#[trigger] prefix[i]).0) is Ok by {
            assert(prefix[i] == history[i]);
        }
        law_conservation_over_history(prefix);
        let v = replay(prefix);
        let o = history.last().0;
        let now = history.last().1;
        assert(validation(history[history.len() - 1].0) is Ok);
        assert(o.remaining > 0);
        lemma_process_wf(v, o, now);
        let opp = opposite(o.side);
        lemma_match_shape(o, v.side(opp), now);
        lemma_match_conserves_resting(o, v.side(opp), now);
        let r = match_spec(o, v.side(opp), now);
        lemma_total_quantity_append(v.trades, r.2);
        let own = v.side(o.side);
        if r.0.remaining > 0 {
            lemma_insert_ranked(o.side, own, r.0);
            let p = choose|p: int| is_rank_slot(o.side, own, r.0, p) && insert_ranked(o.side, own, r.0) == own.insert(p, r.0);
            lemma_total_remaining_insert(own, p, r.0);
        }
    }
}

// ---------------------------------------------------------------------------
// The order book
// ---------------------------------------------------------------------------

/// What the matching engine does next.
#[derive(Debug, Clone, Copy, PartialEq, Eq, Structural)]
pub enum EngineAction {
    /// An order was processed; look for the next one.
    Continue,
    /// No order is waiting: pause briefly, then look again.
    Idle,
    /// The channel of incoming orders is closed: stop.
    Stop,
}

/// A limit order book with its record of trades (most recent first).
pub struct OrderBook {
    asks: Vec<Order>,
    bids: Vec<Order>,
    matched: std::collections::VecDeque<Trade>,
}

impl OrderBook {
    /// Every order book is well formed (see `BookView::wf`).
    #[verifier::type_invariant]
    spec fn well_formed(self) -> bool {
        self@.wf()
    }
}

impl View for OrderBook {
    type V = BookView;

    closed spec fn view(&self) -> BookView {
        BookView { asks: self.asks@, bids: self.bids@, trades: self.matched@.reverse() }
    }
}

fn crosses_exec(incoming: &Order, resting: &Order) -> (b: bool)
    ensures
        b == crosses(*incoming, *resting),
{
    match incoming.side {
        Side::Buy => resting.price <= incoming.price,
        Side::Sell => resting.price >= incoming.price,
    }
}

fn ranks_before_exec(side: Side, a: &Order, b: &Order) -> (r: bool)
    ensures
        r == ranks_before(side, *a, *b),
{
    match side {
        Side::Buy => a.price > b.price || (a.price == b.price && a.timestamp <= b.timestamp),
        Side::Sell => a.price < b.price || (a.price == b.price && a.timestamp <= b.timestamp),
    }
}

/// Puts `o` in its place among the ranked orders `book`.
fn insert_ranked_exec(side: Side, book: &mut Vec<Order>, o: Order)
    ensures
        final(book)@ == insert_ranked(side, old(book)@, o),
{
    let mut i: usize = 0;
    while i < book.len() && ranks_before_exec(side, &book[i], &o)
        invariant
            0 <= i <= book.len(),
            book@ == old(book)@,
            forall|k: int| 0 <= k < i ==> ranks_before(side, #[trigger] book@[k], o),
        decreases book.len() - i,
    {
        i = i + 1;
    }
    proof {
        assert(is_rank_slot(side, book@, o, i as int));
        lemma_rank_slot_is_chosen(side, book@, o, i as int);
    }
    book.insert(i, o);
}

/// Trades `incoming` against the opposing orders `opposing` (best first) for
/// as long as the best of them meets its limit, putting each trade at the
/// front of `trades`.
fn match_against(incoming: &mut Order, opposing: &mut Vec<Order>, trades: &mut std::collections::VecDeque<Trade>, now: u128)
    requires
        resting_ok(opposite(old(incoming).side), old(opposing)@),
    ensures
        ({
            let r = match_spec(*old(incoming), old(opposing)@, now);
            &&& *final(incoming) == r.0
            &&& final(opposing)@ == r.1
            &&& final(trades)@ == r.2.reverse() + old(trades)@
        }),
{
    let ghost target = match_spec(*incoming, opposing@, now);
    let ghost start = trades@;
    let ghost mut done: Seq<Trade> = Seq::empty();
    let ghost side = incoming.side;
    while incoming.remaining > 0 && opposing.len() > 0 && crosses_exec(incoming, &opposing[0])
        invariant
            incoming.side == side,
            resting_ok(opposite(side), opposing@),
            match_spec(*incoming, opposing@, now).0 == target.0,
            match_spec(*incoming, opposing@, now).1 == target.1,
            done + match_spec(*incoming, opposing@, now).2 == target.2,
            trades@ == done.reverse() + start,
        decreases opposing@.len() + (if incoming.remaining > 0 { 1int } else { 0int }),
    {
        let best = opposing[0];
        let qty = if incoming.remaining <= best.remaining {
            incoming.remaining
        } else {
            best.remaining
        };
        let trade = match incoming.side {
            Side::Buy => Trade {
                price: best.price,
                quantity: qty,
                buy_order: *incoming,
                sell_order: best,
                timestamp: now,
            },
            Side::Sell => Trade {
                price: best.price,
                quantity: qty,
                buy_order: best,
                sell_order: *incoming,
                timestamp: now,
            },
        };
        let ghost before = *incoming;
        let ghost book = opposing@;
        assert(best.remaining > 0);
        incoming.remaining = incoming.remaining - qty;
        let rest = best.remaining - qty;
        trades.push_front(trade);
        proof {
            assert((done + seq![trade]).reverse() =~= seq![trade] + done.reverse());
            done = done + seq![trade];
        }
        if rest > 0 {
            let reduced = Order {
                side: best.side,
                price: best.price,
                decimals: best.decimals,
                original_qty: best.original_qty,
                remaining: rest,
                timestamp: best.timestamp,
            };
            opposing.set(0, reduced);
            proof {
                assert(*incoming == with_remaining(before, (before.remaining - qty) as i64));
                assert(match_spec(before, book, now) == (*incoming, opposing@, seq![trade]));
                assert(match_spec(*incoming, opposing@, now).2 =~= Seq::<Trade>::empty());
                assert(done + Seq::<Trade>::empty() =~= done);
                assert(resting_ok(opposite(side), opposing@)) by {
                    assert forall|i: int| 0 <= i < opposing@.len() implies (#[trigger] opposing@[i]).remaining > 0
                        && opposing@[i].side == opposite(side) by {
                        if i > 0 {
                            assert(opposing@[i] == book[i]);
                        }
                    }
                }
            }
        } else {
            opposing.remove(0);
            proof {
                assert(opposing@ =~= book.drop_first());
                assert(*incoming == with_remaining(before, (before.remaining - qty) as i64));
                let r2 = match_spec(*incoming, opposing@, now);
                assert(match_spec(before, book, now) == (r2.0, r2.1, seq![trade] + r2.2));
                assert(done + r2.2 =~= (done.drop_last()) + (seq![trade] + r2.2));
                assert(resting_ok(opposite(side), opposing@)) by {
                    assert forall|i: int| 0 <= i < opposing@.len() implies (#[trigger] opposing@[i]).remaining > 0
                        && opposing@[i].side == opposite(side) by {
                        assert(opposing@[i] == book[i + 1]);
                    }
                }
            }
        }
    }
    proof {
        assert(match_spec(*incoming, opposing@, now).2 =~= Seq::<Trade>::empty());
        assert(done + Seq::<Trade>::empty() =~= done);
    }
}

impl OrderBook {
    /// An empty book with no trades.
    pub fn new() -> (b: OrderBook)
        ensures
            b@ == empty_book(),
            b@.wf(),
            b@.sound(),
    {
        OrderBook { asks: Vec::new(), bids: Vec::new(), matched: std::collections::VecDeque::new() }
    }

    /// Checks an order before it is accepted: `InvalidQuantity` where its
    /// quantity is not positive, else `InvalidPrice` where its price is not.
    pub fn validate_order(order: &Order) -> (r: Result<(), OrderError>)
        ensures
            r == validation(*order),
    {
        if order.remaining <= 0 {
            return Err(OrderError::InvalidQuantity);
        }
        if order.price <= 0 {
            return Err(OrderError::InvalidPrice);
        }
        Ok(())
    }

    /// Runs the matching engine on `order` at time `now` (milliseconds since
    /// the Unix epoch, the time stamped on the trades it makes).
    pub fn process_order(&mut self, order: Order, now: u128)
        ensures
            final(self)@ == process_spec(old(self)@, order, now),
            final(self)@.wf(),
            old(self)@.sound() && order_sound(order) ==> final(self)@.sound(),
    {
        proof {
            use_type_invariant(&*self);
            lemma_process_wf(self@, order, now);
            if self@.sound() && order_sound(order) {
                law_resting_orders_stay_sound(self@, order, now);
            }
        }
        let ghost start = self@;
        let mut taken = OrderBook::new();
        std::mem::swap(self, &mut taken);
        proof {
            use_type_invariant(&taken);
        }
        let OrderBook { mut asks, mut bids, mut matched } = taken;
        let ghost before = matched@;
        let mut incoming = order;
        match order.side {
            Side::Buy => {
                match_against(&mut incoming, &mut asks, &mut matched, now);
                if incoming.remaining > 0 {
                    insert_ranked_exec(Side::Buy, &mut bids, incoming);
                }
            },
            Side::Sell => {
                match_against(&mut incoming, &mut bids, &mut matched, now);
                if incoming.remaining > 0 {
                    insert_ranked_exec(Side::Sell, &mut asks, incoming);
                }
            },
        }
        proof {
            let r = match_in_book(start, order, now);
            assert((r.2.reverse() + before).reverse() =~= before.reverse() + r.2);
        }
        *self = OrderBook { asks, bids, matched };
    }

    /// Submits an order: a refused order leaves the book as it is; an
    /// accepted one is processed at the current time of the system clock
    /// (0 where the clock reads before the Unix epoch).
    pub fn submit_order(&mut self, order: Order) -> (r: Result<(), OrderError>)
        ensures
            r == validation(order),
            r is Err ==> final(self)@ == old(self)@,
            r is Ok ==> exists|now: u128| final(self)@ == process_spec(old(self)@, order, now),
            final(self)@.wf(),
            old(self)@.sound() && order.remaining <= order.original_qty ==> final(self)@.sound(),
    {
        proof {
            use_type_invariant(&*self);
        }
        let checked = OrderBook::validate_order(&order);
        if checked.is_err() {
            return checked;
        }
        let now = match clock::now_millis() {
            Some(ms) => ms,
            None => 0,
        };
        self.process_order(order, now);
        Ok(())
    }

    /// One turn of the matching engine, given what the channel of incoming
    /// orders gave: an order is processed at the current time of the system
    /// clock (0 where the clock reads before the Unix epoch) and the engine
    /// goes on; with no order waiting it idles; once the channel is
    /// disconnected it stops.
    pub fn engine_step(&mut self, received: Result<Order, TryRecvError>) -> (a: EngineAction)
        ensures
            final(self)@.wf(),
            match received {
                Ok(o) => a == EngineAction::Continue && exists|now: u128|
                    final(self)@ == process_spec(old(self)@, o, now),
                Err(TryRecvError::Empty) => a == EngineAction::Idle && final(self)@ == old(self)@,
                Err(TryRecvError::Disconnected) => a == EngineAction::Stop && final(self)@ == old(self)@,
            },
            old(self)@.sound() && (match received {
                Ok(o) => order_sound(o),
                Err(_) => true,
            }) ==> final(self)@.sound(),
    {
        proof {
            use_type_invariant(&*self);
        }
        match received {
            Ok(order) => {
                let now = match clock::now_millis() {
                    Some(ms) => ms,
                    None => 0,
                };
                self.process_order(order, now);
                EngineAction::Continue
            },
            Err(TryRecvError::Empty) => EngineAction::Idle,
            Err(TryRecvError::Disconnected) => EngineAction::Stop,
        }
    }

    /// The resting sell orders, lowest price first and, at equal price,
    /// earliest first.
    pub fn get_asks(&self) -> (r: Vec<Order>)
        ensures
            r@ == self@.asks,
            ranked(Side::Sell, r@),
    {
        proof {
            use_type_invariant(self);
        }
        let mut out: Vec<Order> = Vec::new();
        let mut i: usize = 0;
        while i < self.asks.len()
            invariant
                0 <= i <= self.asks.len(),
                out@ == self.asks@.subrange(0, i as int),
            decreases self.asks.len() - i,
        {
            out.push(self.asks[i]);
            i = i + 1;
            proof {
                assert(out@ =~= self.asks@.subrange(0, i as int));
            }
        }
        proof {
            assert(self.asks@.subrange(0, i as int) =~= self.asks@);
        }
        out
    }

    /// The resting buy orders, highest price first and, at equal price,
    /// earliest first.
    pub fn get_bids(&self) -> (r: Vec<Order>)
        ensures
            r@ == self@.bids,
            ranked(Side::Buy, r@),
    {
        proof {
            use_type_invariant(self);
        }
        let mut out: Vec<Order> = Vec::new();
        let mut i: usize = 0;
        while i < self.bids.len()
            invariant
                0 <= i <= self.bids.len(),
                out@ == self.bids@.subrange(0, i as int),
            decreases self.bids.len() - i,
        {
            out.push(self.bids[i]);
            i = i + 1;
            proof {
                assert(out@ =~= self.bids@.subrange(0, i as int));
            }
        }
        proof {
            assert(self.bids@.subrange(0, i as int) =~= self.bids@);
        }
        out
    }

    /// Every trade made, most recent first.
    pub fn get_matched_orders(&self) -> (r: Vec<Trade>)
        ensures
            r@ == self@.trades.reverse(),
    {
        let mut out: Vec<Trade> = Vec::new();
        let mut i: usize = 0;
        while i < self.matched.len()
            invariant
                0 <= i <= self.matched.len(),
                out@ == self.matched@.subrange(0, i as int),
            decreases self.matched.len() - i,
        {
            out.push(self.matched[i]);
            i = i + 1;
            proof {
                assert(out@ =~= self.matched@.subrange(0, i as int));
            }
        }
        proof {
            assert(self.matched@.subrange(0, i as int) =~= self.matched@);
            assert(self.matched@.reverse().reverse() =~= self.matched@);
        }
        out
    }
}

impl Default for OrderBook {
    fn default() -> (b: OrderBook)
        ensures
            b@ == empty_book(),
    {
        OrderBook::new()
    }
}

} // verus!
