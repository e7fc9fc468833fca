//! Equality and ordering of orders: two orders are equal when they have the
//! same price and timestamp; a higher price is greater, and at equal price the
//! earlier order is greater.

use vstd::prelude::*;

use std::cmp::Ordering;
use vstd::std_specs::cmp::PartialEqSpec;
use vstd::std_specs::cmp::PartialOrdSpec;

use crate::order::Order;

verus! {

/// The comparison that `partial_cmp` computes on orders.
pub open spec fn order_compare(a: Order, b: Order) -> Ordering {
    if a.price < b.price {
        Ordering::Less
    } else if a.price > b.price {
        Ordering::Greater
    } else if a.timestamp > b.timestamp {
        Ordering::Less
    } else if a.timestamp < b.timestamp {
        Ordering::Greater
    } else {
        Ordering::Equal
    }
}

impl PartialEq for Order {
    fn eq(&self, other: &Self) -> (r: bool) {
        self.price == other.price && self.timestamp == other.timestamp
    }
}

impl vstd::std_specs::cmp::PartialEqSpecImpl for Order {
    open spec fn obeys_eq_spec() -> bool {
        true
    }

    open spec fn eq_spec(&self, other: &Order) -> bool {
        self.price == other.price && self.timestamp == other.timestamp
    }
}

impl Eq for Order {
}

impl PartialOrd for Order {
    fn partial_cmp(&self, other: &Self) -> (r: Option<Ordering>) {
        if self.price < other.price {
            Some(Ordering::Less)
        } else if self.price > other.price {
            Some(Ordering::Greater)
        } else if self.timestamp > other.timestamp {
            Some(Ordering::Less)
        } else if self.timestamp < other.timestamp {
            Some(Ordering::Greater)
        } else {
            Some(Ordering::Equal)
        }
    }
}

impl vstd::std_specs::cmp::PartialOrdSpecImpl for Order {
    open spec fn obeys_partial_cmp_spec() -> bool {
        true
    }

    open spec fn partial_cmp_spec(&self, other: &Order) -> Option<Ordering> {
        Some(order_compare(*self, *other))
    }
}

/// Orders are equal exactly when they have the same price and the same
/// timestamp, which is exactly when `partial_cmp` finds them equal; a higher
/// price is greater, and at equal price the earlier order is greater.
pub proof fn law_order_equality_and_comparison(a: Order, b: Order)
    ensures
        a.eq_spec(&b) <==> (a.price == b.price && a.timestamp == b.timestamp),
        a.eq_spec(&b) <==> a.partial_cmp_spec(&b) == Some(Ordering::Equal),
        a.partial_cmp_spec(&b) == Some(Ordering::Greater) <==> (a.price > b.price || (a.price == b.price
            && a.timestamp < b.timestamp)),
        a.partial_cmp_spec(&b) == Some(Ordering::Less) <==> (a.price < b.price || (a.price == b.price
            && a.timestamp > b.timestamp)),
{
}

} // verus!
