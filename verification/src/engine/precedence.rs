//! Equality and comparison of orders.
use super::order::Order;
use std::cmp::Ordering;
use vstd::prelude::*;
use vstd::std_specs::cmp::{PartialEqSpecImpl, PartialOrdSpecImpl};

verus! {

impl PartialEq for Order {
    /// Two orders are the same order when they have the same identifier.
    fn eq(&self, other: &Order) -> (same: bool) {
        self.id() == other.id()
    }
}

impl PartialEqSpecImpl for Order {
    open spec fn obeys_eq_spec() -> bool {
        true
    }

    open spec fn eq_spec(&self, other: &Order) -> bool {
        self@.id == other@.id
    }
}

impl PartialOrd for Order {
    /// Orders with the same identifier compare equal; other orders compare
    /// as their limit prices do.
    fn partial_cmp(&self, other: &Order) -> (order: Option<Ordering>) {
        if self.id() == other.id() {
            Some(Ordering::Equal)
        } else if self.limit_price() < other.limit_price() {
            Some(Ordering::Less)
        } else if self.limit_price() > other.limit_price() {
            Some(Ordering::Greater)
        } else {
            Some(Ordering::Equal)
        }
    }
}

impl PartialOrdSpecImpl for Order {
    open spec fn obeys_partial_cmp_spec() -> bool {
        true
    }

    open spec fn partial_cmp_spec(&self, other: &Order) -> Option<Ordering> {
        if self@.id == other@.id {
            Some(Ordering::Equal)
        } else if self@.limit_price < other@.limit_price {
            Some(Ordering::Less)
        } else if self@.limit_price > other@.limit_price {
            Some(Ordering::Greater)
        } else {
            Some(Ordering::Equal)
        }
    }
}

} // verus!
