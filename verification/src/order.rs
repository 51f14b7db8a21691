//! Equality and order of spans.
//!
//! Two spans are equal when they have the same logical lines, wherever they
//! stand in a document and however deep they are indented there.

use crate::encoded::Encoded;
use crate::span::{lemma_order_equal, Order};
use std::cmp::Ordering;
use vstd::prelude::*;
use vstd::std_specs::cmp::{PartialEqSpecImpl, PartialOrdSpecImpl};

verus! {

/// An order of this library as one of the standard library.
pub open spec fn ordering_of(order: Order) -> Ordering {
    match order {
        Order::Less => Ordering::Less,
        Order::Equal => Ordering::Equal,
        Order::Greater => Ordering::Greater,
    }
}

impl<'a> PartialEq for Encoded<'a> {
    fn eq(&self, other: &Self) -> (r: bool) {
        let order = self.order(other);
        proof {
            lemma_order_equal(self@, other@);
        }
        match order {
            Order::Equal => true,
            _ => false,
        }
    }
}

impl<'a> PartialEqSpecImpl for Encoded<'a> {
    open spec fn obeys_eq_spec() -> bool {
        true
    }

    open spec fn eq_spec(&self, other: &Self) -> bool {
        self@.lines() == other@.lines()
    }
}

impl<'a> Eq for Encoded<'a> {

}

impl<'a> PartialOrd for Encoded<'a> {
    fn partial_cmp(&self, other: &Self) -> (r: Option<Ordering>) {
        Some(
            match self.order(other) {
                Order::Less => Ordering::Less,
                Order::Equal => Ordering::Equal,
                Order::Greater => Ordering::Greater,
            },
        )
    }
}

impl<'a> PartialOrdSpecImpl for Encoded<'a> {
    open spec fn obeys_partial_cmp_spec() -> bool {
        true
    }

    open spec fn partial_cmp_spec(&self, other: &Self) -> Option<Ordering> {
        Some(ordering_of(self@.order(other@)))
    }
}

} // verus!
