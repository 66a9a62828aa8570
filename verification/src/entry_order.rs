//! How two entries of one map compare: by key under the map's comparator,
//! and for equal keys with the higher version first.

use core::cmp::Ordering;
use vstd::prelude::*;
use vstd::std_specs::cmp::{PartialEqSpecImpl, PartialOrdSpecImpl};
use crate::comparator::{Comparator, Order};
use crate::entry::EntryRef;
use crate::model::pair_order;

verus! {

impl<'a, C: Comparator> PartialEq for EntryRef<'a, C> {
    fn eq(&self, other: &Self) -> (r: bool) {
        proof {
            self.lemma_view();
            other.lemma_view();
        }
        match self.comparator.compare(self.key, other.key) {
            Order::Equal => self.trailer == other.trailer,
            _ => false,
        }
    }
}

impl<'a, C: Comparator> PartialEqSpecImpl for EntryRef<'a, C> {
    open spec fn obeys_eq_spec() -> bool {
        true
    }

    open spec fn eq_spec(&self, other: &Self) -> bool {
        pair_order(self.spec_comparator(), self@.key, self@.version, other@.key, other@.version)
            == Order::Equal
    }
}

impl<'a, C: Comparator> PartialOrd for EntryRef<'a, C> {
    fn partial_cmp(&self, other: &Self) -> (r: Option<Ordering>) {
        proof {
            self.lemma_view();
            other.lemma_view();
        }
        match self.comparator.compare(self.key, other.key) {
            Order::Less => Some(Ordering::Less),
            Order::Greater => Some(Ordering::Greater),
            Order::Equal => if self.trailer > other.trailer {
                Some(Ordering::Less)
            } else if self.trailer < other.trailer {
                Some(Ordering::Greater)
            } else {
                Some(Ordering::Equal)
            },
        }
    }
}

impl<'a, C: Comparator> PartialOrdSpecImpl for EntryRef<'a, C> {
    open spec fn obeys_partial_cmp_spec() -> bool {
        true
    }

    open spec fn partial_cmp_spec(&self, other: &Self) -> Option<Ordering> {
        match pair_order(
            self.spec_comparator(),
            self@.key,
            self@.version,
            other@.key,
            other@.version,
        ) {
            Order::Less => Some(Ordering::Less),
            Order::Equal => Some(Ordering::Equal),
            Order::Greater => Some(Ordering::Greater),
        }
    }
}

} // verus!
