//! The order in which subtrees leave a max-heap: the lightest is the
//! greatest.

use super::tree::Link;
use std::cmp::Ordering;
use vstd::prelude::*;

verus! {

impl Link {
    /// How this subtree compares with `other` in a max-heap: it is greater
    /// where it sorts first, that is where it is lighter, or as heavy with
    /// the smaller symbol. Subtrees with the same weight and symbol are equal
    /// in this order, whatever is below them.
    pub open spec fn heap_order(&self, other: &Link) -> Ordering {
        if other.spec_precedes(self) {
            Ordering::Less
        } else if self.spec_precedes(other) {
            Ordering::Greater
        } else {
            Ordering::Equal
        }
    }

    /// Compares two subtrees for a max-heap.
    pub fn cmp(&self, other: &Link) -> (o: Ordering)
        ensures
            o == self.heap_order(other),
    {
        if other.precedes(self) {
            Ordering::Less
        } else if self.precedes(other) {
            Ordering::Greater
        } else {
            Ordering::Equal
        }
    }
}

impl PartialOrd for Link {
    fn partial_cmp(&self, other: &Self) -> (o: Option<Ordering>) {
        Some(self.cmp(other))
    }
}

impl vstd::std_specs::cmp::PartialOrdSpecImpl for Link {
    open spec fn obeys_partial_cmp_spec() -> bool {
        true
    }

    open spec fn partial_cmp_spec(&self, other: &Self) -> Option<Ordering> {
        Some(self.heap_order(other))
    }
}

} // verus!
