//! The order of search entries under which the lightest entry is the
//! greatest, as a max-heap of entries needs it.
use vstd::prelude::*;
use std::cmp::Ordering;
use vstd::std_specs::cmp::PartialOrdSpecImpl;
use crate::dijkstra::Distance;
use crate::min_queue::pops_first;

verus! {

/// `b`'s weight compared with `a`'s, then `a`'s id compared with `b`'s: the
/// smaller weight is the greater entry, and among equal weights the larger id.
pub open spec fn entry_order(a: Distance, b: Distance) -> Ordering {
    if a.weight > b.weight {
        Ordering::Less
    } else if a.weight < b.weight {
        Ordering::Greater
    } else if a.id < b.id {
        Ordering::Less
    } else if a.id > b.id {
        Ordering::Greater
    } else {
        Ordering::Equal
    }
}

impl PartialOrd for Distance {
    fn partial_cmp(&self, other: &Self) -> (r: Option<Ordering>) {
        let o = if self.weight > other.weight {
            Ordering::Less
        } else if self.weight < other.weight {
            Ordering::Greater
        } else if self.id < other.id {
            Ordering::Less
        } else if self.id > other.id {
            Ordering::Greater
        } else {
            Ordering::Equal
        };
        Some(o)
    }
}

impl PartialOrdSpecImpl for Distance {
    open spec fn obeys_partial_cmp_spec() -> bool {
        true
    }

    open spec fn partial_cmp_spec(&self, other: &Self) -> Option<Ordering> {
        Some(entry_order(*self, *other))
    }
}

/// The entry that `MinQueue::pop` hands out is one that is greatest in the
/// entry order, the one a max-heap ordered by it hands out first.
pub proof fn lemma_pops_greatest(a: Distance, b: Distance)
    ensures
        pops_first(a, b) <==> entry_order(a, b) != Ordering::Less,
{
}

} // verus!
