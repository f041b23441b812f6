use crate::side::Side;
use core::cmp::Ordering;
use vstd::prelude::*;
use vstd::std_specs::cmp::PartialOrdSpecImpl;

verus! {

/// How two sides compare: sides of different sign cannot be compared;
/// negative sides count from the end, so a larger value comes first.
pub open spec fn side_order(a: Side, b: Side) -> Option<Ordering> {
    if a.is_negative != b.is_negative {
        None
    } else if a.value == b.value {
        Some(Ordering::Equal)
    } else if a.is_negative {
        if b.value < a.value {
            Some(Ordering::Less)
        } else {
            Some(Ordering::Greater)
        }
    } else {
        if a.value < b.value {
            Some(Ordering::Less)
        } else {
            Some(Ordering::Greater)
        }
    }
}

impl PartialOrd for Side {
    fn partial_cmp(&self, other: &Self) -> (r: Option<Ordering>) {
        if self.is_negative != other.is_negative {
            None
        } else if self.value == other.value {
            Some(Ordering::Equal)
        } else if self.is_negative {
            if other.value < self.value {
                Some(Ordering::Less)
            } else {
                Some(Ordering::Greater)
            }
        } else {
            if self.value < other.value {
                Some(Ordering::Less)
            } else {
                Some(Ordering::Greater)
            }
        }
    }
}

impl PartialOrdSpecImpl for Side {
    open spec fn obeys_partial_cmp_spec() -> bool {
        true
    }

    open spec fn partial_cmp_spec(&self, other: &Self) -> Option<Ordering> {
        side_order(*self, *other)
    }
}

} // verus!
