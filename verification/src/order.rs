//! Chronological comparison of local date-times by their minute count.
use vstd::prelude::*;
use std::cmp::Ordering;
use crate::datetime::LocalDateTime;

verus! {

impl PartialOrd for LocalDateTime {
    fn partial_cmp(&self, other: &Self) -> (r: Option<Ordering>) {
        let a = self.minutes_key();
        let b = other.minutes_key();
        if a < b {
            Some(Ordering::Less)
        } else if a == b {
            Some(Ordering::Equal)
        } else {
            Some(Ordering::Greater)
        }
    }
}

impl vstd::std_specs::cmp::PartialOrdSpecImpl for LocalDateTime {
    open spec fn obeys_partial_cmp_spec() -> bool {
        true
    }

    open spec fn partial_cmp_spec(&self, other: &Self) -> Option<Ordering> {
        if self.minute_number() < other.minute_number() {
            Some(Ordering::Less)
        } else if self.minute_number() == other.minute_number() {
            Some(Ordering::Equal)
        } else {
            Some(Ordering::Greater)
        }
    }
}

} // verus!
