//! The order of merge jobs: by count, and among equal counts by descending
//! pair, so that the greatest job is the one to serve first.

use crate::scheduler::outranks;
use crate::scheduler::MergeJob;
use std::cmp::Ordering;
use vstd::prelude::*;
use vstd::std_specs::cmp::PartialEqSpecImpl;
use vstd::std_specs::cmp::PartialOrdSpecImpl;

verus! {

impl PartialEq for MergeJob {
    /// Two jobs are equal where their counts and their pairs are, whatever
    /// their words.
    fn eq(&self, other: &MergeJob) -> (same: bool) {
        self.count == other.count && self.pair.0 == other.pair.0 && self.pair.1 == other.pair.1
    }
}

impl PartialEqSpecImpl for MergeJob {
    open spec fn obeys_eq_spec() -> bool {
        true
    }

    open spec fn eq_spec(&self, other: &MergeJob) -> bool {
        self.count == other.count && self.pair == other.pair
    }
}

impl PartialOrd for MergeJob {
    /// A job is greater than another where it is served before it.
    fn partial_cmp(&self, other: &MergeJob) -> (order: Option<Ordering>) {
        if self.outranks(other) {
            Some(Ordering::Greater)
        } else if other.outranks(self) {
            Some(Ordering::Less)
        } else {
            Some(Ordering::Equal)
        }
    }
}

impl PartialOrdSpecImpl for MergeJob {
    open spec fn obeys_partial_cmp_spec() -> bool {
        true
    }

    open spec fn partial_cmp_spec(&self, other: &MergeJob) -> Option<Ordering> {
        if outranks(self@, other@) {
            Some(Ordering::Greater)
        } else if outranks(other@, self@) {
            Some(Ordering::Less)
        } else {
            Some(Ordering::Equal)
        }
    }
}

} // verus!
