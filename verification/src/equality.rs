//! Equality of archived maps: the same pairs in the same order.

use crate::archived::ArchivedIndexMap;
use vstd::prelude::*;
use vstd::std_specs::cmp::PartialEqSpecImpl;

verus! {

impl<'a> PartialEq for ArchivedIndexMap<'a> {
    fn eq(&self, other: &Self) -> (same: bool) {
        self.same_entries(other)
    }
}

impl<'a> PartialEqSpecImpl for ArchivedIndexMap<'a> {
    open spec fn obeys_eq_spec() -> bool {
        true
    }

    open spec fn eq_spec(&self, other: &Self) -> bool {
        self@ == other@
    }
}

} // verus!
