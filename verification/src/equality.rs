//! `==` on boards.

use crate::grid::Grid;
use vstd::prelude::*;
use vstd::std_specs::cmp::PartialEqSpecImpl;

verus! {

impl PartialEq for Grid {
    fn eq(&self, other: &Grid) -> (same: bool) {
        self.same_as(other)
    }
}

impl PartialEqSpecImpl for Grid {
    open spec fn obeys_eq_spec() -> bool {
        true
    }

    open spec fn eq_spec(&self, other: &Grid) -> bool {
        self@ == other@
    }
}

impl Eq for Grid {

}

} // verus!
