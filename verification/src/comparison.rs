//! Equality and order of exact numbers, by their values.
use crate::perfect_precision_number::PerfectPrecisionNumber;
use core::cmp::Ordering;
use vstd::prelude::*;
use vstd::std_specs::cmp::PartialEqSpecImpl;
use vstd::std_specs::cmp::PartialOrdSpecImpl;

verus! {

impl PartialEq for PerfectPrecisionNumber {
    fn eq(&self, other: &Self) -> (r: bool) {
        self.same_value(other)
    }
}

impl PartialEqSpecImpl for PerfectPrecisionNumber {
    open spec fn obeys_eq_spec() -> bool {
        true
    }

    /// Whole numbers are equal where their values are, whichever of the two
    /// forms they have; a whole number never equals a `Rational`.
    open spec fn eq_spec(&self, other: &Self) -> bool {
        self.spec_same_value(other)
    }
}

impl Eq for PerfectPrecisionNumber {

}

impl PartialOrd for PerfectPrecisionNumber {
    fn partial_cmp(&self, other: &Self) -> (r: Option<Ordering>) {
        Some(self.cmp(other))
    }
}

impl PartialOrdSpecImpl for PerfectPrecisionNumber {
    open spec fn obeys_partial_cmp_spec() -> bool {
        true
    }

    open spec fn partial_cmp_spec(&self, other: &Self) -> Option<Ordering> {
        Some(self.order_to(other))
    }
}

impl PerfectPrecisionNumber {
    /// How this number stands to the other. The order is total.
    pub open spec fn order_to(&self, other: &Self) -> Ordering {
        if self.spec_less_than(other) {
            Ordering::Less
        } else if other.spec_less_than(self) {
            Ordering::Greater
        } else {
            Ordering::Equal
        }
    }

    /// Compares the two numbers by their values.
    pub fn cmp(&self, other: &Self) -> (r: Ordering)
        ensures
            r == self.order_to(other),
    {
        if self.less_than(other) {
            Ordering::Less
        } else if other.less_than(self) {
            Ordering::Greater
        } else {
            Ordering::Equal
        }
    }
}

} // verus!
