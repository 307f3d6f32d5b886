//! What the comparison operators of a type mean in contracts.

use vstd::prelude::*;
use vstd::std_specs::cmp::PartialOrdSpec;
use core::cmp::Ordering;

verus! {

/// `a > b` for a type whose comparison follows its specification.
pub open spec fn spec_greater<T: PartialOrd>(a: &T, b: &T) -> bool {
    a.partial_cmp_spec(b) == Some(Ordering::Greater)
}

/// `a < b` for a type whose comparison follows its specification.
pub open spec fn spec_less<T: PartialOrd>(a: &T, b: &T) -> bool {
    a.partial_cmp_spec(b) == Some(Ordering::Less)
}

/// `a <= b` for a type whose comparison follows its specification.
pub open spec fn spec_less_eq<T: PartialOrd>(a: &T, b: &T) -> bool {
    a.partial_cmp_spec(b) == Some(Ordering::Less) || a.partial_cmp_spec(b) == Some(Ordering::Equal)
}

/// `a >= b` for a type whose comparison follows its specification.
pub open spec fn spec_greater_eq<T: PartialOrd>(a: &T, b: &T) -> bool {
    a.partial_cmp_spec(b) == Some(Ordering::Greater) || a.partial_cmp_spec(b) == Some(
        Ordering::Equal,
    )
}

/// Whether a type's comparison operators follow their specification.
pub open spec fn compares_by_spec<T: PartialOrd>() -> bool {
    T::obeys_partial_cmp_spec()
}

} // verus!
