//! The three-valued outcome of comparing two candidate solutions.

use vstd::prelude::*;

verus! {

/// Result of a comparison along one objective or along the whole hierarchy.
/// `Less` means the first argument ranks strictly better (smaller fitness),
/// `Greater` strictly worse, `Equal` that the comparison is tied.
#[derive(Clone, Copy, Debug, PartialEq, Eq, Structural)]
pub enum Comparison {
    Less,
    Equal,
    Greater,
}

/// The comparison seen from the other side.
pub open spec fn spec_flip(c: Comparison) -> Comparison {
    match c {
        Comparison::Less => Comparison::Greater,
        Comparison::Equal => Comparison::Equal,
        Comparison::Greater => Comparison::Less,
    }
}

/// Comparison of two fixed-point fitness values, smaller is better.
pub open spec fn spec_cmp_i64(a: i64, b: i64) -> Comparison {
    if a < b {
        Comparison::Less
    } else if a > b {
        Comparison::Greater
    } else {
        Comparison::Equal
    }
}

/// Compares two fixed-point fitness values.
pub fn cmp_i64(a: i64, b: i64) -> (r: Comparison)
    ensures
        r == spec_cmp_i64(a, b),
{
    if a < b {
        Comparison::Less
    } else if a > b {
        Comparison::Greater
    } else {
        Comparison::Equal
    }
}

} // verus!
