//! The one source of chance: a draw from the thread's random generator.

use vstd::prelude::*;

verus! {

/// The smaller of two bounds.
pub open spec fn lower_of(a: int, b: int) -> int {
    if a <= b {
        a
    } else {
        b
    }
}

/// The larger of two bounds.
pub open spec fn upper_of(a: int, b: int) -> int {
    if a <= b {
        b
    } else {
        a
    }
}

/// Trusted: calls `nannou::rand::random_range`, which puts its two bounds in
/// order and draws from the thread's generator a value of the half-open
/// range between them: at least the smaller bound, below the larger one.
/// It panics when the bounds are equal, so they must differ here. Nothing of
/// this is proved; no two draws need agree.
#[verifier::external_body]
pub(crate) fn random_range(min: i64, max: i64) -> (r: i64)
    requires
        min != max,
    ensures
        lower_of(min as int, max as int) <= r < upper_of(min as int, max as int),
{
    nannou::rand::random_range(min, max)
}

} // verus!
