//! Small arithmetic helpers over `i32`.

use vstd::prelude::*;

verus! {

/// Returns the sum of the given two `i32` numbers.
pub fn sum2(a: i32, b: i32) -> (r: i32)
    requires
        i32::MIN <= a + b <= i32::MAX,
    ensures
        r == a + b,
{
    a + b
}

/// Returns the product of the given two `i32` numbers.
pub fn mul2(a: i32, b: i32) -> (r: i32)
    requires
        i32::MIN <= a * b <= i32::MAX,
    ensures
        r == a * b,
{
    mul21(a, b)
}

/// Returns the product of the given two `i32` numbers.
pub fn mul21(a: i32, b: i32) -> (r: i32)
    requires
        i32::MIN <= a * b <= i32::MAX,
    ensures
        r == a * b,
{
    return a * b;
}

} // verus!
