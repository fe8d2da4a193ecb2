//! The smallest and the largest of a few numerators.

use vstd::prelude::*;

verus! {

/// Calls `min_max::min`, which returns its first argument when that is
/// strictly smaller than the second, and the second argument otherwise.
#[verifier::external_body]
pub(crate) fn lesser(a: u64, b: u64) -> (res: u64)
    ensures
        res == if a < b { a } else { b },
{
    min_max::min(a, b)
}

/// Calls `min_max::max`, which returns its first argument when that is
/// strictly larger than the second, and the second argument otherwise.
#[verifier::external_body]
pub(crate) fn greater(a: u64, b: u64) -> (res: u64)
    ensures
        res == if a > b { a } else { b },
{
    min_max::max(a, b)
}

/// The smallest of three numbers, as a mathematical integer.
pub open spec fn lowest(a: int, b: int, c: int) -> int {
    if a <= b && a <= c {
        a
    } else if b <= c {
        b
    } else {
        c
    }
}

/// The largest of three numbers, as a mathematical integer.
pub open spec fn highest(a: int, b: int, c: int) -> int {
    if a >= b && a >= c {
        a
    } else if b >= c {
        b
    } else {
        c
    }
}

/// The smallest of three numbers.
pub fn least_of_three(a: u64, b: u64, c: u64) -> (res: u64)
    ensures
        res == lowest(a as int, b as int, c as int),
{
    lesser(a, lesser(b, c))
}

/// The largest of three numbers.
pub fn greatest_of_three(a: u64, b: u64, c: u64) -> (res: u64)
    ensures
        res == highest(a as int, b as int, c as int),
{
    greater(a, greater(b, c))
}

} // verus!
