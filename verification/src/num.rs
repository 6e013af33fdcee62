//! Saturating arithmetic on signed counts, stated over the integers.

use vstd::prelude::*;

verus! {

/// `a + b` held inside the `i64` range.
pub open spec fn clamp_i64(n: int) -> int {
    if n > i64::MAX { i64::MAX as int } else if n < i64::MIN { i64::MIN as int } else { n }
}

/// `a + b`, held at the nearest end of the `i64` range.
pub fn saturating_add_i64(a: i64, b: i64) -> (r: i64)
    ensures
        r == clamp_i64(a + b),
{
    if b > 0 && a > i64::MAX - b {
        i64::MAX
    } else if b < 0 && a < i64::MIN - b {
        i64::MIN
    } else {
        a + b
    }
}

/// `-a`, held at `i64::MAX` for the one value whose negation does not fit.
pub fn saturating_neg_i64(a: i64) -> (r: i64)
    ensures
        r == clamp_i64(-a),
{
    if a == i64::MIN {
        i64::MAX
    } else {
        -a
    }
}

/// `|a|`, held at `i64::MAX` for the one value whose magnitude does not fit.
pub fn saturating_abs_i64(a: i64) -> (r: i64)
    ensures
        r == clamp_i64(if a < 0 { -a } else { a as int }),
{
    if a == i64::MIN {
        i64::MAX
    } else if a < 0 {
        -a
    } else {
        a
    }
}

} // verus!
