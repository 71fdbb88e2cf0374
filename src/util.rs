//! Wrapping an integer into a half-open range.
use vstd::prelude::*;

verus! {

/// `i` brought into `[lower, upper)` by modular reduction.
pub open spec fn wrap_spec(i: int, lower: int, upper: int) -> int {
    lower + (i - lower) % (upper - lower)
}

/// Fits `i` into the range `lower..upper`, wrapping its value around if
/// necessary (negative values included).
pub fn wrap(i: i32, lower: i32, upper: i32) -> (r: i32)
    requires
        lower < upper,
    ensures
        r == wrap_spec(i as int, lower as int, upper as int),
        lower <= r < upper,
{
    let range_size: i64 = upper as i64 - lower as i64;
    let mut j: i64 = i as i64;
    if j < lower as i64 {
        let k: i64 = (lower as i64 - j) / range_size + 1;
        proof {
            let d = lower as int - i as int;
            vstd::arithmetic::div_mod::lemma_fundamental_div_mod(d, range_size as int);
            assert(0 <= d % (range_size as int) < range_size);
            assert(range_size * (k - 1) <= d) by (nonlinear_arith)
                requires
                    d == range_size * (d / (range_size as int)) + d % (range_size as int),
                    k - 1 == d / (range_size as int),
                    0 <= d % (range_size as int),
            ;
            assert(range_size * k <= d + range_size) by (nonlinear_arith)
                requires
                    range_size * (k - 1) <= d,
            ;
            assert(range_size * k > d) by (nonlinear_arith)
                requires
                    d == range_size * (d / (range_size as int)) + d % (range_size as int),
                    k - 1 == d / (range_size as int),
                    d % (range_size as int) < range_size,
            ;
            vstd::arithmetic::div_mod::lemma_mod_multiples_vanish(
                k as int,
                i - lower,
                range_size as int,
            );
        }
        j = j + range_size * k;
    }
    let r: i64 = lower as i64 + (j - lower as i64) % range_size;
    proof {
        vstd::arithmetic::div_mod::lemma_fundamental_div_mod(j - lower, range_size as int);
    }
    r as i32
}

} // verus!
