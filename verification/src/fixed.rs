//! Fixed-point degrees and exact integer division.
//!
//! A coordinate is an `i64` that counts units of 2^-32 degree. Every cell
//! size of the grid is a whole number of units, so cell bounds and overlaps
//! are exact; where a quotient has to become a whole number, as for pixels,
//! it is rounded down by [`div_floor`] or up by [`div_ceil`], never to the
//! nearest.

use vstd::arithmetic::div_mod::{
    lemma_fundamental_div_mod, lemma_fundamental_div_mod_converse, lemma_mod_bound,
};
use vstd::prelude::*;

verus! {

/// Number of fractional bits of a coordinate.
pub const FRACTION_BITS: u32 = 32;

/// Units in one degree: 2^32.
pub const UNITS_PER_DEGREE: i64 = 4294967296;

/// Largest latitude, 90 degrees, in units.
pub const LAT_LIMIT: i64 = 386547056640;

/// Largest longitude, 180 degrees, in units.
pub const LON_LIMIT: i64 = 773094113280;

/// The largest integer `q` with `q * b <= a`, for positive `b`.
pub open spec fn floor_div(a: int, b: int) -> int
    recommends
        b > 0,
{
    a / b
}

/// The smallest integer `q` with `a <= q * b`, for positive `b`.
pub open spec fn ceil_div(a: int, b: int) -> int
    recommends
        b > 0,
{
    -((-a) / b)
}

/// `floor_div(a, b)` is the one integer `q` with `q * b <= a < (q + 1) * b`.
pub proof fn lemma_floor_div_bounds(a: int, b: int)
    requires
        b > 0,
    ensures
        floor_div(a, b) * b <= a < (floor_div(a, b) + 1) * b,
{
    lemma_fundamental_div_mod(a, b);
    lemma_mod_bound(a, b);
    assert(b * (a / b) == (a / b) * b) by (nonlinear_arith);
    assert(((a / b) + 1) * b == (a / b) * b + b) by (nonlinear_arith);
}

/// `ceil_div(a, b)` is the one integer `q` with `(q - 1) * b < a <= q * b`.
pub proof fn lemma_ceil_div_bounds(a: int, b: int)
    requires
        b > 0,
    ensures
        (ceil_div(a, b) - 1) * b < a <= ceil_div(a, b) * b,
{
    lemma_floor_div_bounds(-a, b);
    let q = (-a) / b;
    assert((-q - 1) * b == -((q + 1) * b)) by (nonlinear_arith);
    assert((-q) * b == -(q * b)) by (nonlinear_arith);
}

/// Any `q` with `q * b <= a < (q + 1) * b` is `floor_div(a, b)`.
pub proof fn lemma_floor_div_unique(a: int, b: int, q: int)
    requires
        b > 0,
        q * b <= a < (q + 1) * b,
    ensures
        q == floor_div(a, b),
{
    assert((q + 1) * b == q * b + b) by (nonlinear_arith);
    assert(b * q == q * b) by (nonlinear_arith);
    lemma_fundamental_div_mod_converse(a, b, q, a - q * b);
}

/// Any `q` with `(q - 1) * b < a <= q * b` is `ceil_div(a, b)`.
pub proof fn lemma_ceil_div_unique(a: int, b: int, q: int)
    requires
        b > 0,
        (q - 1) * b < a <= q * b,
    ensures
        q == ceil_div(a, b),
{
    assert((-q) * b == -(q * b)) by (nonlinear_arith);
    assert((-q + 1) * b == -((q - 1) * b)) by (nonlinear_arith);
    lemma_floor_div_unique(-a, b, -q);
}

/// A whole number is at most `floor_div(a, b)` exactly when its product with
/// `b` is at most `a`.
pub proof fn lemma_floor_div_is_greatest(a: int, b: int, n: int)
    requires
        b > 0,
    ensures
        n <= floor_div(a, b) <==> n * b <= a,
{
    lemma_floor_div_bounds(a, b);
    let q = floor_div(a, b);
    assert(n <= q ==> n * b <= q * b) by (nonlinear_arith)
        requires
            b > 0,
    ;
    assert(n >= q + 1 ==> n * b >= (q + 1) * b) by (nonlinear_arith)
        requires
            b > 0,
    ;
}

/// A whole number is at least `ceil_div(a, b)` exactly when its product with
/// `b` is at least `a`.
pub proof fn lemma_ceil_div_is_least(a: int, b: int, n: int)
    requires
        b > 0,
    ensures
        ceil_div(a, b) <= n <==> a <= n * b,
{
    lemma_ceil_div_bounds(a, b);
    let q = ceil_div(a, b);
    assert(q <= n ==> q * b <= n * b) by (nonlinear_arith)
        requires
            b > 0,
    ;
    assert(n <= q - 1 ==> n * b <= (q - 1) * b) by (nonlinear_arith)
        requires
            b > 0,
    ;
}

/// Rounding the smaller of two numbers down never gives more than rounding
/// the larger one up.
pub proof fn lemma_floor_le_ceil(a: int, b: int, d: int)
    requires
        d > 0,
        a <= b,
    ensures
        floor_div(a, d) <= ceil_div(b, d),
{
    lemma_floor_div_bounds(a, d);
    lemma_ceil_div_bounds(b, d);
    let f = floor_div(a, d);
    let c = ceil_div(b, d);
    assert(f <= c) by (nonlinear_arith)
        requires
            f * d <= c * d,
            d > 0,
    ;
}

/// Floor of `a / b`.
pub fn div_floor(a: i128, b: i128) -> (q: i128)
    requires
        b > 0,
    ensures
        q == floor_div(a as int, b as int),
{
    if a >= 0 {
        a / b
    } else {
        let n: i128 = -(a + 1);
        let t: i128 = n / b;
        proof {
            lemma_floor_div_bounds(n as int, b as int);
            let q = -1 - t;
            assert((q + 1) * b == -(t * b)) by (nonlinear_arith)
                requires
                    q == -1 - t,
            ;
            assert(q * b == -((t + 1) * b)) by (nonlinear_arith)
                requires
                    q == -1 - t,
            ;
            lemma_floor_div_unique(a as int, b as int, q as int);
        }
        -1 - t
    }
}

/// Ceiling of `a / b`.
pub fn div_ceil(a: i128, b: i128) -> (q: i128)
    requires
        b > 0,
    ensures
        q == ceil_div(a as int, b as int),
{
    if a == 0 {
        0
    } else if a < 0 {
        let n: i128 = -(a + 1);
        let t: i128 = n / b;
        let r: i128 = n % b;
        proof {
            lemma_floor_div_bounds(n as int, b as int);
            lemma_fundamental_div_mod(n as int, b as int);
            assert(b * t == t * b) by (nonlinear_arith);
            assert((t + 1) * b == t * b + b) by (nonlinear_arith);
            assert((t + 2) * b == t * b + 2 * b) by (nonlinear_arith);
            if r == b - 1 {
                lemma_floor_div_unique(-(a as int), b as int, t + 1);
            } else {
                lemma_floor_div_unique(-(a as int), b as int, t as int);
            }
        }
        if r == b - 1 {
            -t - 1
        } else {
            -t
        }
    } else {
        let t: i128 = (a - 1) / b;
        proof {
            lemma_floor_div_bounds((a - 1) as int, b as int);
            let q = t + 1;
            assert((q - 1) * b == t * b) by (nonlinear_arith)
                requires
                    q == t + 1,
            ;
            lemma_ceil_div_unique(a as int, b as int, q as int);
        }
        t + 1
    }
}

} // verus!
