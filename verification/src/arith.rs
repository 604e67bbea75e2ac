//! Integer helpers: flooring division, and rounding a quotient to the
//! nearest integer.

use vstd::arithmetic::div_mod::{lemma_fundamental_div_mod, lemma_fundamental_div_mod_converse};
use vstd::prelude::*;

verus! {

/// The magnitude of a product is bounded by the product of the bounds
/// on its factors.
pub proof fn lemma_product_bounds(a: int, b: int, ma: int, mb: int)
    by (nonlinear_arith)
    requires
        -ma <= a <= ma,
        -mb <= b <= mb,
    ensures
        -(ma * mb) <= a * b <= ma * mb,
{
}

/// A product of non-negative factors is non-negative and bounded by
/// the product of the bounds on its factors.
pub proof fn lemma_product_range(a: int, b: int, ma: int, mb: int)
    by (nonlinear_arith)
    requires
        0 <= a <= ma,
        0 <= b <= mb,
    ensures
        0 <= a * b <= ma * mb,
{
}

/// A product with a factor of zero is zero, and so is its quotient by a
/// positive divisor.
pub proof fn lemma_zero_product(a: int, b: int, d: int)
    requires
        a == 0,
        d > 0,
    ensures
        a * b == 0,
        a * b / d == 0,
{
    assert(a * b == 0) by (nonlinear_arith)
        requires
            a == 0,
    ;
    assert(d * 0 == 0) by (nonlinear_arith);
    lemma_fundamental_div_mod_converse(0, d, 0, 0);
}

/// A quotient by a positive divisor lies between any bounds whose
/// multiples enclose the dividend.
pub proof fn lemma_quotient_range(n: int, d: int, lo: int, hi: int)
    requires
        d > 0,
        lo * d <= n <= hi * d,
    ensures
        lo <= n / d <= hi,
{
    lemma_fundamental_div_mod(n, d);
    let q = n / d;
    let r = n % d;
    assert(0 <= r < d);
    assert(d * q == q * d) by (nonlinear_arith);
    if q < lo {
        assert(q * d <= (lo - 1) * d) by (nonlinear_arith)
            requires
                q <= lo - 1,
                d > 0,
        ;
        assert((lo - 1) * d == lo * d - d) by (nonlinear_arith);
    }
    if q > hi {
        assert(q * d >= (hi + 1) * d) by (nonlinear_arith)
            requires
                q >= hi + 1,
                d > 0,
        ;
        assert((hi + 1) * d == hi * d + d) by (nonlinear_arith);
    }
}

/// The quotient rounded towards negative infinity.
pub fn floor_div(a: i128, d: i128) -> (q: i128)
    requires
        d > 0,
        a > i128::MIN,
    ensures
        q == a / d,
{
    if a >= 0 {
        a / d
    } else {
        let m: i128 = -a;
        let qa: i128 = m / d;
        let ra: i128 = m % d;
        proof {
            lemma_fundamental_div_mod(m as int, d as int);
            assert(d * qa == qa * d) by (nonlinear_arith);
            assert(m * d >= m) by (nonlinear_arith)
                requires
                    m >= 0,
                    d >= 1,
            ;
            lemma_quotient_range(m as int, d as int, 0, m as int);
        }
        if ra == 0 {
            proof {
                assert(d * (-qa) == -(qa * d)) by (nonlinear_arith);
                lemma_fundamental_div_mod_converse(a as int, d as int, -qa as int, 0);
            }
            -qa
        } else {
            proof {
                assert(d * (-qa - 1) == -(qa * d) - d) by (nonlinear_arith);
                lemma_fundamental_div_mod_converse(a as int, d as int, -qa - 1, d - ra);
            }
            -qa - 1
        }
    }
}

/// The largest magnitude of a dividend that `round_clamp` takes: 2^125.
pub const DIVIDEND_MAX: i128 = 0x2000_0000_0000_0000_0000_0000_0000_0000;

/// The largest divisor that `round_clamp` takes: 2^93.
pub const DIVISOR_MAX: i128 = 0x2000_0000_0000_0000_0000_0000;

/// `a / w` rounded to the nearest integer. A quotient exactly halfway
/// between two integers goes to the even one when `ties_to_even` holds
/// and to the larger one otherwise.
pub open spec fn round_div(a: int, w: int, ties_to_even: bool) -> int {
    let q = a / w;
    let r = a % w;
    if 2 * r < w {
        q
    } else if 2 * r > w {
        q + 1
    } else if ties_to_even && q % 2 == 0 {
        q
    } else {
        q + 1
    }
}

/// `v` limited to the range from `lo` to `hi`.
pub open spec fn clamp(v: int, lo: int, hi: int) -> int {
    if v < lo {
        lo
    } else if v > hi {
        hi
    } else {
        v
    }
}

/// The rounded quotient lies within half a unit of the exact one:
/// `2 * w * round_div(a, w) - 2 * a` is at most `w` in magnitude, and
/// greater than `-w` when ties go upwards.
pub proof fn lemma_round_div_error(a: int, w: int, ties_to_even: bool)
    requires
        w > 0,
    ensures
        -w <= 2 * (w * round_div(a, w, ties_to_even)) - 2 * a <= w,
        !ties_to_even ==> -w < 2 * (w * round_div(a, w, ties_to_even)) - 2 * a,
{
    lemma_fundamental_div_mod(a, w);
    let q = a / w;
    let r = a % w;
    assert(w * (q + 1) == w * q + w) by (nonlinear_arith);
}

/// Rounding a multiple of the divisor gives the exact quotient.
pub proof fn lemma_round_div_exact(c: int, w: int, ties_to_even: bool)
    requires
        w > 0,
    ensures
        round_div(c * w, w, ties_to_even) == c,
{
    assert(w * c == c * w) by (nonlinear_arith);
    lemma_fundamental_div_mod_converse(c * w, w, c, 0);
}

/// The rounded quotient lies between any integer bounds whose multiples
/// enclose the dividend.
pub proof fn lemma_round_div_range(a: int, w: int, lo: int, hi: int, ties_to_even: bool)
    requires
        w > 0,
        lo * w <= a <= hi * w,
    ensures
        lo <= round_div(a, w, ties_to_even) <= hi,
{
    lemma_quotient_range(a, w, lo, hi);
    lemma_fundamental_div_mod(a, w);
    let q = a / w;
    let r = a % w;
    if q == hi && r > 0 {
        assert(w * q == hi * w) by (nonlinear_arith)
            requires
                q == hi,
        ;
    }
}

/// Computes `round_div` and limits the result to `lo..=hi`. The bounds
/// on the dividend and the divisor keep every intermediate value within
/// `i128`.
pub fn round_clamp(a: i128, w: i128, ties_to_even: bool, lo: i64, hi: i64) -> (v: i64)
    requires
        0 < w <= DIVISOR_MAX,
        -DIVIDEND_MAX <= a <= DIVIDEND_MAX,
        lo <= hi,
    ensures
        v == clamp(round_div(a as int, w as int, ties_to_even), lo as int, hi as int),
{
    let q: i128 = floor_div(a, w);
    proof {
        lemma_fundamental_div_mod(a as int, w as int);
        assert(0x2000_0000_0000_0000_0000_0000_0000_0000 * w
            >= 0x2000_0000_0000_0000_0000_0000_0000_0000) by (nonlinear_arith)
            requires
                w >= 1,
        ;
        lemma_quotient_range(
            a as int,
            w as int,
            -0x2000_0000_0000_0000_0000_0000_0000_0000,
            0x2000_0000_0000_0000_0000_0000_0000_0000,
        );
        assert(w * q == q * w) by (nonlinear_arith);
        assert(-0x2000_0000_0000_0000_0000_0000_0000_0000 - w <= q * w
            <= 0x2000_0000_0000_0000_0000_0000_0000_0000);
    }
    let r: i128 = a - q * w;
    assert(r == a as int % w as int);
    let up: bool = if 2 * r < w {
        false
    } else if 2 * r > w {
        true
    } else {
        !(ties_to_even && q % 2 == 0)
    };
    let n: i128 = if up {
        q + 1
    } else {
        q
    };
    assert(n == round_div(a as int, w as int, ties_to_even)) by {
        if q < 0 {
            assert((q % 2 == 0) == ((q as int) % 2 == 0)) by {
                lemma_fundamental_div_mod(q as int, 2);
                lemma_fundamental_div_mod((-q) as int, 2);
            }
        }
    }
    if n < lo as i128 {
        lo
    } else if n > hi as i128 {
        hi
    } else {
        n as i64
    }
}

} // verus!
