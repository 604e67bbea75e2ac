//! The filter kernels, evaluated in fixed point.
//!
//! A distance is held as a multiple of 2^-30. `Nearest`, `Box_` and
//! `Bilinear` weigh exactly; `Bicubic`, `Hamming` and `Lanczos` weigh in
//! fixed point, the sine through its power series about zero, which
//! keeps them within 1e-8 of the real kernels. Only the ratios between
//! the weights of one window matter, since a window is normalised by its
//! sum, so each filter weighs on a scale of its own.

use crate::arith::{
    floor_div, lemma_product_bounds, lemma_product_range, lemma_quotient_range,
    lemma_zero_product,
};
use crate::types::PILFilter;
use vstd::arithmetic::div_mod::lemma_fundamental_div_mod_converse;
use vstd::prelude::*;

verus! {

/// The fixed-point representation of 1.
pub const ONE: i64 = 0x4000_0000;

/// The fixed-point representation of 1/2.
pub const HALF: i64 = 0x2000_0000;

/// No weight exceeds this magnitude.
pub const WEIGHT_MAX: i64 = 0x4000_0000_0000_0000;

/// pi in fixed point.
pub const PI_FIXED: i64 = 3373259426;

/// The coefficients pi^(2k) / (2k+1)! of the power series of
/// `sin(pi t) / (pi t)` in `t^2`, for k from 1 to 6, in fixed point.
pub const SERIES_1: i64 = 1766234505;

pub const SERIES_2: i64 = 871601792;

pub const SERIES_3: i64 = 204818212;

pub const SERIES_4: i64 = 28076038;

pub const SERIES_5: i64 = 2519085;

pub const SERIES_6: i64 = 159374;

/// 0.54 and 0.46, the two terms of the Hamming window, in fixed point.
pub const HAMMING_BASE: i64 = 579820585;

pub const HAMMING_SWING: i64 = 493921239;

/// `sin(pi t) / (pi t)` for `t = g / ONE` between 0 and 1/2: the power
/// series up to `t^12`, by Horner's rule.
pub open spec fn sinc_near(g: int) -> int {
    let u = g * g / (ONE as int);
    let p5 = SERIES_5 - u * SERIES_6 / (ONE as int);
    let p4 = SERIES_4 - u * p5 / (ONE as int);
    let p3 = SERIES_3 - u * p4 / (ONE as int);
    let p2 = SERIES_2 - u * p3 / (ONE as int);
    let p1 = SERIES_1 - u * p2 / (ONE as int);
    ONE - u * p1 / (ONE as int)
}

/// `sin(pi t) / (pi t)` for `t = x / ONE >= 0`. Beyond 1/2 the sine is
/// taken at the distance `g` of `t` from the nearest integer, where
/// `sin(pi t) = +-sin(pi g)`, so that the quotient is `+-g sinc(g) / t`.
pub open spec fn sinc(x: int) -> int {
    if x <= HALF {
        sinc_near(x)
    } else {
        let f = x % (ONE as int);
        let g = if f <= HALF {
            f
        } else {
            ONE - f
        };
        let m = g * sinc_near(g) / x;
        if (x / (ONE as int)) % 2 == 0 {
            m
        } else {
            -m
        }
    }
}

/// `sin(pi t)` for `t = g / ONE` between 0 and 1/2.
pub open spec fn sin_near(g: int) -> int {
    (PI_FIXED * g / (ONE as int)) * sinc_near(g) / (ONE as int)
}

/// `cos(pi t)` for `t = x / ONE` between 0 and 1.
pub open spec fn cos_pi(x: int) -> int {
    if x <= HALF {
        sin_near(HALF - x)
    } else {
        -sin_near(x - HALF)
    }
}

/// The Hamming kernel `sinc(t) (0.54 + 0.46 cos(pi t))` for
/// `t = x / ONE` between 0 and 1, on the scale `ONE * ONE`.
pub open spec fn hamming(x: int) -> int {
    sinc(x) * ((HAMMING_BASE * ONE + HAMMING_SWING * cos_pi(x)) / (ONE as int))
}

/// The Lanczos kernel `sinc(t) sinc(t / 3)` for `t = x / ONE` between 0
/// and 3, on the scale `ONE * ONE`.
pub open spec fn lanczos(x: int) -> int {
    sinc(x) * sinc(x / 3)
}

/// The cubic convolution kernel with a = -1/2 for `t = x / ONE` between
/// 0 and 2, on the scale `2 * ONE * ONE`: twice the kernel is
/// `(1 - t)(2 + 2t - 3t^2)` below 1 and `-(t - 1)(2 - t)^2` from 1 on.
pub open spec fn bicubic(x: int) -> int {
    if x < ONE {
        (ONE - x) * ((2 * ONE * ONE + 2 * ONE * x - 3 * x * x) / (ONE as int))
    } else {
        -((x - ONE) * ((2 * ONE - x) * (2 * ONE - x) / (ONE as int)))
    }
}

/// The weight a filter gives to a sample at distance `n / (2 m)` from
/// the centre, in units of the filter's scale: zero beyond the support
/// radius, which the support includes.
pub open spec fn kernel_weight(f: PILFilter, n: int, m: int) -> int {
    let a = if n < 0 {
        -n
    } else {
        n
    };
    if a > f.reach() * m {
        0
    } else {
        match f {
            PILFilter::Nearest | PILFilter::Box_ => 1,
            PILFilter::Bilinear => 2 * m - a,
            PILFilter::Hamming => hamming(a * HALF / m),
            PILFilter::Bicubic => bicubic(a * HALF / m),
            PILFilter::Lanczos => lanczos(a * HALF / m),
        }
    }
}

/// The weight a filter gives to a sample at the centre itself.
pub open spec fn peak(f: PILFilter, m: int) -> int {
    match f {
        PILFilter::Nearest | PILFilter::Box_ => 1,
        PILFilter::Bilinear => 2 * m,
        PILFilter::Hamming => hamming(0),
        PILFilter::Lanczos => ONE * ONE,
        PILFilter::Bicubic => 2 * ONE * ONE,
    }
}

/// Between 0 and 1/2 the series stays between 0 and 1.
pub proof fn lemma_sinc_near_range(g: int)
    requires
        0 <= g <= HALF,
    ensures
        0 <= sinc_near(g) <= ONE,
{
    lemma_product_range(g, g, HALF as int, HALF as int);
    let u = g * g / (ONE as int);
    assert(0 <= u <= 0x1000_0000);
    lemma_product_range(u, SERIES_6 as int, 0x1000_0000, SERIES_6 as int);
    let p5 = SERIES_5 - u * SERIES_6 / (ONE as int);
    assert(0 <= p5 <= SERIES_5);
    lemma_product_range(u, p5, 0x1000_0000, SERIES_5 as int);
    let p4 = SERIES_4 - u * p5 / (ONE as int);
    assert(0 <= p4 <= SERIES_4);
    lemma_product_range(u, p4, 0x1000_0000, SERIES_4 as int);
    let p3 = SERIES_3 - u * p4 / (ONE as int);
    assert(0 <= p3 <= SERIES_3);
    lemma_product_range(u, p3, 0x1000_0000, SERIES_3 as int);
    let p2 = SERIES_2 - u * p3 / (ONE as int);
    assert(0 <= p2 <= SERIES_2);
    lemma_product_range(u, p2, 0x1000_0000, SERIES_2 as int);
    let p1 = SERIES_1 - u * p2 / (ONE as int);
    assert(0 <= p1 <= SERIES_1);
    lemma_product_range(u, p1, 0x1000_0000, SERIES_1 as int);
}

/// At distance zero the normalised sine is exactly one.
pub proof fn lemma_sinc_at_zero()
    ensures
        sinc(0) == ONE,
        sinc_near(0) == ONE,
{
    let u = 0int * 0int / (ONE as int);
    lemma_zero_product(0, 0, ONE as int);
    assert(u == 0);
    let p5 = SERIES_5 - u * SERIES_6 / (ONE as int);
    let p4 = SERIES_4 - u * p5 / (ONE as int);
    let p3 = SERIES_3 - u * p4 / (ONE as int);
    let p2 = SERIES_2 - u * p3 / (ONE as int);
    let p1 = SERIES_1 - u * p2 / (ONE as int);
    lemma_zero_product(u, p1, ONE as int);
    assert(sinc_near(0) == ONE - u * p1 / (ONE as int));
}

/// At one, two and three whole steps the normalised sine is exactly
/// zero.
pub proof fn lemma_sinc_at_whole_steps(j: int)
    requires
        1 <= j <= 3,
    ensures
        sinc(j * ONE) == 0,
{
    let x = j * ONE;
    assert(ONE * j == x) by (nonlinear_arith)
        requires
            x == j * ONE,
    ;
    lemma_fundamental_div_mod_converse(x, ONE as int, j, 0);
    lemma_zero_product(0, sinc_near(0), x);
}

/// Every kernel interpolates: at a whole number of steps from the
/// centre, where the distance is `k = (2 m k) / (2 m)`, it weighs
/// nothing unless `k` is zero, and there it weighs its positive peak.
pub proof fn lemma_kernel_at_whole_steps(f: PILFilter, k: int, m: int)
    requires
        m > 0,
    ensures
        kernel_weight(f, 2 * m * k, m) == (if k == 0 {
            peak(f, m)
        } else {
            0
        }),
        peak(f, m) > 0,
{
    let n = 2 * m * k;
    let steps = if k < 0 {
        -k
    } else {
        k
    };
    let a = if n < 0 {
        -n
    } else {
        n
    };
    assert(a == 2 * m * steps && (a > f.reach() * m <==> 2 * steps > f.reach()))
        by (nonlinear_arith)
        requires
            m > 0,
            n == 2 * m * k,
            steps == (if k < 0 {
                -k
            } else {
                k
            }),
            a == (if n < 0 {
                -n
            } else {
                n
            }),
            1 <= f.reach() <= 6,
    ;
    lemma_sinc_at_zero();
    lemma_sinc_near_range(HALF as int);
    lemma_product_range(PI_FIXED as int, HALF as int, PI_FIXED as int, HALF as int);
    let turn = PI_FIXED * HALF / (ONE as int);
    lemma_product_range(turn, sinc_near(HALF as int), 2 * ONE, ONE as int);
    assert(cos_pi(0) >= 0);
    lemma_product_range(HAMMING_SWING as int, cos_pi(0), HAMMING_SWING as int, 2 * ONE);
    lemma_product_range(HAMMING_BASE as int, ONE as int, HAMMING_BASE as int, ONE as int);
    let window = (HAMMING_BASE * ONE + HAMMING_SWING * cos_pi(0)) / (ONE as int);
    assert(window >= HAMMING_BASE) by {
        lemma_quotient_range(
            HAMMING_BASE * ONE + HAMMING_SWING * cos_pi(0),
            ONE as int,
            HAMMING_BASE as int,
            HAMMING_BASE + 2 * HAMMING_SWING,
        );
    }
    assert(hamming(0) > 0) by (nonlinear_arith)
        requires
            hamming(0) == sinc(0) * window,
            sinc(0) == ONE,
            ONE > 0,
            window >= HAMMING_BASE,
            HAMMING_BASE > 0,
    ;
    assert(ONE * ONE > 0 && 2 * ONE * ONE > 0) by (nonlinear_arith)
        requires
            ONE > 0,
    ;
    if 2 * steps <= f.reach() {
        assert(a * HALF == m * (steps * ONE)) by (nonlinear_arith)
            requires
                a == 2 * m * steps,
                HALF == 0x2000_0000,
                ONE == 0x4000_0000,
        ;
        lemma_fundamental_div_mod_converse(a * HALF, m, steps * ONE, 0);
        let x = a * HALF / m;
        assert(x == steps * ONE);
        if steps > 0 {
            lemma_sinc_at_whole_steps(steps);
            match f {
                PILFilter::Hamming => {
                    lemma_zero_product(
                        sinc(x),
                        (HAMMING_BASE * ONE + HAMMING_SWING * cos_pi(x)) / (ONE as int),
                        1,
                    );
                },
                PILFilter::Lanczos => {
                    lemma_zero_product(sinc(x), sinc(x / 3), 1);
                },
                PILFilter::Bicubic => {
                    if steps == 1 {
                        lemma_zero_product(
                            x - ONE,
                            (2 * ONE - x) * (2 * ONE - x) / (ONE as int),
                            1,
                        );
                    } else {
                        lemma_zero_product(2 * ONE - x, 2 * ONE - x, ONE as int);
                        assert((x - ONE) * 0 == 0) by (nonlinear_arith);
                    }
                },
                _ => {},
            }
            if steps == 1 {
                assert(a == 2 * m) by (nonlinear_arith)
                    requires
                        a == 2 * m * steps,
                        steps == 1,
                ;
            }
        } else {
            assert(x == 0);
            match f {
                PILFilter::Lanczos => {
                    lemma_fundamental_div_mod_converse(0, 3, 0, 0);
                },
                PILFilter::Bicubic => {
                    lemma_zero_product(0, ONE as int, 1);
                    lemma_zero_product(0, 0, 1);
                    assert(2 * ONE * ONE + 2 * ONE * 0 - 3 * 0 * 0 == (2 * ONE) * ONE)
                        by (nonlinear_arith);
                    assert(ONE * (2 * ONE) == (2 * ONE) * ONE) by (nonlinear_arith);
                    lemma_fundamental_div_mod_converse((2 * ONE) * ONE, ONE as int, 2 * ONE, 0);
                    assert((ONE - 0) * (2 * ONE) == 2 * ONE * ONE) by (nonlinear_arith);
                },
                _ => {},
            }
        }
    }
}

/// A filter whose kernel is nowhere negative.
pub open spec fn non_negative(f: PILFilter) -> bool {
    f == PILFilter::Nearest || f == PILFilter::Box_ || f == PILFilter::Bilinear
}

/// Computes `sinc_near`.
pub fn sinc_near_fixed(g: i64) -> (r: i64)
    requires
        0 <= g <= HALF,
    ensures
        r == sinc_near(g as int),
        0 <= r <= ONE,
{
    proof {
        lemma_product_range(g as int, g as int, HALF as int, HALF as int);
    }
    let u: i64 = g * g / ONE;
    assert(0 <= u <= 0x1000_0000);
    proof {
        lemma_product_range(u as int, SERIES_6 as int, 0x1000_0000, SERIES_6 as int);
    }
    let p5: i64 = SERIES_5 - u * SERIES_6 / ONE;
    assert(0 <= p5 <= SERIES_5);
    proof {
        lemma_product_range(u as int, p5 as int, 0x1000_0000, SERIES_5 as int);
    }
    let p4: i64 = SERIES_4 - u * p5 / ONE;
    assert(0 <= p4 <= SERIES_4);
    proof {
        lemma_product_range(u as int, p4 as int, 0x1000_0000, SERIES_4 as int);
    }
    let p3: i64 = SERIES_3 - u * p4 / ONE;
    assert(0 <= p3 <= SERIES_3);
    proof {
        lemma_product_range(u as int, p3 as int, 0x1000_0000, SERIES_3 as int);
    }
    let p2: i64 = SERIES_2 - u * p3 / ONE;
    assert(0 <= p2 <= SERIES_2);
    proof {
        lemma_product_range(u as int, p2 as int, 0x1000_0000, SERIES_2 as int);
    }
    let p1: i64 = SERIES_1 - u * p2 / ONE;
    assert(0 <= p1 <= SERIES_1);
    proof {
        lemma_product_range(u as int, p1 as int, 0x1000_0000, SERIES_1 as int);
    }
    ONE - u * p1 / ONE
}

/// Computes `sinc`.
pub fn sinc_fixed(x: i64) -> (r: i64)
    requires
        0 <= x <= 3 * ONE,
    ensures
        r == sinc(x as int),
        -ONE <= r <= ONE,
{
    if x <= HALF {
        sinc_near_fixed(x)
    } else {
        let f: i64 = x % ONE;
        let g: i64 = if f <= HALF {
            f
        } else {
            ONE - f
        };
        let s: i64 = sinc_near_fixed(g);
        proof {
            lemma_product_range(g as int, s as int, HALF as int, ONE as int);
            assert(g * s <= ONE * x) by (nonlinear_arith)
                requires
                    0 <= g <= HALF,
                    HALF < x,
                    0 <= s <= ONE,
            ;
            lemma_quotient_range(g * s, x as int, 0, ONE as int);
        }
        let m: i64 = g * s / x;
        if (x / ONE) % 2 == 0 {
            m
        } else {
            -m
        }
    }
}

/// Computes `sin_near`.
pub fn sin_near_fixed(g: i64) -> (r: i64)
    requires
        0 <= g <= HALF,
    ensures
        r == sin_near(g as int),
        0 <= r <= 2 * ONE,
{
    proof {
        lemma_product_range(PI_FIXED as int, g as int, PI_FIXED as int, HALF as int);
    }
    let a: i64 = PI_FIXED * g / ONE;
    assert(0 <= a <= 2 * ONE);
    let s: i64 = sinc_near_fixed(g);
    proof {
        lemma_product_range(a as int, s as int, 2 * ONE, ONE as int);
    }
    a * s / ONE
}

/// Computes `cos_pi`.
pub fn cos_pi_fixed(x: i64) -> (r: i64)
    requires
        0 <= x <= ONE,
    ensures
        r == cos_pi(x as int),
        -2 * ONE <= r <= 2 * ONE,
{
    if x <= HALF {
        sin_near_fixed(HALF - x)
    } else {
        -sin_near_fixed(x - HALF)
    }
}

/// Computes `hamming`.
pub fn hamming_fixed(x: i64) -> (r: i64)
    requires
        0 <= x <= ONE,
    ensures
        r == hamming(x as int),
        -WEIGHT_MAX <= r <= WEIGHT_MAX,
{
    let s: i64 = sinc_fixed(x);
    let c: i64 = cos_pi_fixed(x);
    proof {
        lemma_product_bounds(HAMMING_SWING as int, c as int, HAMMING_SWING as int, 2 * ONE);
    }
    proof {
        lemma_product_range(HAMMING_BASE as int, ONE as int, HAMMING_BASE as int, ONE as int);
    }
    let t: i128 = HAMMING_BASE as i128 * ONE as i128 + HAMMING_SWING as i128 * c as i128;
    let win: i128 = floor_div(t, ONE as i128);
    assert(-2 * ONE <= win <= 2 * ONE);
    proof {
        lemma_product_bounds(s as int, win as int, ONE as int, 2 * ONE);
    }
    (s as i128 * win) as i64
}

/// Computes `lanczos`.
pub fn lanczos_fixed(x: i64) -> (r: i64)
    requires
        0 <= x <= 3 * ONE,
    ensures
        r == lanczos(x as int),
        -WEIGHT_MAX <= r <= WEIGHT_MAX,
{
    let s: i64 = sinc_fixed(x);
    let t: i64 = sinc_fixed(x / 3);
    proof {
        lemma_product_bounds(s as int, t as int, ONE as int, ONE as int);
    }
    s * t
}

/// Computes `bicubic`.
pub fn bicubic_fixed(x: i64) -> (r: i64)
    requires
        0 <= x <= 2 * ONE,
    ensures
        r == bicubic(x as int),
        -WEIGHT_MAX <= r <= WEIGHT_MAX,
{
    if x < ONE {
        proof {
            lemma_product_range(x as int, x as int, ONE as int, ONE as int);
            assert(3 * x * x == 3 * (x * x)) by (nonlinear_arith);
            assert(2 * ONE * x == 2 * (ONE * x)) by (nonlinear_arith);
            lemma_product_range(ONE as int, x as int, ONE as int, ONE as int);
        }
        let t: i128 = 2 * ONE as i128 * ONE as i128 + 2 * ONE as i128 * x as i128 - 3 * x as i128
            * x as i128;
        let inner: i128 = floor_div(t, ONE as i128);
        assert(-3 * ONE <= inner <= 4 * ONE);
        proof {
            lemma_product_bounds((ONE - x) as int, inner as int, ONE as int, 4 * ONE);
        }
        ((ONE - x) as i128 * inner) as i64
    } else {
        let d: i64 = 2 * ONE - x;
        proof {
            lemma_product_range(d as int, d as int, ONE as int, ONE as int);
        }
        let sq: i64 = d * d / ONE;
        proof {
            lemma_product_range((x - ONE) as int, sq as int, ONE as int, ONE as int);
        }
        -((x - ONE) * sq)
    }
}

/// Computes `kernel_weight` for a sample at distance `n / (2 m)`.
pub fn kernel_weight_fixed(f: PILFilter, n: i128, m: i64) -> (w: i64)
    requires
        0 < m <= i32::MAX,
        -0x1_0000_0000_0000_0000 <= n <= 0x1_0000_0000_0000_0000,
    ensures
        w == kernel_weight(f, n as int, m as int),
        -WEIGHT_MAX <= w <= WEIGHT_MAX,
{
    let a: i128 = if n < 0 {
        -n
    } else {
        n
    };
    let reach: i128 = f.doubled_radius() as i128;
    assert(reach * m <= 6 * m) by (nonlinear_arith)
        requires
            0 <= reach <= 6,
            m > 0,
    ;
    if a > reach * (m as i128) {
        return 0;
    }
    proof {
        lemma_product_range(a as int, HALF as int, 6 * m, HALF as int);
        assert(a * HALF <= (reach * HALF) * m) by (nonlinear_arith)
            requires
                0 <= a <= reach * m,
        ;
        lemma_quotient_range(a * HALF, m as int, 0, reach * HALF);
    }
    match f {
        PILFilter::Nearest | PILFilter::Box_ => 1,
        PILFilter::Bilinear => (2 * (m as i128) - a) as i64,
        PILFilter::Hamming => hamming_fixed((a * (HALF as i128) / (m as i128)) as i64),
        PILFilter::Bicubic => bicubic_fixed((a * (HALF as i128) / (m as i128)) as i64),
        PILFilter::Lanczos => lanczos_fixed((a * (HALF as i128) / (m as i128)) as i64),
    }
}

} // verus!
