use pil::arith::{floor_div, round_clamp, DIVIDEND_MAX, DIVISOR_MAX};
use pil::kernel::{
    bicubic_fixed, cos_pi_fixed, hamming_fixed, kernel_weight_fixed, lanczos_fixed, sin_near_fixed,
    sinc_fixed, sinc_near_fixed, HALF, ONE, WEIGHT_MAX,
};
use pil::PILFilter;
use std::f64::consts::PI;

fn as_unit(x: i64) -> f64 {
    x as f64 / ONE as f64
}

fn sinc(t: f64) -> f64 {
    if t == 0.0 {
        1.0
    } else {
        (PI * t).sin() / (PI * t)
    }
}

#[test]
fn floor_div_rounds_down() {
    assert_eq!(floor_div(7, 2), 3);
    assert_eq!(floor_div(-7, 2), -4);
    assert_eq!(floor_div(-8, 2), -4);
    assert_eq!(floor_div(0, 5), 0);
    assert_eq!(floor_div(-1, 1000), -1);
    assert_eq!(floor_div(i128::MAX, 1), i128::MAX);
    assert_eq!(floor_div(i128::MIN + 1, 2), -(1i128 << 126));
}

#[test]
fn round_clamp_rounds_to_the_nearest() {
    assert_eq!(round_clamp(7, 2, false, 0, 255), 4);
    assert_eq!(round_clamp(5, 2, false, 0, 255), 3);
    assert_eq!(round_clamp(7, 2, true, -100, 100), 4);
    assert_eq!(round_clamp(5, 2, true, -100, 100), 2);
    assert_eq!(round_clamp(-5, 2, true, -100, 100), -2);
    assert_eq!(round_clamp(-7, 2, true, -100, 100), -4);
    assert_eq!(round_clamp(-5, 2, false, -100, 100), -2);
    assert_eq!(round_clamp(-7, 2, false, -100, 100), -3);
    assert_eq!(round_clamp(10, 3, false, 0, 255), 3);
    assert_eq!(round_clamp(11, 3, true, 0, 255), 4);
    assert_eq!(round_clamp(-10, 3, true, -255, 255), -3);
    assert_eq!(round_clamp(-11, 3, false, -255, 255), -4);
}

#[test]
fn round_clamp_cuts_to_the_range() {
    assert_eq!(round_clamp(1000, 3, false, 0, 255), 255);
    assert_eq!(round_clamp(-1, 3, false, 0, 255), 0);
    assert_eq!(round_clamp(-2, 3, false, 0, 255), 0);
    let (lo, hi) = (i32::MIN as i64, i32::MAX as i64);
    assert_eq!(round_clamp(1i128 << 100, 1, true, lo, hi), hi);
    assert_eq!(round_clamp(-(1i128 << 100), 1, true, lo, hi), lo);
    assert_eq!(round_clamp(DIVIDEND_MAX, DIVISOR_MAX, true, i64::MIN, i64::MAX), 1 << 32);
    assert_eq!(round_clamp(-DIVIDEND_MAX, DIVISOR_MAX, true, i64::MIN, i64::MAX), -(1 << 32));
}

#[test]
fn sinc_is_exact_at_the_integers() {
    assert_eq!(sinc_near_fixed(0), ONE);
    assert_eq!(sinc_fixed(0), ONE);
    assert_eq!(sinc_fixed(ONE), 0);
    assert_eq!(sinc_fixed(2 * ONE), 0);
    assert_eq!(sinc_fixed(3 * ONE), 0);
}

#[test]
fn sinc_has_known_values() {
    assert_eq!(sinc_near_fixed(HALF), 683565276);
    assert_eq!(sinc_near_fixed(HALF / 2), 966707284);
    assert_eq!(sinc_fixed(HALF), 683565276);
    assert_eq!(sinc_fixed(3 * HALF), -227855092);
    assert_eq!(sinc_fixed(ONE / 3), 887977343);
    assert_eq!(sinc_fixed(5 * ONE / 2), 136713055);
}

#[test]
fn sinc_follows_the_sine() {
    for i in 0..=3000 {
        let x = i * (3 * ONE / 3000);
        assert!((as_unit(sinc_fixed(x)) - sinc(as_unit(x))).abs() < 1e-8, "{}", x);
    }
}

#[test]
fn sine_and_cosine_follow_the_circle() {
    assert_eq!(cos_pi_fixed(0), ONE);
    assert_eq!(cos_pi_fixed(HALF), 0);
    assert_eq!(cos_pi_fixed(ONE), -ONE);
    assert_eq!(cos_pi_fixed(ONE / 3), 536870913);
    assert_eq!(cos_pi_fixed(ONE / 4), 759250124);
    assert_eq!(sin_near_fixed(0), 0);
    assert_eq!(sin_near_fixed(HALF), ONE);
    for i in 0..=1000 {
        let x = i * (ONE / 1000);
        assert!((as_unit(cos_pi_fixed(x)) - (PI * as_unit(x)).cos()).abs() < 1e-8);
        assert!((as_unit(sin_near_fixed(x / 2)) - (PI * as_unit(x / 2)).sin()).abs() < 1e-8);
    }
}

#[test]
fn hamming_has_known_values() {
    assert_eq!(hamming_fixed(0), ONE * ONE);
    assert_eq!(hamming_fixed(HALF), 396345218216006460);
    assert_eq!(hamming_fixed(ONE / 4), 898144190508376328);
    assert_eq!(hamming_fixed(ONE), 0);
    for i in 0..=1000 {
        let x = i * (ONE / 1000);
        let t = as_unit(x);
        let want = sinc(t) * (0.54 + 0.46 * (PI * t).cos());
        assert!((hamming_fixed(x) as f64 / (ONE as f64 * ONE as f64) - want).abs() < 1e-8);
    }
}

#[test]
fn lanczos_has_known_values() {
    assert_eq!(lanczos_fixed(0), ONE * ONE);
    assert_eq!(lanczos_fixed(HALF), 700892230512999540);
    assert_eq!(lanczos_fixed(ONE), 0);
    assert_eq!(lanczos_fixed(3 * HALF), -155753828850985392);
    assert_eq!(lanczos_fixed(5 * HALF), 28035689179506065);
    assert_eq!(lanczos_fixed(3 * ONE), 0);
    for i in 0..=3000 {
        let x = i * (3 * ONE / 3000);
        let t = as_unit(x);
        let want = sinc(t) * sinc(t / 3.0);
        assert!((lanczos_fixed(x) as f64 / (ONE as f64 * ONE as f64) - want).abs() < 1e-8);
    }
}

#[test]
fn bicubic_has_known_values() {
    assert_eq!(bicubic_fixed(0), 2 * ONE * ONE);
    assert_eq!(bicubic_fixed(HALF), 1297036692682702848);
    assert_eq!(bicubic_fixed(ONE), 0);
    assert_eq!(bicubic_fixed(3 * HALF), -144115188075855872);
    assert_eq!(bicubic_fixed(2 * ONE), 0);
    for i in 0..=2000 {
        let x = i * (2 * ONE / 2000);
        let t = as_unit(x);
        let want = if t < 1.0 {
            1.5 * t * t * t - 2.5 * t * t + 1.0
        } else {
            -0.5 * t * t * t + 2.5 * t * t - 4.0 * t + 2.0
        };
        assert!((bicubic_fixed(x) as f64 / (2.0 * ONE as f64 * ONE as f64) - want).abs() < 1e-8);
    }
}

#[test]
fn weights_vanish_beyond_the_support() {
    let m: i64 = 10;
    let edges = [
        (PILFilter::Nearest, 10),
        (PILFilter::Box_, 10),
        (PILFilter::Bilinear, 20),
        (PILFilter::Hamming, 20),
        (PILFilter::Bicubic, 40),
        (PILFilter::Lanczos, 60),
    ];
    for (f, edge) in edges {
        for n in [edge + 1, -(edge + 1), 1000, -1000, 1i128 << 64, -(1i128 << 64)] {
            assert_eq!(kernel_weight_fixed(f, n, m), 0);
        }
    }
    assert_eq!(kernel_weight_fixed(PILFilter::Box_, 10, m), 1);
    assert_eq!(kernel_weight_fixed(PILFilter::Box_, -10, m), 1);
    assert_eq!(kernel_weight_fixed(PILFilter::Nearest, 0, m), 1);
}

#[test]
fn weights_are_even_in_the_distance() {
    let filters = [
        PILFilter::Nearest,
        PILFilter::Box_,
        PILFilter::Bilinear,
        PILFilter::Hamming,
        PILFilter::Bicubic,
        PILFilter::Lanczos,
    ];
    for f in filters {
        for n in 0..=70 {
            let w = kernel_weight_fixed(f, n, 11);
            assert_eq!(w, kernel_weight_fixed(f, -n, 11));
            assert!(-WEIGHT_MAX <= w && w <= WEIGHT_MAX);
        }
    }
}

#[test]
fn bilinear_weights_fall_off_in_a_line() {
    assert_eq!(kernel_weight_fixed(PILFilter::Bilinear, 0, 7), 14);
    assert_eq!(kernel_weight_fixed(PILFilter::Bilinear, 5, 7), 9);
    assert_eq!(kernel_weight_fixed(PILFilter::Bilinear, -13, 7), 1);
    assert_eq!(kernel_weight_fixed(PILFilter::Bilinear, 14, 7), 0);
    assert_eq!(kernel_weight_fixed(PILFilter::Bilinear, 15, 7), 0);
}

#[test]
fn smooth_weights_use_the_distance_in_fixed_point() {
    assert_eq!(kernel_weight_fixed(PILFilter::Hamming, 5, 5), hamming_fixed(HALF));
    assert_eq!(kernel_weight_fixed(PILFilter::Bicubic, -15, 5), bicubic_fixed(3 * HALF));
    assert_eq!(kernel_weight_fixed(PILFilter::Lanczos, 25, 5), lanczos_fixed(5 * HALF));
    assert_eq!(kernel_weight_fixed(PILFilter::Lanczos, 1, 3), lanczos_fixed(HALF / 3));
}
