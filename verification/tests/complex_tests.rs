use qsim::complex::c64;
use qsim::fixed::{isqrt_u128, FX_ONE};

const SCALE: f64 = 4294967296.0;

fn fx(x: f64) -> i64 {
    (x * SCALE).round() as i64
}

fn re_f(a: c64) -> f64 {
    a.re as f64 / SCALE
}

fn im_f(a: c64) -> f64 {
    a.im as f64 / SCALE
}

#[test]
fn add_is_componentwise() {
    let x = c64::new(3 * FX_ONE, -2 * FX_ONE);
    let y = c64::new(FX_ONE, 5 * FX_ONE);
    let r = x.add(y);
    assert_eq!(r.re, 4 * FX_ONE);
    assert_eq!(r.im, 3 * FX_ONE);
}

#[test]
fn sub_is_componentwise() {
    let x = c64::new(3 * FX_ONE, -2 * FX_ONE);
    let y = c64::new(FX_ONE, 5 * FX_ONE);
    let r = x.sub(y);
    assert_eq!(r.re, 2 * FX_ONE);
    assert_eq!(r.im, -7 * FX_ONE);
}

#[test]
fn mul_matches_complex_product() {
    // (2+3i)(4+5i) = (8-15) + (10+12)i = -7 + 22i, exact on integers.
    let x = c64::new(2 * FX_ONE, 3 * FX_ONE);
    let y = c64::new(4 * FX_ONE, 5 * FX_ONE);
    let r = x.mul(y);
    assert_eq!(r.re, -7 * FX_ONE);
    assert_eq!(r.im, 22 * FX_ONE);
}

#[test]
fn div_matches_complex_quotient() {
    // (6+8i) / (2+0i) = 3+4i, exact.
    let x = c64::new(6 * FX_ONE, 8 * FX_ONE);
    let y = c64::new(2 * FX_ONE, 0);
    let r = x.div(y);
    assert_eq!(r.re, 3 * FX_ONE);
    assert_eq!(r.im, 4 * FX_ONE);
}

#[test]
fn div_by_i_rotates() {
    // (1+0i) / (0+1i) = -i, exact.
    let x = c64::new(FX_ONE, 0);
    let y = c64::new(0, FX_ONE);
    let r = x.div(y);
    assert_eq!(r.re, 0);
    assert_eq!(r.im, -FX_ONE);
}

#[test]
fn mul_div_round_trip() {
    // For nonzero y, (x * y) / y returns to x within tolerance.
    let x = c64::new(fx(1.25), fx(-0.5));
    let y = c64::new(fx(0.75), fx(0.3));
    let r = x.mul(y).div(y);
    assert!((re_f(r) - 1.25).abs() < 1e-9);
    assert!((im_f(r) + 0.5).abs() < 1e-9);
}

#[test]
fn mul_div_round_trip_integer_values() {
    let x = c64::new(7 * FX_ONE, -3 * FX_ONE);
    let y = c64::new(2 * FX_ONE, FX_ONE);
    let r = x.mul(y).div(y);
    assert!((re_f(r) - 7.0).abs() < 1e-9);
    assert!((im_f(r) + 3.0).abs() < 1e-9);
}

#[test]
fn conjugate_negates_imaginary() {
    let x = c64::new(5, -9);
    let r = x.conjugate();
    assert_eq!(r.re, 5);
    assert_eq!(r.im, 9);
}

#[test]
fn conjugate_saturates_at_minimum() {
    let x = c64::new(1, i64::MIN);
    let r = x.conjugate();
    assert_eq!(r.im, i64::MAX);
}

#[test]
fn abs_of_three_four_is_five() {
    let x = c64::new(3 * FX_ONE, 4 * FX_ONE);
    assert_eq!(x.abs(), (5 * FX_ONE) as u64);
}

#[test]
fn abs_of_zero_is_zero() {
    assert_eq!(c64::zero().abs(), 0);
}

#[test]
fn add_saturates_at_maximum() {
    let x = c64::new(i64::MAX, 0);
    let y = c64::new(1, 0);
    let r = x.add(y);
    assert_eq!(r.re, i64::MAX);
    assert_eq!(r.im, 0);
}

#[test]
fn sub_saturates_at_minimum() {
    let x = c64::new(i64::MIN, 0);
    let y = c64::new(1, 0);
    let r = x.sub(y);
    assert_eq!(r.re, i64::MIN);
}

#[test]
fn assign_forms_match_operators() {
    let x = c64::new(2 * FX_ONE, 3 * FX_ONE);
    let y = c64::new(4 * FX_ONE, 5 * FX_ONE);
    let mut a = x;
    a.add_assign(y);
    assert_eq!(a, x.add(y));
    let mut s = x;
    s.sub_assign(y);
    assert_eq!(s, x.sub(y));
    let mut m = x;
    m.mul_assign(y);
    assert_eq!(m, x.mul(y));
    let mut d = x;
    d.div_assign(y);
    assert_eq!(d, x.div(y));
}

#[test]
fn isqrt_small_values() {
    assert_eq!(isqrt_u128(0), 0);
    assert_eq!(isqrt_u128(1), 1);
    assert_eq!(isqrt_u128(26), 5);
    assert_eq!(isqrt_u128(36), 6);
    assert_eq!(isqrt_u128(u128::MAX), u64::MAX);
}
