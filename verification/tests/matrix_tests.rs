use qsim::complex::c64;
use qsim::fixed::FX_ONE;
use qsim::matrix::c64x4;

fn c(re: i64, im: i64) -> c64 {
    c64::new(re * FX_ONE, im * FX_ONE)
}

#[test]
fn new_stores_row_major() {
    let g = c64x4::new(c(1, 0), c(2, 0), c(3, 0), c(4, 0));
    assert_eq!(g.m00, c(1, 0));
    assert_eq!(g.m01, c(2, 0));
    assert_eq!(g.m10, c(3, 0));
    assert_eq!(g.m11, c(4, 0));
}

#[test]
fn conjugate_transpose_swaps_and_conjugates() {
    let g = c64x4::new(c(1, 2), c(3, 4), c(5, 6), c(7, 8));
    let a = g.conjugate_transpose();
    assert_eq!(a.m00, c(1, -2));
    assert_eq!(a.m01, c(5, -6));
    assert_eq!(a.m10, c(3, -4));
    assert_eq!(a.m11, c(7, -8));
}

#[test]
fn conjugate_transpose_twice_is_identity() {
    let g = c64x4::new(c(1, 2), c(3, 4), c(5, 6), c(7, 8));
    let a = g.conjugate_transpose().conjugate_transpose();
    assert_eq!(a, g);
}

#[test]
fn add_and_sub_are_componentwise() {
    let g = c64x4::new(c(1, 1), c(2, 2), c(3, 3), c(4, 4));
    let h = c64x4::new(c(5, 0), c(6, 0), c(7, 0), c(8, 0));
    let s = g.add(h);
    assert_eq!(s.m00, c(6, 1));
    assert_eq!(s.m11, c(12, 4));
    let d = s.sub(h);
    assert_eq!(d, g);
}

#[test]
fn mul_is_standard_matrix_product() {
    // [[1,2],[3,4]] * [[5,6],[7,8]] = [[19,22],[43,50]], exact on integers.
    let g = c64x4::new(c(1, 0), c(2, 0), c(3, 0), c(4, 0));
    let h = c64x4::new(c(5, 0), c(6, 0), c(7, 0), c(8, 0));
    let p = g.mul(h);
    assert_eq!(p.m00, c(19, 0));
    assert_eq!(p.m01, c(22, 0));
    assert_eq!(p.m10, c(43, 0));
    assert_eq!(p.m11, c(50, 0));
}

#[test]
fn mul_identity_is_neutral() {
    let id = c64x4::new(c(1, 0), c(0, 0), c(0, 0), c(1, 0));
    let g = c64x4::new(c(1, 2), c(3, 4), c(5, 6), c(7, 8));
    assert_eq!(id.mul(g), g);
    assert_eq!(g.mul(id), g);
}

#[test]
fn matrix_assign_forms_match_operators() {
    let g = c64x4::new(c(1, 1), c(2, 2), c(3, 3), c(4, 4));
    let h = c64x4::new(c(5, 0), c(6, 0), c(7, 0), c(8, 0));
    let mut a = g;
    a.add_assign(h);
    assert_eq!(a, g.add(h));
    let mut s = g;
    s.sub_assign(h);
    assert_eq!(s, g.sub(h));
    let mut m = g;
    m.mul_assign(h);
    assert_eq!(m, g.mul(h));
}
