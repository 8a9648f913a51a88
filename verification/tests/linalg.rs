use num_complex::Complex64;

use qsim::linalg::matrix::kronecker_product;
use qsim::linalg::{SquareMatrix, Vector};

fn c64(re: f64, im: f64) -> Complex64 {
    Complex64::new(re, im)
}

#[test]
fn vector_zeros_get_and_set() {
    let mut v = Vector::zeros(4, 0u32);
    assert_eq!(v.len(), 4);
    assert_eq!(v.as_slice(), &[0, 0, 0, 0]);
    *v.get_mut(2) = 7;
    *v.get_mut(0) = 5;
    assert_eq!(*v.get(2), 7);
    assert_eq!(v.as_slice(), &[5, 0, 7, 0]);
    v.as_mut_slice()[3] = 9;
    assert_eq!(v.as_slice(), &[5, 0, 7, 9]);
}

#[test]
fn vector_from_elements_keeps_order() {
    let v = Vector::from_elements([c64(1., 2.), c64(3., 4.)]);
    assert_eq!(v.as_slice(), &[c64(1., 2.), c64(3., 4.)]);
}

#[test]
fn matrix_is_stored_row_by_row() {
    let mut m = SquareMatrix::from_array_2([[1, 2, 3], [4, 5, 6], [7, 8, 9]]);
    assert_eq!(m.size(), 3);
    assert_eq!(*m.get(1, 2), 6);
    assert_eq!(*m.get(2, 0), 7);
    *m.get_mut(0, 1) = 20;
    *m.get_mut(2, 2) = 90;
    assert_eq!(*m.get(0, 1), 20);
    assert_eq!(*m.get(2, 2), 90);
    let z = SquareMatrix::zero(2, 0u8);
    assert_eq!(z.size(), 2);
    assert_eq!(*z.get(1, 1), 0);
}

fn kron(a: &SquareMatrix<Complex64>, b: &SquareMatrix<Complex64>) -> SquareMatrix<Complex64> {
    kronecker_product(a, b, Complex64::ZERO, &|x: Complex64, y: Complex64| x * y)
}

fn assert_matrix(m: &SquareMatrix<Complex64>, expected: &[&[Complex64]]) {
    assert_eq!(m.size(), expected.len());
    for (r, row) in expected.iter().enumerate() {
        for (c, e) in row.iter().enumerate() {
            assert_eq!(m.get(r, c), e, "entry ({r}, {c})");
        }
    }
}

#[test]
fn kronecker_of_x_and_z() {
    let x = SquareMatrix::from_array_2([[c64(0., 0.), c64(1., 0.)], [c64(1., 0.), c64(0., 0.)]]);
    let z = SquareMatrix::from_array_2([[c64(1., 0.), c64(0., 0.)], [c64(0., 0.), c64(-1., 0.)]]);
    let o = c64(0., 0.);
    assert_matrix(
        &kron(&x, &z),
        &[
            &[o, o, c64(1., 0.), o],
            &[o, o, o, c64(-1., 0.)],
            &[c64(1., 0.), o, o, o],
            &[o, c64(-1., 0.), o, o],
        ],
    );
}

#[test]
fn kronecker_of_complex_matrices() {
    let a = SquareMatrix::from_array_2([[c64(1., 2.), c64(0., -1.)], [c64(3., 0.), c64(1., -2.)]]);
    let b = SquareMatrix::from_array_2([[c64(1., 0.), c64(2., -3.)], [c64(0., 1.), c64(1., 1.)]]);
    assert_matrix(
        &kron(&a, &b),
        &[
            &[c64(1., 2.), c64(8., 1.), c64(0., -1.), c64(-3., -2.)],
            &[c64(-2., 1.), c64(-1., 3.), c64(1., 0.), c64(1., -1.)],
            &[c64(3., 0.), c64(6., -9.), c64(1., -2.), c64(-4., -7.)],
            &[c64(0., 3.), c64(3., 3.), c64(2., 1.), c64(3., -1.)],
        ],
    );
}

#[test]
fn kronecker_of_identities_is_identity() {
    let i2 = SquareMatrix::from_array_2([[c64(1., 0.), c64(0., 0.)], [c64(0., 0.), c64(1., 0.)]]);
    let i4 = kron(&i2, &i2);
    for r in 0..4 {
        for c in 0..4 {
            let e = if r == c { c64(1., 0.) } else { c64(0., 0.) };
            assert_eq!(*i4.get(r, c), e);
        }
    }
}
