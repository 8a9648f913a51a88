use num_complex::Complex64;

use qsim::kernels::avx::{self, AvxVariant};
use qsim::kernels::generic::{apply_1q_strided, apply_c2q_strided, apply_pair};

// Floating point error tolerance.
const EPSILON: f64 = 1e-12;

type Matrix = [[Complex64; 2]; 2];

fn x() -> Matrix {
    [
        [Complex64::new(0., 0.), Complex64::new(1., 0.)],
        [Complex64::new(1., 0.), Complex64::new(0., 0.)],
    ]
}

fn y() -> Matrix {
    [
        [Complex64::new(0., 0.), Complex64::new(0., -1.)],
        [Complex64::new(0., 1.), Complex64::new(0., 0.)],
    ]
}

fn h() -> Matrix {
    let c = std::f64::consts::FRAC_1_SQRT_2;
    [
        [Complex64::new(c, 0.), Complex64::new(c, 0.)],
        [Complex64::new(c, 0.), Complex64::new(-c, 0.)],
    ]
}

/// The pair update of the generic scalar kernel.
fn pair_gate(matrix: Matrix) -> impl Fn(Complex64, Complex64) -> (Complex64, Complex64) {
    move |low: Complex64, high: Complex64| {
        let input = [low, high];
        let mut output = [Complex64::ZERO; 2];
        for i in 0..2 {
            let mut total = Complex64::ZERO;
            for j in 0..2 {
                let coefficient = matrix[i][j];
                let value = input[j];
                total = Complex64::new(
                    coefficient.re * value.re + (-coefficient.im * value.im + total.re),
                    coefficient.re * value.im + (coefficient.im * value.re + total.im),
                );
            }
            output[i] = total;
        }
        (output[0], output[1])
    }
}

/// The two-lane update of the portable kernel, computed lane by lane as the
/// vector unit does: real products plus swizzled imaginary products times
/// alternating signs.
fn lane_gate(
    matrix: Matrix,
) -> impl Fn((Complex64, Complex64), (Complex64, Complex64)) -> ((Complex64, Complex64), (Complex64, Complex64)) {
    move |low: (Complex64, Complex64), high: (Complex64, Complex64)| {
        let lanes = |v: (Complex64, Complex64)| [v.0.re, v.0.im, v.1.re, v.1.im];
        let signs = [-1.0, 1.0, -1.0, 1.0];
        let mul = |input: [f64; 4], m: Complex64| {
            let re_products = input.map(|x| x * m.re);
            let im_products = input.map(|x| x * m.im);
            let swizzled = [im_products[1], im_products[0], im_products[3], im_products[2]];
            [
                re_products[0] + swizzled[0] * signs[0],
                re_products[1] + swizzled[1] * signs[1],
                re_products[2] + swizzled[2] * signs[2],
                re_products[3] + swizzled[3] * signs[3],
            ]
        };
        let (l, h) = (lanes(low), lanes(high));
        let add = |a: [f64; 4], b: [f64; 4]| [a[0] + b[0], a[1] + b[1], a[2] + b[2], a[3] + b[3]];
        let lo = add(mul(l, matrix[0][0]), mul(h, matrix[0][1]));
        let hi = add(mul(l, matrix[1][0]), mul(h, matrix[1][1]));
        (
            (Complex64::new(lo[0], lo[1]), Complex64::new(lo[2], lo[3])),
            (Complex64::new(hi[0], hi[1]), Complex64::new(hi[2], hi[3])),
        )
    }
}

fn assert_amps_eq(actual: &[Complex64], expected: &[Complex64]) {
    assert_eq!(actual.len(), expected.len());

    for (index, (actual, expected)) in actual.iter().zip(expected).enumerate() {
        let difference = (*actual - *expected).norm();

        assert!(difference < EPSILON, "Amplitude {index} differs: {actual} != {expected}");
    }
}

fn real_amps(values: &[f64]) -> Vec<Complex64> {
    values.iter().map(|&value| Complex64::new(value, 0.0)).collect()
}

#[test]
fn pair_applies_gate_to_selected_amplitudes() {
    let mut amps = real_amps(&[1.0, 0.0, 0.0, 0.0]);

    apply_pair(&mut amps, 0, 2, &pair_gate(x()));

    assert_amps_eq(&amps, &real_amps(&[0.0, 0.0, 1.0, 0.0]));
}

#[test]
fn strided_1q_unit_stride() {
    let mut amps = real_amps(&[1.0, 2.0, 3.0, 4.0]);

    apply_1q_strided(&mut amps, 1, &pair_gate(x()));

    assert_amps_eq(&amps, &real_amps(&[2.0, 1.0, 4.0, 3.0]));
}

#[test]
fn strided_1q_larger_stride() {
    let mut amps = real_amps(&[1.0, 2.0, 3.0, 4.0, 5.0, 6.0, 7.0, 8.0]);

    apply_1q_strided(&mut amps, 2, &pair_gate(x()));

    assert_amps_eq(&amps, &real_amps(&[3.0, 4.0, 1.0, 2.0, 7.0, 8.0, 5.0, 6.0]));
}

#[test]
fn strided_c2q_more_significant_control() {
    let mut amps = real_amps(&[1.0, 2.0, 3.0, 4.0]);

    apply_c2q_strided(&mut amps, 2, 1, &pair_gate(x()));

    assert_amps_eq(&amps, &real_amps(&[1.0, 2.0, 4.0, 3.0]));
}

#[test]
fn strided_c2q_more_significant_target() {
    let mut amps = real_amps(&[1.0, 2.0, 3.0, 4.0]);

    apply_c2q_strided(&mut amps, 1, 2, &pair_gate(x()));

    assert_amps_eq(&amps, &real_amps(&[1.0, 4.0, 3.0, 2.0]));
}

#[test]
fn strided_1q_complex_gate() {
    let mut amps = real_amps(&[1.0, 0.0]);

    apply_1q_strided(&mut amps, 1, &pair_gate(y()));

    assert_amps_eq(&amps, &[Complex64::ZERO, Complex64::new(0.0, 1.0)]);
}

#[test]
fn strided_1q_preserves_norm() {
    let mut amps = real_amps(&[1.0, 0.0, 0.0, 0.0]);

    apply_1q_strided(&mut amps, 2, &pair_gate(h()));

    let norm: f64 = amps.iter().map(Complex64::norm_sqr).sum();

    assert!((norm - 1.0).abs() < EPSILON);
}

#[test]
fn portable_avx_matches_generic() {
    let matrix = [
        [Complex64::new(0.25, -0.50), Complex64::new(0.75, 0.125)],
        [Complex64::new(-0.375, 0.625), Complex64::new(0.50, -0.25)],
    ];

    let input = [
        Complex64::new(0.10, -0.20),
        Complex64::new(0.30, 0.40),
        Complex64::new(-0.50, 0.60),
        Complex64::new(0.70, -0.80),
        Complex64::new(-0.15, 0.25),
        Complex64::new(0.35, -0.45),
        Complex64::new(0.55, 0.65),
        Complex64::new(-0.75, 0.85),
    ];

    let mut expected = input;
    let mut actual = input;

    apply_1q_strided(&mut expected, 2, &pair_gate(matrix));

    avx::apply_1q(&mut actual, 2, &lane_gate(matrix));

    for (index, (actual, expected)) in actual.iter().zip(expected.iter()).enumerate() {
        let difference = (*actual - *expected).norm();

        assert!(
            difference < 1e-12,
            "amplitude {index} differs: \
            AVX={actual}, generic={expected}, \
            difference={difference}",
        );
    }
}

#[test]
fn both_variants_agree_on_every_pair() {
    let matrix = h();
    let input: Vec<Complex64> = (0..16).map(|i| Complex64::new(i as f64, -(i as f64) / 2.0)).collect();

    let mut scalar = input.clone();
    let mut portable = input.clone();

    avx::apply_1q_with_variant(&mut scalar, 4, &pair_gate(matrix), &lane_gate(matrix), AvxVariant::Scalar);
    avx::apply_1q_with_variant(&mut portable, 4, &pair_gate(matrix), &lane_gate(matrix), AvxVariant::Portable);

    assert_amps_eq(&scalar, &portable);
}

#[test]
fn controlled_kernel_leaves_control_zero_half_alone() {
    // Three qubits: control qubit 1 (stride 2), target qubit 2 (stride 1).
    let mut amps = real_amps(&[1.0, 2.0, 3.0, 4.0, 5.0, 6.0, 7.0, 8.0]);

    apply_c2q_strided(&mut amps, 2, 1, &pair_gate(x()));

    // Control reads 1 at indices 2, 3, 6, 7; those pairs swap.
    assert_amps_eq(&amps, &real_amps(&[1.0, 2.0, 4.0, 3.0, 5.0, 6.0, 8.0, 7.0]));
}

#[test]
fn applying_x_twice_restores_the_amplitudes() {
    let input = real_amps(&[1.0, 2.0, 3.0, 4.0, 5.0, 6.0, 7.0, 8.0]);
    let mut amps = input.clone();

    apply_1q_strided(&mut amps, 4, &pair_gate(x()));
    assert_amps_eq(&amps, &real_amps(&[5.0, 6.0, 7.0, 8.0, 1.0, 2.0, 3.0, 4.0]));
    apply_1q_strided(&mut amps, 4, &pair_gate(x()));

    assert_amps_eq(&amps, &input);
}
