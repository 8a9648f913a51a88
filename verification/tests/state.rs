use std::f64::consts::{FRAC_1_SQRT_2, PI};

use num_complex::Complex64;

use qsim::api::{GateMatrix, Instruction};
use qsim::api::Instruction::{CNOT, CRP, H, X};
use qsim::kernels::measure::fold_zero_strided;
use qsim::kernels::scan::fold_zero_scan;
use qsim::linalg::Vector;
use qsim::state::State;

fn c64(re: f64, im: f64) -> Complex64 {
    Complex64::new(re, im)
}

fn matrix(m: GateMatrix<f64>) -> [[Complex64; 2]; 2] {
    let one = c64(1., 0.);
    let zero = c64(0., 0.);
    match m {
        GateMatrix::X => [[zero, one], [one, zero]],
        GateMatrix::Y => [[zero, c64(0., -1.)], [c64(0., 1.), zero]],
        GateMatrix::Z => [[one, zero], [zero, c64(-1., 0.)]],
        GateMatrix::H => [
            [c64(FRAC_1_SQRT_2, 0.), c64(FRAC_1_SQRT_2, 0.)],
            [c64(FRAC_1_SQRT_2, 0.), c64(-FRAC_1_SQRT_2, 0.)],
        ],
        GateMatrix::S => [[one, zero], [zero, c64(0., 1.)]],
        GateMatrix::T => [[one, zero], [zero, c64(FRAC_1_SQRT_2, FRAC_1_SQRT_2)]],
        GateMatrix::P { phi } => [[one, zero], [zero, Complex64::from_polar(1., phi)]],
    }
}

/// Multiplies a pair by a 2×2 matrix.
fn linear_map(m: [[Complex64; 2]; 2], pair: (Complex64, Complex64)) -> (Complex64, Complex64) {
    let v = [pair.0, pair.1];
    let mut out = [Complex64::ZERO; 2];
    for i in 0..2 {
        let mut total = Complex64::ZERO;
        for j in 0..2 {
            total += m[i][j] * v[j];
        }
        out[i] = total;
    }
    (out[0], out[1])
}

fn gates(m: GateMatrix<f64>, a: Complex64, b: Complex64) -> (Complex64, Complex64) {
    linear_map(matrix(m), (a, b))
}

fn zero_state(n: usize) -> Result<State<Complex64>, &'static str> {
    State::zero(n, Complex64::ZERO, Complex64::ONE)
}

#[test]
fn strided_x() {
    let mut state = zero_state(2).unwrap();
    let h = matrix(GateMatrix::H);
    state.apply_1q(0, &|a, b| linear_map(h, (a, b))).unwrap();

    let amps = state.amplitudes();
    let expected = Vector::from_elements([
        c64(FRAC_1_SQRT_2, 0.0),
        c64(0.0, 0.0),
        c64(FRAC_1_SQRT_2, 0.0),
        c64(0.0, 0.0),
    ]);

    for i in 0..expected.len() {
        assert_eq!(amps[i], *expected.get(i));
    }
}

#[test]
fn state_amplitudes_len_is_circuit_size_to_power_of_two() {
    assert_eq!(zero_state(1).unwrap().amplitudes().len(), 2);
    assert_eq!(zero_state(3).unwrap().amplitudes().len(), 8);
    assert_eq!(zero_state(8).unwrap().amplitudes().len(), 256);
}

#[test]
fn state_zero_state_is_normalised() {
    let state = zero_state(4).unwrap();
    let total: f64 = state.amplitudes().iter().map(|a| a.norm_sqr()).sum();
    // Exact equalities will hold for a zero state.
    assert_eq!(total, 1.0);
}

#[test]
fn state_h_creates_superposition() {
    let mut state = zero_state(1).unwrap();
    state.execute(H { q: 0 }, &gates).expect("Failed to apply Gate::H");
    let amps = state.amplitudes();
    let expected = c64(FRAC_1_SQRT_2, 0.);
    // Exact equalities will hold for one gate on a zero state.
    assert_eq!(amps[0], expected);
    assert_eq!(amps[1], expected);
}

struct TestCase {
    name: &'static str,
    circuit_size: usize,
    instructions: Vec<Instruction<f64>>,
    outcome: Vec<Complex64>,
}

fn run_cases(cases: Vec<TestCase>) {
    for case in cases {
        let mut state = zero_state(case.circuit_size).unwrap();
        for g in case.instructions {
            state.execute(g, &gates).expect("Failed to apply Gate");
        }
        for (i, amp) in state.amplitudes().iter().enumerate() {
            assert_eq!(amp, &case.outcome[i], "Failed on amplitude {i} in test case \"{}\"", case.name);
        }
    }
}

fn cnot_cases() -> Vec<TestCase> {
    vec![
        TestCase {
            name: "bell state phi plus",
            circuit_size: 2,
            instructions: vec![H { q: 0 }, CNOT { q_c: 0, q_t: 1 }],
            outcome: vec![c64(FRAC_1_SQRT_2, 0.0), c64(0.0, 0.0), c64(0.0, 0.0), c64(FRAC_1_SQRT_2, 0.0)],
        },
        TestCase {
            name: "reversible",
            circuit_size: 2,
            instructions: vec![H { q: 0 }, CNOT { q_c: 0, q_t: 1 }, CNOT { q_c: 0, q_t: 1 }],
            outcome: vec![c64(FRAC_1_SQRT_2, 0.0), c64(0.0, 0.0), c64(FRAC_1_SQRT_2, 0.0), c64(0.0, 0.0)],
        },
        TestCase {
            name: "bell state phi plus from other side",
            circuit_size: 2,
            instructions: vec![H { q: 1 }, CNOT { q_c: 1, q_t: 0 }],
            outcome: vec![c64(FRAC_1_SQRT_2, 0.0), c64(0.0, 0.0), c64(0.0, 0.0), c64(FRAC_1_SQRT_2, 0.0)],
        },
        TestCase {
            name: "3 qubits",
            circuit_size: 3,
            instructions: vec![H { q: 0 }, CNOT { q_c: 0, q_t: 2 }],
            outcome: vec![
                c64(FRAC_1_SQRT_2, 0.0),
                c64(0.0, 0.0),
                c64(0.0, 0.0),
                c64(0.0, 0.0),
                c64(0.0, 0.0),
                c64(FRAC_1_SQRT_2, 0.0),
                c64(0.0, 0.0),
                c64(0.0, 0.0),
            ],
        },
    ]
}

fn crp_cases() -> Vec<TestCase> {
    vec![
        TestCase {
            name: "VERIFY_CRP_GATE_ACTS_AS_IDENTITY_NO_OP_WHEN_CONTROL_QUBIT_IS_ZERO_AND_TARGET_QUBIT_IS_ONE",
            circuit_size: 2,
            instructions: vec![X { q: 1 }, CRP { q_c: 0, q_t: 1, phi: PI }],
            outcome: vec![
                c64(0.0, 0.0), // |00>
                c64(1.0, 0.0), // |01> State must remain entirely unaltered because Control is 0
                c64(0.0, 0.0), // |10>
                c64(0.0, 0.0), // |11>
            ],
        },
        TestCase {
            name: "VERIFY_CRP_GATE_ACTS_AS_IDENTITY_NO_OP_WHEN_CONTROL_QUBIT_IS_ONE_AND_TARGET_QUBIT_IS_ZERO",
            circuit_size: 2,
            instructions: vec![X { q: 0 }, CRP { q_c: 0, q_t: 1, phi: PI }],
            outcome: vec![
                c64(0.0, 0.0), // |00>
                c64(0.0, 0.0), // |01>
                c64(1.0, 0.0), // |10> State must remain entirely unaltered because Target is 0
                c64(0.0, 0.0), // |11>
            ],
        },
    ]
}

#[test]
fn state_cnot() {
    run_cases(cnot_cases());
}

#[test]
fn state_crp() {
    run_cases(crp_cases());
}

#[test]
fn zero_qubits_is_refused() {
    assert_eq!(zero_state(0).err(), Some("A state with 0 qubits is invalid"));
}

#[test]
fn zero_state_has_one_at_index_zero_only() {
    let state = zero_state(3).unwrap();
    assert_eq!(state.num_qubits(), 3);
    let amps = state.amplitudes();
    assert_eq!(amps[0], Complex64::ONE);
    assert!(amps[1..].iter().all(|a| *a == Complex64::ZERO));
}

#[test]
fn missing_target_is_refused_and_state_unchanged() {
    let mut state = zero_state(2).unwrap();
    assert_eq!(state.execute(X { q: 2 }, &gates), Err("Target qubit does not exist"));
    assert_eq!(state.amplitudes()[0], Complex64::ONE);
    assert_eq!(
        state.fold_target_zero(5, 0.0, &|s: f64, a: Complex64| s + a.norm_sqr()),
        Err("Target qubit does not exist")
    );
    assert_eq!(
        state.collapse(2, true, Complex64::ZERO, &|a: Complex64| a),
        Err("Target qubit does not exist")
    );
}

#[test]
fn controlled_errors() {
    let mut state = zero_state(2).unwrap();
    assert_eq!(
        state.execute(CNOT { q_c: 0, q_t: 2 }, &gates),
        Err("Control and target must be existing qubits")
    );
    assert_eq!(
        state.execute(CNOT { q_c: 1, q_t: 1 }, &gates),
        Err("Control and target must be distinct qubits")
    );
    // Both out of range and equal: the range is checked first.
    assert_eq!(
        state.execute(CNOT { q_c: 5, q_t: 5 }, &gates),
        Err("Control and target must be existing qubits")
    );
}

#[test]
fn fold_target_zero_visits_the_zero_half_in_order() {
    // Qubit 1 of three has stride 2: it reads 0 at indices 0, 1, 4, 5.
    let values: Vec<Complex64> = (0..8).map(|i| c64(i as f64, 0.0)).collect();
    let collect = |mut s: Vec<usize>, a: Complex64| {
        s.push(a.re as usize);
        s
    };
    assert_eq!(fold_zero_strided(&values, 2, Vec::new(), &collect), vec![0, 1, 4, 5]);
    assert_eq!(fold_zero_scan(&values, 3, 1, Vec::new(), &collect), vec![0, 1, 4, 5]);
}

#[test]
fn zero_state_probability_of_zero_is_one() {
    let state = zero_state(3).unwrap();
    for target in 0..3 {
        let p0 = state.fold_target_zero(target, 0.0, &|s: f64, a: Complex64| s + a.norm_sqr());
        assert_eq!(p0, Ok(1.0));
        let legacy = state.legacy_fold_target_zero(target, 0.0, &|s: f64, a: Complex64| s + a.norm_sqr());
        assert_eq!(legacy, Ok(1.0));
    }
}

#[test]
fn collapse_zeroes_the_other_outcome() {
    let mut state = zero_state(2).unwrap();
    state.execute(H { q: 0 }, &gates).unwrap();
    state.execute(CNOT { q_c: 0, q_t: 1 }, &gates).unwrap();
    let p: f64 = 0.5;
    state.collapse(0, true, Complex64::ZERO, &|a: Complex64| a / p.sqrt()).unwrap();
    let amps = state.amplitudes();
    assert_eq!(amps[0], Complex64::ZERO);
    assert_eq!(amps[1], Complex64::ZERO);
    assert_eq!(amps[2], Complex64::ZERO);
    assert!((amps[3] - Complex64::ONE).norm() < 1e-12);
}

#[test]
fn legacy_collapse_matches_collapse() {
    let mut a = zero_state(3).unwrap();
    for g in [H { q: 0 }, H { q: 1 }, CNOT { q_c: 1, q_t: 2 }] {
        a.execute(g, &gates).unwrap();
    }
    let mut b = zero_state(3).unwrap();
    for g in [H { q: 0 }, H { q: 1 }, CNOT { q_c: 1, q_t: 2 }] {
        b.execute(g, &gates).unwrap();
    }
    let rescale = |x: Complex64| x * 2.0;
    a.collapse(1, false, Complex64::ZERO, &rescale).unwrap();
    b.legacy_collapse(1, false, Complex64::ZERO, &rescale).unwrap();
    assert_eq!(a.amplitudes(), b.amplitudes());
    assert_eq!(b.legacy_collapse(3, false, Complex64::ZERO, &rescale), Err("Target qubit does not exist"));
}
