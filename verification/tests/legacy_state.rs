use std::f64::consts::{FRAC_1_SQRT_2, PI};

use num_complex::Complex64;

use qsim::api::{GateMatrix, Instruction};
use qsim::api::Instruction::{CNOT, CRP, H, X};
use qsim::legacy::LegacyState;
use qsim::legacy::state::State;

fn c64(re: f64, im: f64) -> Complex64 {
    Complex64::new(re, im)
}

fn matrix(m: GateMatrix<f64>) -> [[Complex64; 2]; 2] {
    let one = c64(1., 0.);
    let zero = c64(0., 0.);
    match m {
        GateMatrix::X => [[zero, one], [one, zero]],
        GateMatrix::Y => [[zero, c64(0., -1.)], [c64(0., 1.), zero]],
        GateMatrix::Z => [[one, zero], [zero, c64(-1., 0.)]],
        GateMatrix::H => [
            [c64(FRAC_1_SQRT_2, 0.), c64(FRAC_1_SQRT_2, 0.)],
            [c64(FRAC_1_SQRT_2, 0.), c64(-FRAC_1_SQRT_2, 0.)],
        ],
        GateMatrix::S => [[one, zero], [zero, c64(0., 1.)]],
        GateMatrix::T => [[one, zero], [zero, c64(FRAC_1_SQRT_2, FRAC_1_SQRT_2)]],
        GateMatrix::P { phi } => [[one, zero], [zero, Complex64::from_polar(1., phi)]],
    }
}

fn gates(m: GateMatrix<f64>, a: Complex64, b: Complex64) -> (Complex64, Complex64) {
    let m = matrix(m);
    let v = [a, b];
    let mut out = [Complex64::ZERO; 2];
    for i in 0..2 {
        let mut total = Complex64::ZERO;
        for j in 0..2 {
            total += m[i][j] * v[j];
        }
        out[i] = total;
    }
    (out[0], out[1])
}

fn zero_state(n: usize) -> Result<State<Complex64>, &'static str> {
    State::zero(n, Complex64::ZERO, Complex64::ONE)
}

#[test]
fn new_state_amplitudes_len_is_circuit_size_to_power_of_two() {
    assert_eq!(zero_state(1).unwrap().amplitudes().len(), 2);
    assert_eq!(zero_state(3).unwrap().amplitudes().len(), 8);
    assert_eq!(zero_state(8).unwrap().amplitudes().len(), 256);
}

#[test]
fn new_state_zero_state_is_normalised() {
    let state = zero_state(4).unwrap();
    let total: f64 = state.amplitudes().iter().map(|a| a.norm_sqr()).sum();
    // Exact equalities will hold for a zero state.
    assert_eq!(total, 1.0);
}

struct TestCase {
    name: &'static str,
    circuit_size: usize,
    instructions: Vec<Instruction<f64>>,
    outcome: Vec<Complex64>,
}

fn run_cases(cases: Vec<TestCase>) {
    for case in cases {
        let mut state = zero_state(case.circuit_size).unwrap();
        for g in case.instructions {
            state.execute(g, &gates).expect("Failed to apply Gate");
        }
        for (i, amp) in state.amplitudes().iter().enumerate() {
            assert_eq!(amp, &case.outcome[i], "Failed on amplitude {i} in test case \"{}\"", case.name);
        }
    }
}

#[test]
fn new_state_cnot() {
    run_cases(vec![
        TestCase {
            name: "bell state phi plus",
            circuit_size: 2,
            instructions: vec![H { q: 0 }, CNOT { q_c: 0, q_t: 1 }],
            outcome: vec![c64(FRAC_1_SQRT_2, 0.0), c64(0.0, 0.0), c64(0.0, 0.0), c64(FRAC_1_SQRT_2, 0.0)],
        },
        TestCase {
            name: "reversible",
            circuit_size: 2,
            instructions: vec![H { q: 0 }, CNOT { q_c: 0, q_t: 1 }, CNOT { q_c: 0, q_t: 1 }],
            outcome: vec![c64(FRAC_1_SQRT_2, 0.0), c64(0.0, 0.0), c64(FRAC_1_SQRT_2, 0.0), c64(0.0, 0.0)],
        },
        TestCase {
            name: "bell state phi plus from other side",
            circuit_size: 2,
            instructions: vec![H { q: 1 }, CNOT { q_c: 1, q_t: 0 }],
            outcome: vec![c64(FRAC_1_SQRT_2, 0.0), c64(0.0, 0.0), c64(0.0, 0.0), c64(FRAC_1_SQRT_2, 0.0)],
        },
        TestCase {
            name: "3 qubits",
            circuit_size: 3,
            instructions: vec![H { q: 0 }, CNOT { q_c: 0, q_t: 2 }],
            outcome: vec![
                c64(FRAC_1_SQRT_2, 0.0),
                c64(0.0, 0.0),
                c64(0.0, 0.0),
                c64(0.0, 0.0),
                c64(0.0, 0.0),
                c64(FRAC_1_SQRT_2, 0.0),
                c64(0.0, 0.0),
                c64(0.0, 0.0),
            ],
        },
    ]);
}

#[test]
fn new_state_crp() {
    run_cases(vec![
        TestCase {
            name: "VERIFY_CRP_GATE_ACTS_AS_IDENTITY_NO_OP_WHEN_CONTROL_QUBIT_IS_ZERO_AND_TARGET_QUBIT_IS_ONE",
            circuit_size: 2,
            instructions: vec![X { q: 1 }, CRP { q_c: 0, q_t: 1, phi: PI }],
            outcome: vec![
                c64(0.0, 0.0), // |00>
                c64(1.0, 0.0), // |01> State must remain entirely unaltered because Control is 0
                c64(0.0, 0.0), // |10>
                c64(0.0, 0.0), // |11>
            ],
        },
        TestCase {
            name: "VERIFY_CRP_GATE_ACTS_AS_IDENTITY_NO_OP_WHEN_CONTROL_QUBIT_IS_ONE_AND_TARGET_QUBIT_IS_ZERO",
            circuit_size: 2,
            instructions: vec![X { q: 0 }, CRP { q_c: 0, q_t: 1, phi: PI }],
            outcome: vec![
                c64(0.0, 0.0), // |00>
                c64(0.0, 0.0), // |01>
                c64(1.0, 0.0), // |10> State must remain entirely unaltered because Target is 0
                c64(0.0, 0.0), // |11>
            ],
        },
    ]);
}

#[test]
fn legacy_x_flips_the_zero_state() {
    let mut state: LegacyState<Complex64> = zero_state(1).unwrap();
    state.execute(X { q: 0 }, &gates).unwrap();
    assert_eq!(state.amplitudes(), &[Complex64::ZERO, Complex64::ONE]);
    assert_eq!(state.circuit_size(), 1);
}

#[test]
fn legacy_errors_check_distinct_before_existing() {
    let mut state = zero_state(2).unwrap();
    assert_eq!(zero_state(0).err(), Some("A state with 0 qubits is invalid"));
    assert_eq!(state.execute(H { q: 2 }, &gates), Err("Target qubit does not exist"));
    assert_eq!(
        state.execute(CNOT { q_c: 5, q_t: 5 }, &gates),
        Err("Control and target must be distinct qubits")
    );
    assert_eq!(
        state.execute(CNOT { q_c: 0, q_t: 4 }, &gates),
        Err("Control and target must be an existing qubit")
    );
}

#[test]
fn legacy_and_strided_states_agree() {
    let circuit = [
        H { q: 0 },
        H { q: 2 },
        CNOT { q_c: 0, q_t: 1 },
        CRP { q_c: 2, q_t: 0, phi: PI / 4.0 },
        Instruction::T { q: 1 },
        CNOT { q_c: 2, q_t: 1 },
        Instruction::Y { q: 2 },
    ];
    let mut legacy = zero_state(3).unwrap();
    let mut strided = qsim::state::State::zero(3, Complex64::ZERO, Complex64::ONE).unwrap();
    for g in circuit {
        legacy.execute(g, &gates).unwrap();
        strided.execute(g, &gates).unwrap();
    }
    assert_eq!(legacy.amplitudes(), strided.amplitudes());
}

#[test]
fn legacy_probability_and_collapse() {
    let mut state = zero_state(2).unwrap();
    state.execute(H { q: 1 }, &gates).unwrap();
    let p0 = state.fold_target_zero(1, 0.0, &|s: f64, a: Complex64| s + a.norm_sqr());
    assert!((p0 - 0.5).abs() < 1e-12);
    state.collapse(1, false, Complex64::ZERO, &|a: Complex64| a / p0.sqrt());
    let amps = state.amplitudes();
    assert!((amps[0] - Complex64::ONE).norm() < 1e-12);
    assert_eq!(amps[1], Complex64::ZERO);
    assert_eq!(amps[2], Complex64::ZERO);
    assert_eq!(amps[3], Complex64::ZERO);
}
