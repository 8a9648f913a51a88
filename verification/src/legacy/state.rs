//! The index-scanning statevector.

use vstd::prelude::*;
use vstd::arithmetic::power2::pow2;

use crate::api::{GateMatrix, Instruction};
use crate::bits::{lemma_register_stride, qubit_stride};
use crate::kernels::generic::{
    applied_c2q, functional, gate_rel, lemma_applied_1q_unique, lemma_applied_1q_weaken,
    lemma_applied_c2q_unique, lemma_applied_c2q_weaken, total_gate,
};
use crate::kernels::measure::{collapsed, fold_rel, folds_to, total_fold, zero_half};
use crate::kernels::scan::{apply_1q_index, apply_c2q_index, collapse_scan, fold_zero_scan};
use crate::linalg::Vector;
use crate::state::{
    executed, gates_ensure, gates_require, instruction_matrix, lemma_register_strides, matrix_rel,
    one_qubit_outcome, total_gates,
};

verus! {

/// What applying a gate under `rel` to `target`, controlled by `control`,
/// of an `n`-qubit state `old` yields for the index-scanning state, which
/// checks that the qubits are distinct before it checks that they exist.
pub open spec fn legacy_controlled_outcome<A>(
    rel: spec_fn(A, A, A, A) -> bool,
    n: nat,
    control: int,
    target: int,
    old: Seq<A>,
    new: Seq<A>,
    r: Result<(), &'static str>,
) -> bool {
    if control == target {
        r == Err::<(), &'static str>("Control and target must be distinct qubits") && new == old
    } else if !(0 <= control < n) || !(0 <= target < n) {
        r == Err::<(), &'static str>("Control and target must be an existing qubit") && new == old
    } else {
        r is Ok && applied_c2q(
            rel,
            old,
            new,
            qubit_stride(n, control as nat) as int,
            qubit_stride(n, target as nat) as int,
        )
    }
}

/// What executing `cmd` on an `n`-qubit index-scanning state `old`, with named matrices applied by `gates`, yields.
pub open spec fn legacy_executed<P, A, G: Fn(GateMatrix<P>, A, A) -> (A, A)>(
    gates: G,
    cmd: Instruction<P>,
    n: nat,
    old: Seq<A>,
    new: Seq<A>,
    r: Result<(), &'static str>,
) -> bool {
    match cmd {
        Instruction::X { q } => one_qubit_outcome(matrix_rel(gates, GateMatrix::X), n, q as int, old, new, r),
        Instruction::Y { q } => one_qubit_outcome(matrix_rel(gates, GateMatrix::Y), n, q as int, old, new, r),
        Instruction::Z { q } => one_qubit_outcome(matrix_rel(gates, GateMatrix::Z), n, q as int, old, new, r),
        Instruction::H { q } => one_qubit_outcome(matrix_rel(gates, GateMatrix::H), n, q as int, old, new, r),
        Instruction::S { q } => one_qubit_outcome(matrix_rel(gates, GateMatrix::S), n, q as int, old, new, r),
        Instruction::T { q } => one_qubit_outcome(matrix_rel(gates, GateMatrix::T), n, q as int, old, new, r),
        Instruction::P { q, phi } => one_qubit_outcome(
            matrix_rel(gates, GateMatrix::P { phi }),
            n,
            q as int,
            old,
            new,
            r,
        ),
        Instruction::CNOT { q_c, q_t } => legacy_controlled_outcome(
            matrix_rel(gates, GateMatrix::X),
            n,
            q_c as int,
            q_t as int,
            old,
            new,
            r,
        ),
        Instruction::CRP { q_c, q_t, phi } => legacy_controlled_outcome(
            matrix_rel(gates, GateMatrix::P { phi }),
            n,
            q_c as int,
            q_t as int,
            old,
            new,
            r,
        ),
        Instruction::SWAP { .. } => false,
        Instruction::QFT => false,
    }
}

/// The index-scanning state and the strided state agree: executing the same
/// instruction on the same amplitudes, with a matrix that is a function of
/// the pair, both succeed or both fail and both leave the same amplitudes.
pub proof fn lemma_legacy_agrees<P, A, G: Fn(GateMatrix<P>, A, A) -> (A, A)>(
    gates: G,
    cmd: Instruction<P>,
    n: nat,
    old: Seq<A>,
    new: Seq<A>,
    legacy_new: Seq<A>,
    r: Result<(), &'static str>,
    legacy_r: Result<(), &'static str>,
)
    requires
        1 <= n < usize::BITS,
        old.len() == pow2(n),
        functional(matrix_rel(gates, instruction_matrix(cmd))),
        executed(gates, cmd, n, old, new, r),
        legacy_executed(gates, cmd, n, old, legacy_new, legacy_r),
    ensures
        (r is Ok) == (legacy_r is Ok),
        new == legacy_new,
{
    let rel = matrix_rel(gates, instruction_matrix(cmd));
    match cmd {
        Instruction::CNOT { q_c, q_t } => {
            if q_c < n && q_t < n && q_c != q_t {
                lemma_register_strides(n, q_c as nat, q_t as nat);
                lemma_applied_c2q_unique(
                    rel,
                    old,
                    new,
                    legacy_new,
                    qubit_stride(n, q_c as nat) as int,
                    qubit_stride(n, q_t as nat) as int,
                );
            }
        },
        Instruction::CRP { q_c, q_t, .. } => {
            if q_c < n && q_t < n && q_c != q_t {
                lemma_register_strides(n, q_c as nat, q_t as nat);
                lemma_applied_c2q_unique(
                    rel,
                    old,
                    new,
                    legacy_new,
                    qubit_stride(n, q_c as nat) as int,
                    qubit_stride(n, q_t as nat) as int,
                );
            }
        },
        Instruction::SWAP { .. } => {},
        Instruction::QFT => {},
        _ => {
            let q = match cmd {
                Instruction::X { q } => q,
                Instruction::Y { q } => q,
                Instruction::Z { q } => q,
                Instruction::H { q } => q,
                Instruction::S { q } => q,
                Instruction::T { q } => q,
                Instruction::P { q, .. } => q,
                _ => 0,
            };
            if q < n {
                lemma_register_stride(n, q as nat);
                lemma_applied_1q_unique(rel, old, new, legacy_new, qubit_stride(n, q as nat) as int);
            }
        },
    }
}

/// Each instruction applies the named matrix of the same name, with the
/// instruction's own angle, in the index-scanning state too.
pub proof fn lemma_legacy_executed_applies_named_matrix<P, A, G: Fn(GateMatrix<P>, A, A) -> (A, A)>(
    gates: G,
    cmd: Instruction<P>,
    n: nat,
    old: Seq<A>,
    new: Seq<A>,
    r: Result<(), &'static str>,
)
    requires
        legacy_executed(gates, cmd, n, old, new, r),
    ensures
        cmd matches Instruction::X { q } ==> one_qubit_outcome(
            matrix_rel(gates, GateMatrix::X),
            n,
            q as int,
            old,
            new,
            r,
        ),
        cmd matches Instruction::Y { q } ==> one_qubit_outcome(
            matrix_rel(gates, GateMatrix::Y),
            n,
            q as int,
            old,
            new,
            r,
        ),
        cmd matches Instruction::Z { q } ==> one_qubit_outcome(
            matrix_rel(gates, GateMatrix::Z),
            n,
            q as int,
            old,
            new,
            r,
        ),
        cmd matches Instruction::H { q } ==> one_qubit_outcome(
            matrix_rel(gates, GateMatrix::H),
            n,
            q as int,
            old,
            new,
            r,
        ),
        cmd matches Instruction::S { q } ==> one_qubit_outcome(
            matrix_rel(gates, GateMatrix::S),
            n,
            q as int,
            old,
            new,
            r,
        ),
        cmd matches Instruction::T { q } ==> one_qubit_outcome(
            matrix_rel(gates, GateMatrix::T),
            n,
            q as int,
            old,
            new,
            r,
        ),
        cmd matches Instruction::P { q, phi } ==> one_qubit_outcome(
            matrix_rel(gates, GateMatrix::P { phi }),
            n,
            q as int,
            old,
            new,
            r,
        ),
        cmd matches Instruction::CNOT { q_c, q_t } ==> legacy_controlled_outcome(
            matrix_rel(gates, GateMatrix::X),
            n,
            q_c as int,
            q_t as int,
            old,
            new,
            r,
        ),
        cmd matches Instruction::CRP { q_c, q_t, phi } ==> legacy_controlled_outcome(
            matrix_rel(gates, GateMatrix::P { phi }),
            n,
            q_c as int,
            q_t as int,
            old,
            new,
            r,
        ),
{
}

/// A quantum state represented by a statevector, big endian.
pub struct State<A> {
    amplitudes: Vector<A>,
    n: usize,
}

impl<A> View for State<A> {
    type V = Seq<A>;

    /// The probability amplitudes.
    closed spec fn view(&self) -> Seq<A> {
        self.amplitudes@
    }
}

impl<A: Copy> State<A> {
    /// The number of qubits.
    pub closed spec fn qubits(&self) -> nat {
        self.n as nat
    }

    /// A state has at least one qubit, fewer than the width of `usize`, and
    /// `2^qubits` amplitudes.
    pub open spec fn wf(&self) -> bool {
        &&& 1 <= self.qubits() < usize::BITS
        &&& self@.len() == pow2(self.qubits())
    }

    /// Creates a 0 state of `circuit_size` qubits, whose amplitudes are `one`
    /// at index 0 and `zero` everywhere else.
    pub fn zero(circuit_size: usize, zero: A, one: A) -> (r: Result<Self, &'static str>)
        requires
            circuit_size < usize::BITS,
        ensures
            circuit_size == 0 ==> r == Err::<Self, &'static str>("A state with 0 qubits is invalid"),
            circuit_size > 0 ==> r is Ok,
            r matches Ok(s) ==> {
                &&& s.wf()
                &&& s.qubits() == circuit_size
                &&& s@ == Seq::new(pow2(circuit_size as nat), |i: int| if i == 0 { one } else { zero })
            },
    {
        if circuit_size == 0 {
            return Err("A state with 0 qubits is invalid");
        }
        proof {
            crate::bits::lemma_shift_is_pow2(circuit_size);
        }
        let mut amplitudes = Vector::zeros(1usize << circuit_size, zero);
        *amplitudes.get_mut(0) = one;
        let s = Self { amplitudes, n: circuit_size };
        assert(s@ =~= Seq::new(pow2(circuit_size as nat), |i: int| if i == 0 { one } else { zero }));
        Ok(s)
    }

    /// Returns a slice of all the probability amplitudes tracked by the state.
    pub fn amplitudes(&self) -> (s: &[A])
        ensures
            s@ == self@,
    {
        self.amplitudes.as_slice()
    }

    /// Returns the number of qubits that make up the entire state.
    pub fn circuit_size(&self) -> (n: usize)
        ensures
            n == self.qubits(),
    {
        self.n
    }

    /// Folds `step` over the amplitudes where `target` reads `|0⟩`, in index
    /// order, starting from `init`: with `step` adding squared magnitudes,
    /// starting from zero, the probability of reading `|0⟩`.
    pub fn fold_target_zero<S, F: Fn(S, A) -> S>(&self, target: usize, init: S, step: &F) -> (r: S)
        requires
            self.wf(),
            target < self.qubits(),
            total_fold(*step),
        ensures
            folds_to(
                fold_rel(*step),
                init,
                zero_half(self@, qubit_stride(self.qubits(), target as nat) as int),
                r,
            ),
    {
        fold_zero_scan(self.amplitudes.as_slice(), self.n, target, init, step)
    }

    /// Applies a gate instruction to the state; `gates` applies a named gate
    /// matrix to an amplitude pair.
    pub fn execute<P: Copy, G: Fn(GateMatrix<P>, A, A) -> (A, A)>(
        &mut self,
        cmd: Instruction<P>,
        gates: &G,
    ) -> (r: Result<(), &'static str>)
        requires
            old(self).wf(),
            total_gates(*gates),
            crate::api::is_implemented(cmd),
        ensures
            final(self).wf(),
            final(self).qubits() == old(self).qubits(),
            legacy_executed(*gates, cmd, old(self).qubits(), old(self)@, final(self)@, r),
            cmd matches Instruction::X { q } ==> one_qubit_outcome(
                matrix_rel(*gates, GateMatrix::X),
                old(self).qubits(),
                q as int,
                old(self)@,
                final(self)@,
                r,
            ),
            cmd matches Instruction::Y { q } ==> one_qubit_outcome(
                matrix_rel(*gates, GateMatrix::Y),
                old(self).qubits(),
                q as int,
                old(self)@,
                final(self)@,
                r,
            ),
            cmd matches Instruction::Z { q } ==> one_qubit_outcome(
                matrix_rel(*gates, GateMatrix::Z),
                old(self).qubits(),
                q as int,
                old(self)@,
                final(self)@,
                r,
            ),
            cmd matches Instruction::H { q } ==> one_qubit_outcome(
                matrix_rel(*gates, GateMatrix::H),
                old(self).qubits(),
                q as int,
                old(self)@,
                final(self)@,
                r,
            ),
            cmd matches Instruction::S { q } ==> one_qubit_outcome(
                matrix_rel(*gates, GateMatrix::S),
                old(self).qubits(),
                q as int,
                old(self)@,
                final(self)@,
                r,
            ),
            cmd matches Instruction::T { q } ==> one_qubit_outcome(
                matrix_rel(*gates, GateMatrix::T),
                old(self).qubits(),
                q as int,
                old(self)@,
                final(self)@,
                r,
            ),
            cmd matches Instruction::P { q, phi } ==> one_qubit_outcome(
                matrix_rel(*gates, GateMatrix::P { phi }),
                old(self).qubits(),
                q as int,
                old(self)@,
                final(self)@,
                r,
            ),
            cmd matches Instruction::CNOT { q_c, q_t } ==> legacy_controlled_outcome(
                matrix_rel(*gates, GateMatrix::X),
                old(self).qubits(),
                q_c as int,
                q_t as int,
                old(self)@,
                final(self)@,
                r,
            ),
            cmd matches Instruction::CRP { q_c, q_t, phi } ==> legacy_controlled_outcome(
                matrix_rel(*gates, GateMatrix::P { phi }),
                old(self).qubits(),
                q_c as int,
                q_t as int,
                old(self)@,
                final(self)@,
                r,
            ),
    {
        match cmd {
            // One Qubit Gates
            Instruction::X { q } => self.apply_named_1q(q, GateMatrix::X, gates),
            Instruction::Y { q } => self.apply_named_1q(q, GateMatrix::Y, gates),
            Instruction::Z { q } => self.apply_named_1q(q, GateMatrix::Z, gates),
            Instruction::H { q } => self.apply_named_1q(q, GateMatrix::H, gates),
            Instruction::S { q } => self.apply_named_1q(q, GateMatrix::S, gates),
            Instruction::T { q } => self.apply_named_1q(q, GateMatrix::T, gates),
            Instruction::P { q, phi } => self.apply_named_1q(q, GateMatrix::P { phi }, gates),
            // Controlled One Qubit Gates
            Instruction::CNOT { q_c, q_t } => self.apply_named_c2q(q_c, q_t, GateMatrix::X, gates),
            Instruction::CRP { q_c, q_t, phi } => self.apply_named_c2q(
                q_c,
                q_t,
                GateMatrix::P { phi },
                gates,
            ),
            // Swaps and subroutines are excluded by the precondition.
            Instruction::SWAP { .. } | Instruction::QFT => {
                proof {
                    assert(false);
                }
                Ok(())
            },
        }
    }

    /// Applies the named matrix `m` to `target`.
    fn apply_named_1q<P: Copy, G: Fn(GateMatrix<P>, A, A) -> (A, A)>(
        &mut self,
        target: usize,
        m: GateMatrix<P>,
        gates: &G,
    ) -> (r: Result<(), &'static str>)
        requires
            old(self).wf(),
            total_gates(*gates),
        ensures
            final(self).wf(),
            final(self).qubits() == old(self).qubits(),
            one_qubit_outcome(matrix_rel(*gates, m), old(self).qubits(), target as int, old(self)@, final(self)@, r),
    {
        let gate = move |a: A, b: A| -> (out: (A, A))
            requires
                gates_require(gates, m, a, b),
            ensures
                gates_ensure(gates, m, a, b, out),
            { gates(m, a, b) };
        let ghost old_amps = self@;
        let r = self.apply_1q_index(target, &gate);
        proof {
            if r is Ok {
                lemma_applied_1q_weaken(
                    gate_rel(gate),
                    matrix_rel(*gates, m),
                    old_amps,
                    self@,
                    qubit_stride(self.qubits(), target as nat) as int,
                );
            }
        }
        r
    }

    /// Applies the named matrix `m` to `target`, controlled by `control`.
    fn apply_named_c2q<P: Copy, G: Fn(GateMatrix<P>, A, A) -> (A, A)>(
        &mut self,
        control: usize,
        target: usize,
        m: GateMatrix<P>,
        gates: &G,
    ) -> (r: Result<(), &'static str>)
        requires
            old(self).wf(),
            total_gates(*gates),
        ensures
            final(self).wf(),
            final(self).qubits() == old(self).qubits(),
            legacy_controlled_outcome(
                matrix_rel(*gates, m),
                old(self).qubits(),
                control as int,
                target as int,
                old(self)@,
                final(self)@,
                r,
            ),
    {
        let gate = move |a: A, b: A| -> (out: (A, A))
            requires
                gates_require(gates, m, a, b),
            ensures
                gates_ensure(gates, m, a, b, out),
            { gates(m, a, b) };
        let ghost old_amps = self@;
        let r = self.apply_c2q_index(control, target, &gate);
        proof {
            if r is Ok {
                lemma_applied_c2q_weaken(
                    gate_rel(gate),
                    matrix_rel(*gates, m),
                    old_amps,
                    self@,
                    qubit_stride(self.qubits(), control as nat) as int,
                    qubit_stride(self.qubits(), target as nat) as int,
                );
            }
        }
        r
    }

    /// Applies a one-qubit gate to `target`, finding the amplitude pairs by
    /// testing every index.
    pub fn apply_1q_index<F: Fn(A, A) -> (A, A)>(&mut self, target: usize, gate: &F) -> (r: Result<
        (),
        &'static str,
    >)
        requires
            old(self).wf(),
            total_gate(*gate),
        ensures
            final(self).wf(),
            final(self).qubits() == old(self).qubits(),
            one_qubit_outcome(gate_rel(*gate), old(self).qubits(), target as int, old(self)@, final(self)@, r),
    {
        if target >= self.n {
            return Err("Target qubit does not exist");
        }
        apply_1q_index(self.amplitudes.as_mut_slice(), self.n, target, gate);
        Ok(())
    }

    /// Applies a gate to `target` where `control` reads `|1⟩`, finding the
    /// amplitude pairs by testing every index.
    pub fn apply_c2q_index<F: Fn(A, A) -> (A, A)>(
        &mut self,
        control: usize,
        target: usize,
        gate: &F,
    ) -> (r: Result<(), &'static str>)
        requires
            old(self).wf(),
            total_gate(*gate),
        ensures
            final(self).wf(),
            final(self).qubits() == old(self).qubits(),
            legacy_controlled_outcome(
                gate_rel(*gate),
                old(self).qubits(),
                control as int,
                target as int,
                old(self)@,
                final(self)@,
                r,
            ),
    {
        if control == target {
            return Err("Control and target must be distinct qubits");
        } else if control >= self.n || target >= self.n {
            return Err("Control and target must be an existing qubit");
        }
        apply_c2q_index(self.amplitudes.as_mut_slice(), self.n, control, target, gate);
        Ok(())
    }

    /// Collapses the state onto the outcome `outcome_is_one` of measuring
    /// `target`, testing every index: amplitudes where `target` reads the
    /// other value become `zero`, the others are renormalised by `rescale`.
    pub fn collapse<F: Fn(A) -> A>(&mut self, target: usize, outcome_is_one: bool, zero: A, rescale: &F)
        requires
            old(self).wf(),
            target < old(self).qubits(),
            forall|a: A| call_requires(*rescale, (a,)),
        ensures
            final(self).wf(),
            final(self).qubits() == old(self).qubits(),
            collapsed(
                old(self)@,
                final(self)@,
                qubit_stride(old(self).qubits(), target as nat) as int,
                outcome_is_one,
                zero,
                *rescale,
            ),
    {
        collapse_scan(self.amplitudes.as_mut_slice(), self.n, target, outcome_is_one, zero, rescale);
    }
}

} // verus!
