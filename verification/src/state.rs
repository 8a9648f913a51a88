//! A quantum state represented by a statevector.

use vstd::prelude::*;
use vstd::arithmetic::power2::pow2;

use crate::api::{GateMatrix, Instruction};
use crate::bits::{lemma_register_stride, lemma_strides_nest, qubit_stride, stride};
use crate::kernels::generic::{
    applied_1q, applied_c2q, apply_1q_strided, apply_c2q_strided, gate_rel, involutive,
    lemma_1q_twice_restores, lemma_applied_1q_weaken, lemma_applied_c2q_weaken,
    lemma_c2q_twice_restores, total_gate, valid_strides,
};
use crate::kernels::measure::{
    collapse_strided, collapsed, fold_rel, fold_zero_strided, folds_to, total_fold, zero_half,
};
use crate::kernels::scan::{collapse_scan, fold_zero_scan};
use crate::linalg::Vector;

verus! {

/// The relation between an amplitude pair and the updated pair that `gates`
/// may return for the named matrix `m`.
pub open spec fn matrix_rel<P, A, G: Fn(GateMatrix<P>, A, A) -> (A, A)>(
    gates: G,
    m: GateMatrix<P>,
) -> spec_fn(A, A, A, A) -> bool {
    |a: A, b: A, x: A, y: A| call_ensures(gates, (m, a, b), (x, y))
}

/// `gates` may be applied to any named matrix and amplitude pair.
pub open spec fn total_gates<P, A, G: Fn(GateMatrix<P>, A, A) -> (A, A)>(gates: G) -> bool {
    forall|m: GateMatrix<P>, a: A, b: A| call_requires(gates, (m, a, b))
}

/// `gates` may be applied to the named matrix `m` and the pair `(a, b)`.
pub open spec fn gates_require<P, A, G: Fn(GateMatrix<P>, A, A) -> (A, A)>(
    gates: &G,
    m: GateMatrix<P>,
    a: A,
    b: A,
) -> bool {
    call_requires(*gates, (m, a, b))
}

/// `gates` may return `out` for the named matrix `m` and the pair `(a, b)`.
pub open spec fn gates_ensure<P, A, G: Fn(GateMatrix<P>, A, A) -> (A, A)>(
    gates: &G,
    m: GateMatrix<P>,
    a: A,
    b: A,
    out: (A, A),
) -> bool {
    call_ensures(*gates, (m, a, b), out)
}

/// What applying a one-qubit gate under `rel` to `target` of an `n`-qubit
/// state `old` yields: `new` and the result `r`.
pub open spec fn one_qubit_outcome<A>(
    rel: spec_fn(A, A, A, A) -> bool,
    n: nat,
    target: int,
    old: Seq<A>,
    new: Seq<A>,
    r: Result<(), &'static str>,
) -> bool {
    if 0 <= target < n {
        r is Ok && applied_1q(rel, old, new, qubit_stride(n, target as nat) as int)
    } else {
        r == Err::<(), &'static str>("Target qubit does not exist") && new == old
    }
}

/// What applying a gate under `rel` to `target`, controlled by `control`,
/// of an `n`-qubit state `old` yields: `new` and the result `r`.
pub open spec fn controlled_outcome<A>(
    rel: spec_fn(A, A, A, A) -> bool,
    n: nat,
    control: int,
    target: int,
    old: Seq<A>,
    new: Seq<A>,
    r: Result<(), &'static str>,
) -> bool {
    if !(0 <= control < n) || !(0 <= target < n) {
        r == Err::<(), &'static str>("Control and target must be existing qubits") && new == old
    } else if control == target {
        r == Err::<(), &'static str>("Control and target must be distinct qubits") && new == old
    } else {
        r is Ok && applied_c2q(
            rel,
            old,
            new,
            qubit_stride(n, control as nat) as int,
            qubit_stride(n, target as nat) as int,
        )
    }
}

/// What executing `cmd` on an `n`-qubit state `old`, with named matrices
/// applied by `gates`, yields: `new` and the result `r`.
pub open spec fn executed<P, A, G: Fn(GateMatrix<P>, A, A) -> (A, A)>(
    gates: G,
    cmd: Instruction<P>,
    n: nat,
    old: Seq<A>,
    new: Seq<A>,
    r: Result<(), &'static str>,
) -> bool {
    match cmd {
        Instruction::X { q } => one_qubit_outcome(matrix_rel(gates, GateMatrix::X), n, q as int, old, new, r),
        Instruction::Y { q } => one_qubit_outcome(matrix_rel(gates, GateMatrix::Y), n, q as int, old, new, r),
        Instruction::Z { q } => one_qubit_outcome(matrix_rel(gates, GateMatrix::Z), n, q as int, old, new, r),
        Instruction::H { q } => one_qubit_outcome(matrix_rel(gates, GateMatrix::H), n, q as int, old, new, r),
        Instruction::S { q } => one_qubit_outcome(matrix_rel(gates, GateMatrix::S), n, q as int, old, new, r),
        Instruction::T { q } => one_qubit_outcome(matrix_rel(gates, GateMatrix::T), n, q as int, old, new, r),
        Instruction::P { q, phi } => one_qubit_outcome(
            matrix_rel(gates, GateMatrix::P { phi }),
            n,
            q as int,
            old,
            new,
            r,
        ),
        Instruction::CNOT { q_c, q_t } => controlled_outcome(
            matrix_rel(gates, GateMatrix::X),
            n,
            q_c as int,
            q_t as int,
            old,
            new,
            r,
        ),
        Instruction::CRP { q_c, q_t, phi } => controlled_outcome(
            matrix_rel(gates, GateMatrix::P { phi }),
            n,
            q_c as int,
            q_t as int,
            old,
            new,
            r,
        ),
        Instruction::SWAP { .. } => false,
        Instruction::QFT => false,
    }
}

/// The named matrix that an instruction applies.
pub open spec fn instruction_matrix<P>(cmd: Instruction<P>) -> GateMatrix<P> {
    match cmd {
        Instruction::X { .. } => GateMatrix::X,
        Instruction::Y { .. } => GateMatrix::Y,
        Instruction::Z { .. } => GateMatrix::Z,
        Instruction::H { .. } => GateMatrix::H,
        Instruction::S { .. } => GateMatrix::S,
        Instruction::T { .. } => GateMatrix::T,
        Instruction::P { phi, .. } => GateMatrix::P { phi },
        Instruction::CNOT { .. } => GateMatrix::X,
        Instruction::CRP { phi, .. } => GateMatrix::P { phi },
        Instruction::SWAP { .. } => GateMatrix::X,
        Instruction::QFT => GateMatrix::X,
    }
}

/// The strides of two distinct qubits of a register are valid kernel strides.
pub proof fn lemma_register_strides(n: nat, control: nat, target: nat)
    requires
        control < n,
        target < n < usize::BITS,
        control != target,
    ensures
        valid_strides(pow2(n) as int, qubit_stride(n, control) as int, qubit_stride(n, target) as int),
{
    lemma_register_stride(n, control);
    lemma_register_stride(n, target);
    if control < target {
        lemma_strides_nest(n, control, target);
    } else {
        lemma_strides_nest(n, target, control);
    }
}

/// Executing an instruction whose matrix undoes itself twice on a state of
/// `n` qubits gives back the state: a second CNOT undoes the first.
pub proof fn lemma_execute_twice_restores<P, A, G: Fn(GateMatrix<P>, A, A) -> (A, A)>(
    gates: G,
    cmd: Instruction<P>,
    n: nat,
    s0: Seq<A>,
    s1: Seq<A>,
    s2: Seq<A>,
    r1: Result<(), &'static str>,
    r2: Result<(), &'static str>,
)
    requires
        1 <= n < usize::BITS,
        s0.len() == pow2(n),
        involutive(matrix_rel(gates, instruction_matrix(cmd))),
        executed(gates, cmd, n, s0, s1, r1),
        executed(gates, cmd, n, s1, s2, r2),
    ensures
        s2 == s0,
{
    let rel = matrix_rel(gates, instruction_matrix(cmd));
    match cmd {
        Instruction::CNOT { q_c, q_t } => {
            if q_c < n && q_t < n && q_c != q_t {
                lemma_register_strides(n, q_c as nat, q_t as nat);
                lemma_c2q_twice_restores(
                    rel,
                    s0,
                    s1,
                    s2,
                    qubit_stride(n, q_c as nat) as int,
                    qubit_stride(n, q_t as nat) as int,
                );
            }
        },
        Instruction::CRP { q_c, q_t, .. } => {
            if q_c < n && q_t < n && q_c != q_t {
                lemma_register_strides(n, q_c as nat, q_t as nat);
                lemma_c2q_twice_restores(
                    rel,
                    s0,
                    s1,
                    s2,
                    qubit_stride(n, q_c as nat) as int,
                    qubit_stride(n, q_t as nat) as int,
                );
            }
        },
        Instruction::SWAP { .. } => {},
        Instruction::QFT => {},
        _ => {
            let q = match cmd {
                Instruction::X { q } => q,
                Instruction::Y { q } => q,
                Instruction::Z { q } => q,
                Instruction::H { q } => q,
                Instruction::S { q } => q,
                Instruction::T { q } => q,
                Instruction::P { q, .. } => q,
                _ => 0,
            };
            if q < n {
                lemma_register_stride(n, q as nat);
                lemma_1q_twice_restores(rel, s0, s1, s2, qubit_stride(n, q as nat) as int);
            }
        },
    }
}

/// Each instruction applies the named matrix of the same name, with the
/// instruction's own angle: a one-qubit instruction to every pair of its
/// qubit, a controlled one to every pair of its target where its control
/// reads `1`, leaving the rest unchanged.
pub proof fn lemma_executed_applies_named_matrix<P, A, G: Fn(GateMatrix<P>, A, A) -> (A, A)>(
    gates: G,
    cmd: Instruction<P>,
    n: nat,
    old: Seq<A>,
    new: Seq<A>,
    r: Result<(), &'static str>,
)
    requires
        executed(gates, cmd, n, old, new, r),
    ensures
        cmd matches Instruction::X { q } ==> one_qubit_outcome(
            matrix_rel(gates, GateMatrix::X),
            n,
            q as int,
            old,
            new,
            r,
        ),
        cmd matches Instruction::Y { q } ==> one_qubit_outcome(
            matrix_rel(gates, GateMatrix::Y),
            n,
            q as int,
            old,
            new,
            r,
        ),
        cmd matches Instruction::Z { q } ==> one_qubit_outcome(
            matrix_rel(gates, GateMatrix::Z),
            n,
            q as int,
            old,
            new,
            r,
        ),
        cmd matches Instruction::H { q } ==> one_qubit_outcome(
            matrix_rel(gates, GateMatrix::H),
            n,
            q as int,
            old,
            new,
            r,
        ),
        cmd matches Instruction::S { q } ==> one_qubit_outcome(
            matrix_rel(gates, GateMatrix::S),
            n,
            q as int,
            old,
            new,
            r,
        ),
        cmd matches Instruction::T { q } ==> one_qubit_outcome(
            matrix_rel(gates, GateMatrix::T),
            n,
            q as int,
            old,
            new,
            r,
        ),
        cmd matches Instruction::P { q, phi } ==> one_qubit_outcome(
            matrix_rel(gates, GateMatrix::P { phi }),
            n,
            q as int,
            old,
            new,
            r,
        ),
        cmd matches Instruction::CNOT { q_c, q_t } ==> controlled_outcome(
            matrix_rel(gates, GateMatrix::X),
            n,
            q_c as int,
            q_t as int,
            old,
            new,
            r,
        ),
        cmd matches Instruction::CRP { q_c, q_t, phi } ==> controlled_outcome(
            matrix_rel(gates, GateMatrix::P { phi }),
            n,
            q_c as int,
            q_t as int,
            old,
            new,
            r,
        ),
        cmd matches Instruction::P { phi, .. } ==> (instruction_matrix(cmd) == GateMatrix::P { phi }),
        cmd matches Instruction::CRP { phi, .. } ==> (instruction_matrix(cmd) == GateMatrix::P { phi }),
        cmd matches Instruction::CNOT { .. } ==> (instruction_matrix(cmd) is X),
        cmd matches Instruction::X { .. } ==> (instruction_matrix(cmd) is X),
        cmd matches Instruction::Y { .. } ==> (instruction_matrix(cmd) is Y),
        cmd matches Instruction::Z { .. } ==> (instruction_matrix(cmd) is Z),
        cmd matches Instruction::H { .. } ==> (instruction_matrix(cmd) is H),
        cmd matches Instruction::S { .. } ==> (instruction_matrix(cmd) is S),
        cmd matches Instruction::T { .. } ==> (instruction_matrix(cmd) is T),
{
}

/// A quantum state represented by a statevector.
///
/// Amplitudes use big-endian qubit ordering, with qubit 0 corresponding
/// to the most significant bit of the amplitude index.
pub struct State<A> {
    amplitudes: Vector<A>,
    n: usize,
}

impl<A> View for State<A> {
    type V = Seq<A>;

    /// The probability amplitudes.
    closed spec fn view(&self) -> Seq<A> {
        self.amplitudes@
    }
}

impl<A: Copy> State<A> {
    /// The number of qubits.
    pub closed spec fn qubits(&self) -> nat {
        self.n as nat
    }

    /// A state has at least one qubit, fewer than the width of `usize`, and
    /// `2^qubits` amplitudes.
    pub open spec fn wf(&self) -> bool {
        &&& 1 <= self.qubits() < usize::BITS
        &&& self@.len() == pow2(self.qubits())
    }

    // Constructors

    /// Creates the `|0...0⟩` state for `num_qubits` qubits, whose amplitudes
    /// are `one` at index 0 and `zero` everywhere else.
    ///
    /// # Errors
    ///
    /// Returns an error if `num_qubits` is `0`.
    pub fn zero(num_qubits: usize, zero: A, one: A) -> (r: Result<Self, &'static str>)
        requires
            num_qubits < usize::BITS,
        ensures
            num_qubits == 0 ==> r == Err::<Self, &'static str>("A state with 0 qubits is invalid"),
            num_qubits > 0 ==> r is Ok,
            r matches Ok(s) ==> {
                &&& s.wf()
                &&& s.qubits() == num_qubits
                &&& s@ == Seq::new(pow2(num_qubits as nat), |i: int| if i == 0 { one } else { zero })
            },
    {
        if num_qubits == 0 {
            return Err("A state with 0 qubits is invalid");
        }
        proof {
            crate::bits::lemma_shift_is_pow2(num_qubits);
        }
        let mut amplitudes = Vector::zeros(1usize << num_qubits, zero);
        *amplitudes.get_mut(0) = one;
        let s = Self { amplitudes, n: num_qubits };
        assert(s@ =~= Seq::new(pow2(num_qubits as nat), |i: int| if i == 0 { one } else { zero }));
        Ok(s)
    }

    // Accessors

    /// Returns a slice containing the state's probability amplitudes.
    pub fn amplitudes(&self) -> (s: &[A])
        ensures
            s@ == self@,
    {
        self.amplitudes.as_slice()
    }

    /// Returns the number of qubits in the state.
    pub fn num_qubits(&self) -> (n: usize)
        ensures
            n == self.qubits(),
    {
        self.n
    }

    /// Folds `step` over the amplitudes where `target` reads `|0⟩`, in
    /// index order, starting from `init`. With `step` adding squared
    /// magnitudes, starting from zero, this is the probability of measuring
    /// `target` as `|0⟩`.
    pub fn fold_target_zero<S, F: Fn(S, A) -> S>(
        &self,
        target: usize,
        init: S,
        step: &F,
    ) -> (r: Result<S, &'static str>)
        requires
            self.wf(),
            total_fold(*step),
        ensures
            target >= self.qubits() ==> r == Err::<S, &'static str>("Target qubit does not exist"),
            target < self.qubits() ==> (r matches Ok(s) && folds_to(
                fold_rel(*step),
                init,
                zero_half(self@, qubit_stride(self.qubits(), target as nat) as int),
                s,
            )),
    {
        let num_q = self.n;

        if target >= num_q {
            return Err("Target qubit does not exist");
        }

        proof {
            lemma_register_stride(num_q as nat, target as nat);
        }
        let stride = stride(num_q, target);
        Ok(fold_zero_strided(self.amplitudes.as_slice(), stride, init, step))
    }

    /// Folds `step` over the amplitudes where `target` reads `|0⟩`, in
    /// index order, starting from `init`, finding them by testing every
    /// index.
    pub fn legacy_fold_target_zero<S, F: Fn(S, A) -> S>(
        &self,
        target: usize,
        init: S,
        step: &F,
    ) -> (r: Result<S, &'static str>)
        requires
            self.wf(),
            total_fold(*step),
        ensures
            target >= self.qubits() ==> r == Err::<S, &'static str>("Target qubit does not exist"),
            target < self.qubits() ==> (r matches Ok(s) && folds_to(
                fold_rel(*step),
                init,
                zero_half(self@, qubit_stride(self.qubits(), target as nat) as int),
                s,
            )),
    {
        if target >= self.num_qubits() {
            return Err("Target qubit does not exist");
        }
        Ok(fold_zero_scan(self.amplitudes.as_slice(), self.n, target, init, step))
    }

    // Instruction routing

    /// Applies an [`Instruction`] to the state, updating its amplitudes as
    /// required; `gates` applies a named gate matrix to an amplitude pair.
    ///
    /// Returns an error if the instruction references an invalid qubit or
    /// otherwise cannot be applied to the state.
    pub fn execute<P: Copy, G: Fn(GateMatrix<P>, A, A) -> (A, A)>(
        &mut self,
        cmd: Instruction<P>,
        gates: &G,
    ) -> (r: Result<(), &'static str>)
        requires
            old(self).wf(),
            total_gates(*gates),
            crate::api::is_implemented(cmd),
        ensures
            final(self).wf(),
            final(self).qubits() == old(self).qubits(),
            executed(*gates, cmd, old(self).qubits(), old(self)@, final(self)@, r),
            cmd matches Instruction::X { q } ==> one_qubit_outcome(
                matrix_rel(*gates, GateMatrix::X),
                old(self).qubits(),
                q as int,
                old(self)@,
                final(self)@,
                r,
            ),
            cmd matches Instruction::Y { q } ==> one_qubit_outcome(
                matrix_rel(*gates, GateMatrix::Y),
                old(self).qubits(),
                q as int,
                old(self)@,
                final(self)@,
                r,
            ),
            cmd matches Instruction::Z { q } ==> one_qubit_outcome(
                matrix_rel(*gates, GateMatrix::Z),
                old(self).qubits(),
                q as int,
                old(self)@,
                final(self)@,
                r,
            ),
            cmd matches Instruction::H { q } ==> one_qubit_outcome(
                matrix_rel(*gates, GateMatrix::H),
                old(self).qubits(),
                q as int,
                old(self)@,
                final(self)@,
                r,
            ),
            cmd matches Instruction::S { q } ==> one_qubit_outcome(
                matrix_rel(*gates, GateMatrix::S),
                old(self).qubits(),
                q as int,
                old(self)@,
                final(self)@,
                r,
            ),
            cmd matches Instruction::T { q } ==> one_qubit_outcome(
                matrix_rel(*gates, GateMatrix::T),
                old(self).qubits(),
                q as int,
                old(self)@,
                final(self)@,
                r,
            ),
            cmd matches Instruction::P { q, phi } ==> one_qubit_outcome(
                matrix_rel(*gates, GateMatrix::P { phi }),
                old(self).qubits(),
                q as int,
                old(self)@,
                final(self)@,
                r,
            ),
            cmd matches Instruction::CNOT { q_c, q_t } ==> controlled_outcome(
                matrix_rel(*gates, GateMatrix::X),
                old(self).qubits(),
                q_c as int,
                q_t as int,
                old(self)@,
                final(self)@,
                r,
            ),
            cmd matches Instruction::CRP { q_c, q_t, phi } ==> controlled_outcome(
                matrix_rel(*gates, GateMatrix::P { phi }),
                old(self).qubits(),
                q_c as int,
                q_t as int,
                old(self)@,
                final(self)@,
                r,
            ),
    {
        match cmd {
            // One Qubit Gates
            Instruction::X { q } => self.apply_named_1q(q, GateMatrix::X, gates),
            Instruction::Y { q } => self.apply_named_1q(q, GateMatrix::Y, gates),
            Instruction::Z { q } => self.apply_named_1q(q, GateMatrix::Z, gates),
            Instruction::H { q } => self.apply_named_1q(q, GateMatrix::H, gates),
            Instruction::S { q } => self.apply_named_1q(q, GateMatrix::S, gates),
            Instruction::T { q } => self.apply_named_1q(q, GateMatrix::T, gates),
            Instruction::P { q, phi } => self.apply_named_1q(q, GateMatrix::P { phi }, gates),
            // Controlled One Qubit Gates
            Instruction::CNOT { q_c, q_t } => self.apply_named_c2q(q_c, q_t, GateMatrix::X, gates),
            Instruction::CRP { q_c, q_t, phi } => self.apply_named_c2q(
                q_c,
                q_t,
                GateMatrix::P { phi },
                gates,
            ),
            // Swaps and subroutines are excluded by the precondition.
            Instruction::SWAP { .. } | Instruction::QFT => {
                proof {
                    assert(false);
                }
                Ok(())
            },
        }
    }

    /// Applies the named matrix `m` to `target`.
    fn apply_named_1q<P: Copy, G: Fn(GateMatrix<P>, A, A) -> (A, A)>(
        &mut self,
        target: usize,
        m: GateMatrix<P>,
        gates: &G,
    ) -> (r: Result<(), &'static str>)
        requires
            old(self).wf(),
            total_gates(*gates),
        ensures
            final(self).wf(),
            final(self).qubits() == old(self).qubits(),
            one_qubit_outcome(matrix_rel(*gates, m), old(self).qubits(), target as int, old(self)@, final(self)@, r),
    {
        let gate = move |a: A, b: A| -> (out: (A, A))
            requires
                gates_require(gates, m, a, b),
            ensures
                gates_ensure(gates, m, a, b, out),
            { gates(m, a, b) };
        let ghost old_amps = self@;
        let r = self.apply_1q(target, &gate);
        proof {
            if r is Ok {
                lemma_applied_1q_weaken(
                    gate_rel(gate),
                    matrix_rel(*gates, m),
                    old_amps,
                    self@,
                    qubit_stride(self.qubits(), target as nat) as int,
                );
            }
        }
        r
    }

    /// Applies the named matrix `m` to `target`, controlled by `control`.
    fn apply_named_c2q<P: Copy, G: Fn(GateMatrix<P>, A, A) -> (A, A)>(
        &mut self,
        control: usize,
        target: usize,
        m: GateMatrix<P>,
        gates: &G,
    ) -> (r: Result<(), &'static str>)
        requires
            old(self).wf(),
            total_gates(*gates),
        ensures
            final(self).wf(),
            final(self).qubits() == old(self).qubits(),
            controlled_outcome(
                matrix_rel(*gates, m),
                old(self).qubits(),
                control as int,
                target as int,
                old(self)@,
                final(self)@,
                r,
            ),
    {
        let gate = move |a: A, b: A| -> (out: (A, A))
            requires
                gates_require(gates, m, a, b),
            ensures
                gates_ensure(gates, m, a, b, out),
            { gates(m, a, b) };
        let ghost old_amps = self@;
        let r = self.apply_c2q(control, target, &gate);
        proof {
            if r is Ok {
                lemma_applied_c2q_weaken(
                    gate_rel(gate),
                    matrix_rel(*gates, m),
                    old_amps,
                    self@,
                    qubit_stride(self.qubits(), control as nat) as int,
                    qubit_stride(self.qubits(), target as nat) as int,
                );
            }
        }
        r
    }

    // Operations

    /// Collapses the state onto the outcome `outcome_is_one` of measuring
    /// `target` in the computational basis: amplitudes where `target` reads
    /// the other value become `zero`, the others are renormalised by
    /// `rescale`.
    pub fn collapse<F: Fn(A) -> A>(
        &mut self,
        target: usize,
        outcome_is_one: bool,
        zero: A,
        rescale: &F,
    ) -> (r: Result<(), &'static str>)
        requires
            old(self).wf(),
            forall|a: A| call_requires(*rescale, (a,)),
        ensures
            final(self).wf(),
            final(self).qubits() == old(self).qubits(),
            target >= old(self).qubits() ==> r == Err::<(), &'static str>("Target qubit does not exist")
                && final(self)@ == old(self)@,
            target < old(self).qubits() ==> r is Ok && collapsed(
                old(self)@,
                final(self)@,
                qubit_stride(old(self).qubits(), target as nat) as int,
                outcome_is_one,
                zero,
                *rescale,
            ),
    {
        let num_qubits = self.n;

        if target >= num_qubits {
            return Err("Target qubit does not exist");
        }

        proof {
            lemma_register_stride(num_qubits as nat, target as nat);
        }
        let stride = stride(num_qubits, target);
        collapse_strided(self.amplitudes.as_mut_slice(), stride, outcome_is_one, zero, rescale);
        Ok(())
    }

    /// Collapses the state onto the outcome `outcome_is_one` of measuring
    /// `target`, testing every index: amplitudes where `target` reads the
    /// other value become `zero`, the others are renormalised by `rescale`.
    pub fn legacy_collapse<F: Fn(A) -> A>(
        &mut self,
        target: usize,
        outcome_is_one: bool,
        zero: A,
        rescale: &F,
    ) -> (r: Result<(), &'static str>)
        requires
            old(self).wf(),
            forall|a: A| call_requires(*rescale, (a,)),
        ensures
            final(self).wf(),
            final(self).qubits() == old(self).qubits(),
            target >= old(self).qubits() ==> r == Err::<(), &'static str>("Target qubit does not exist")
                && final(self)@ == old(self)@,
            target < old(self).qubits() ==> r is Ok && collapsed(
                old(self)@,
                final(self)@,
                qubit_stride(old(self).qubits(), target as nat) as int,
                outcome_is_one,
                zero,
                *rescale,
            ),
    {
        let num_qubits = self.n;

        if target >= num_qubits {
            return Err("Target qubit does not exist");
        }

        collapse_scan(self.amplitudes.as_mut_slice(), num_qubits, target, outcome_is_one, zero, rescale);
        Ok(())
    }

    // Gate kernels

    /// Applies a single-qubit gate to all amplitude pairs associated with
    /// `target`.
    pub fn apply_1q<F: Fn(A, A) -> (A, A)>(&mut self, target: usize, gate: &F) -> (r: Result<
        (),
        &'static str,
    >)
        requires
            old(self).wf(),
            total_gate(*gate),
        ensures
            final(self).wf(),
            final(self).qubits() == old(self).qubits(),
            one_qubit_outcome(gate_rel(*gate), old(self).qubits(), target as int, old(self)@, final(self)@, r),
    {
        let num_q = self.n;

        if target >= num_q {
            return Err("Target qubit does not exist");
        }

        proof {
            lemma_register_stride(num_q as nat, target as nat);
        }
        let stride = stride(num_q, target);
        apply_1q_strided(self.amplitudes.as_mut_slice(), stride, gate);
        Ok(())
    }

    /// Applies a controlled two-qubit gate to amplitude pairs associated with
    /// `target`, where the operation is applied only when `control` is in the
    /// `|1⟩` state.
    pub fn apply_c2q<F: Fn(A, A) -> (A, A)>(
        &mut self,
        control: usize,
        target: usize,
        gate: &F,
    ) -> (r: Result<(), &'static str>)
        requires
            old(self).wf(),
            total_gate(*gate),
        ensures
            final(self).wf(),
            final(self).qubits() == old(self).qubits(),
            controlled_outcome(
                gate_rel(*gate),
                old(self).qubits(),
                control as int,
                target as int,
                old(self)@,
                final(self)@,
                r,
            ),
    {
        let num_q = self.n;

        if control >= num_q || target >= num_q {
            return Err("Control and target must be existing qubits");
        }

        if control == target {
            return Err("Control and target must be distinct qubits");
        }

        proof {
            lemma_register_stride(num_q as nat, control as nat);
            lemma_register_stride(num_q as nat, target as nat);
            if control < target {
                lemma_strides_nest(num_q as nat, control as nat, target as nat);
            } else {
                lemma_strides_nest(num_q as nat, target as nat, control as nat);
            }
        }
        let c_stride = stride(num_q, control);
        let t_stride = stride(num_q, target);
        apply_c2q_strided(self.amplitudes.as_mut_slice(), c_stride, t_stride, gate);
        Ok(())
    }
}

} // verus!
