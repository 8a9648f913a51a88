//! Index-scanning kernels.
//!
//! These kernels visit every amplitude index and test the qubits at each
//! with [`index_is_zero`], where the strided kernels step over whole blocks.
//! They act on the same pairs and amplitudes as the strided kernels.

use vstd::prelude::*;
use vstd::arithmetic::div_mod::{lemma_fundamental_div_mod, lemma_fundamental_div_mod_converse};
use vstd::arithmetic::mul::lemma_mul_is_commutative;
use vstd::arithmetic::power2::pow2;

use crate::bits::{
    clear_at, index_is_zero, lemma_partner_in_block, lemma_register_stride, lemma_strides_nest,
    qubit_stride, stride,
};
use crate::kernels::generic::{
    apply_pair, applied_1q, applied_c2q, c2q_selection, done_below, gate_rel, lemma_done_all,
    lemma_done_skip, lemma_done_step, total_gate,
};
use crate::kernels::measure::{
    collapsed, collapsed_at, fold_chain, fold_rel, folds_to, lemma_chain_step, low_index, total_fold,
    zero_half,
};

verus! {

/// The low indices of the pairs that a one-qubit gate acts on.
pub open spec fn clear_selection(t_stride: int) -> spec_fn(int) -> bool {
    |i: int| clear_at(i, t_stride)
}

/// `amps` is the state vector of a register of `num_qubits` qubits, below
/// the width of `usize`, in which `target` is a qubit.
pub open spec fn register(len: int, num_qubits: nat, target: nat) -> bool {
    &&& target < num_qubits < usize::BITS
    &&& len == pow2(num_qubits)
}

/// Applies `gate` to every amplitude pair whose indices differ only at
/// `target`, found by testing every index.
pub fn apply_1q_index<A: Copy, F: Fn(A, A) -> (A, A)>(
    amps: &mut [A],
    num_qubits: usize,
    target: usize,
    gate: &F,
)
    requires
        register(old(amps)@.len() as int, num_qubits as nat, target as nat),
        total_gate(*gate),
    ensures
        applied_1q(
            gate_rel(*gate),
            old(amps)@,
            final(amps)@,
            qubit_stride(num_qubits as nat, target as nat) as int,
        ),
{
    let ghost old_amps = amps@;
    proof {
        lemma_register_stride(num_qubits as nat, target as nat);
    }
    let t_stride = stride(num_qubits, target);
    let ghost t = t_stride as int;
    let ghost sel = clear_selection(t);
    let len = amps.len();
    let mut index_low: usize = 0;
    while index_low < len
        invariant
            len == amps@.len() == old_amps.len(),
            old_amps == old(amps)@,
            register(len as int, num_qubits as nat, target as nat),
            t == t_stride == qubit_stride(num_qubits as nat, target as nat),
            t > 0,
            len as int % (2 * t) == 0,
            sel == clear_selection(t),
            total_gate(*gate),
            index_low <= len,
            done_below(gate_rel(*gate), old_amps, amps@, sel, t, index_low as int),
        decreases len - index_low,
    {
        if index_is_zero(num_qubits, target, index_low) {
            // Find index where the bitstring only differs on `target`.
            proof {
                lemma_partner_in_block(index_low as int, t, len as int);
            }
            let ghost before = amps@;
            apply_pair(amps, index_low, t_stride, gate);
            proof {
                lemma_done_step(gate_rel(*gate), old_amps, before, amps@, sel, t, index_low as int);
            }
        } else {
            proof {
                lemma_done_skip(gate_rel(*gate), old_amps, amps@, sel, t, index_low as int, index_low + 1);
            }
        }
        index_low = index_low + 1;
    }
}

/// Applies `gate` to every amplitude pair whose indices differ only at
/// `target` and where `control` reads `|1⟩`, found by testing every index.
pub fn apply_c2q_index<A: Copy, F: Fn(A, A) -> (A, A)>(
    amps: &mut [A],
    num_qubits: usize,
    control: usize,
    target: usize,
    gate: &F,
)
    requires
        register(old(amps)@.len() as int, num_qubits as nat, target as nat),
        control < num_qubits,
        control != target,
        total_gate(*gate),
    ensures
        applied_c2q(
            gate_rel(*gate),
            old(amps)@,
            final(amps)@,
            qubit_stride(num_qubits as nat, control as nat) as int,
            qubit_stride(num_qubits as nat, target as nat) as int,
        ),
{
    let ghost old_amps = amps@;
    proof {
        lemma_register_stride(num_qubits as nat, target as nat);
        lemma_register_stride(num_qubits as nat, control as nat);
        if control < target {
            lemma_strides_nest(num_qubits as nat, control as nat, target as nat);
        } else {
            lemma_strides_nest(num_qubits as nat, target as nat, control as nat);
        }
    }
    let t_stride = stride(num_qubits, target);
    let ghost t = t_stride as int;
    let ghost c = qubit_stride(num_qubits as nat, control as nat) as int;
    let ghost sel = c2q_selection(c, t);
    let len = amps.len();
    let mut index_low: usize = 0;
    while index_low < len
        invariant
            len == amps@.len() == old_amps.len(),
            old_amps == old(amps)@,
            register(len as int, num_qubits as nat, target as nat),
            control < num_qubits,
            t == t_stride == qubit_stride(num_qubits as nat, target as nat),
            c == qubit_stride(num_qubits as nat, control as nat),
            crate::kernels::generic::valid_strides(len as int, c, t),
            sel == c2q_selection(c, t),
            total_gate(*gate),
            index_low <= len,
            done_below(gate_rel(*gate), old_amps, amps@, sel, t, index_low as int),
        decreases len - index_low,
    {
        // If control == 1 and target == 0
        if !index_is_zero(num_qubits, control, index_low) && index_is_zero(
            num_qubits,
            target,
            index_low,
        ) {
            proof {
                lemma_partner_in_block(index_low as int, t, len as int);
            }
            let ghost before = amps@;
            apply_pair(amps, index_low, t_stride, gate);
            proof {
                lemma_done_step(gate_rel(*gate), old_amps, before, amps@, sel, t, index_low as int);
            }
        } else {
            proof {
                lemma_done_skip(gate_rel(*gate), old_amps, amps@, sel, t, index_low as int, index_low + 1);
            }
        }
        index_low = index_low + 1;
    }
    proof {
        lemma_done_all(gate_rel(*gate), old_amps, amps@, c, t);
    }
}

/// How many indices below `i` have the qubit of stride `stride` reading `0`.
pub open spec fn count_clear_below(i: int, stride: int) -> int {
    let r = i % (2 * stride);
    (i / (2 * stride)) * stride + if r < stride { r } else { stride }
}

/// Counting one more index, and where the qubit reads `0` there, that index
/// is the next one of the amplitudes where it reads `0`.
proof fn lemma_count_step(i: int, stride: int)
    requires
        i >= 0,
        stride > 0,
    ensures
        clear_at(i, stride) ==> count_clear_below(i + 1, stride) == count_clear_below(i, stride) + 1
            && low_index(count_clear_below(i, stride), stride) == i,
        !clear_at(i, stride) ==> count_clear_below(i + 1, stride) == count_clear_below(i, stride),
        count_clear_below(i, stride) >= 0,
{
    let m = 2 * stride;
    lemma_fundamental_div_mod(i, m);
    let q = i / m;
    let r = i % m;
    assert(0 <= r < m);
    assert(q >= 0) by {
        vstd::arithmetic::div_mod::lemma_div_pos_is_pos(i, m);
    }
    lemma_mul_is_commutative(m, q);
    if r + 1 < m {
        lemma_fundamental_div_mod_converse(i + 1, m, q, r + 1);
    } else {
        assert(i + 1 == (q + 1) * m) by (nonlinear_arith)
            requires
                i == q * m + r,
                r + 1 == m,
        ;
        lemma_fundamental_div_mod_converse(i + 1, m, q + 1, 0);
        assert((q + 1) * stride == q * stride + stride) by (nonlinear_arith);
    }
    assert(q * stride >= 0) by (nonlinear_arith)
        requires
            q >= 0,
            stride > 0,
    ;
    if r < stride {
        let k = q * stride + r;
        lemma_fundamental_div_mod_converse(k, stride, q, r);
        assert(low_index(k, stride) == q * m + r) by {
            lemma_mul_is_commutative(q, m);
        }
    }
}

/// Over a whole number of blocks, half the indices have the qubit reading `0`.
proof fn lemma_count_all(len: int, stride: int)
    requires
        stride > 0,
        len >= 0,
        len % (2 * stride) == 0,
    ensures
        count_clear_below(len, stride) == len / 2,
{
    let m = 2 * stride;
    lemma_fundamental_div_mod(len, m);
    let q = len / m;
    assert(len == (q * stride) * 2) by (nonlinear_arith)
        requires
            len == m * q,
            m == 2 * stride,
    ;
    lemma_fundamental_div_mod_converse(len, 2, q * stride, 0);
}

/// Folds `step` over the amplitudes where `target` reads `|0⟩`, in index
/// order, starting from `init`, found by testing every index.
pub fn fold_zero_scan<A: Copy, S, F: Fn(S, A) -> S>(
    amps: &[A],
    num_qubits: usize,
    target: usize,
    init: S,
    step: &F,
) -> (r: S)
    requires
        register(amps@.len() as int, num_qubits as nat, target as nat),
        total_fold(*step),
    ensures
        folds_to(
            fold_rel(*step),
            init,
            zero_half(amps@, qubit_stride(num_qubits as nat, target as nat) as int),
            r,
        ),
{
    proof {
        lemma_register_stride(num_qubits as nat, target as nat);
    }
    let ghost t = qubit_stride(num_qubits as nat, target as nat) as int;
    let ghost items = zero_half(amps@, t);
    let len = amps.len();
    let mut acc = init;
    let ghost mut chain: Seq<S> = seq![init];
    let mut index: usize = 0;
    proof {
        assert(count_clear_below(0, t) == 0) by {
            vstd::arithmetic::div_mod::lemma_small_mod(0, (2 * t) as nat);
            vstd::arithmetic::div_mod::lemma_basic_div(0, 2 * t);
        }
    }
    while index < len
        invariant
            len == amps@.len(),
            register(len as int, num_qubits as nat, target as nat),
            t == qubit_stride(num_qubits as nat, target as nat),
            t > 0,
            len as int % (2 * t) == 0,
            items == zero_half(amps@, t),
            total_fold(*step),
            index <= len,
            0 <= count_clear_below(index as int, t) <= len / 2,
            fold_chain(fold_rel(*step), init, items.take(count_clear_below(index as int, t)), chain),
            chain.last() == acc,
        decreases len - index,
    {
        let ghost k = count_clear_below(index as int, t);
        proof {
            lemma_count_step(index as int, t);
            lemma_count_all(len as int, t);
            if index + 1 < len {
                lemma_count_monotone(index + 1, len as int, t);
            }
        }
        if index_is_zero(num_qubits, target, index) {
            proof {
                assert(k < items.len());
                assert(items[k] == amps@[index as int]);
            }
            let next = step(acc, amps[index]);
            proof {
                lemma_chain_step(fold_rel(*step), init, items, k, chain, next);
                chain = chain.push(next);
            }
            acc = next;
        }
        index = index + 1;
    }
    proof {
        lemma_count_all(len as int, t);
        assert(items.take(len as int / 2) =~= items);
    }
    acc
}

/// The count of indices where the qubit reads `0` grows with the index.
proof fn lemma_count_monotone(i: int, j: int, stride: int)
    requires
        0 <= i <= j,
        stride > 0,
    ensures
        count_clear_below(i, stride) <= count_clear_below(j, stride),
    decreases j - i,
{
    if i < j {
        lemma_count_monotone(i, j - 1, stride);
        lemma_count_step(j - 1, stride);
    }
}

/// Collapses `amps` onto the outcome `outcome_is_one` of measuring `target`,
/// testing every index: amplitudes where `target` reads the other value
/// become `zero`, the others are renormalised by `rescale`.
pub fn collapse_scan<A: Copy, F: Fn(A) -> A>(
    amps: &mut [A],
    num_qubits: usize,
    target: usize,
    outcome_is_one: bool,
    zero: A,
    rescale: &F,
)
    requires
        register(old(amps)@.len() as int, num_qubits as nat, target as nat),
        forall|a: A| call_requires(*rescale, (a,)),
    ensures
        collapsed(
            old(amps)@,
            final(amps)@,
            qubit_stride(num_qubits as nat, target as nat) as int,
            outcome_is_one,
            zero,
            *rescale,
        ),
{
    let ghost old_amps = amps@;
    let ghost t = qubit_stride(num_qubits as nat, target as nat) as int;
    let len = amps.len();
    let mut index: usize = 0;
    while index < len
        invariant
            len == amps@.len() == old_amps.len(),
            old_amps == old(amps)@,
            register(len as int, num_qubits as nat, target as nat),
            t == qubit_stride(num_qubits as nat, target as nat),
            forall|a: A| call_requires(*rescale, (a,)),
            index <= len,
            forall|i: int|
                0 <= i < index ==> #[trigger] collapsed_at(old_amps, amps@, i, t, outcome_is_one, zero, *rescale),
            forall|i: int| index <= i < len ==> #[trigger] amps@[i] == old_amps[i],
        decreases len - index,
    {
        let ghost before = amps@;
        // Renormalise amplitudes matching the measurement outcome and zero the rest.
        if index_is_zero(num_qubits, target, index) {
            if outcome_is_one {
                amps[index] = zero;
            } else {
                let kept = rescale(amps[index]);
                amps[index] = kept;
            }
        } else {
            if outcome_is_one {
                let kept = rescale(amps[index]);
                amps[index] = kept;
            } else {
                amps[index] = zero;
            }
        }
        proof {
            assert forall|i: int| 0 <= i < index + 1 implies #[trigger] collapsed_at(
                old_amps,
                amps@,
                i,
                t,
                outcome_is_one,
                zero,
                *rescale,
            ) by {
                if i < index {
                    assert(collapsed_at(old_amps, before, i, t, outcome_is_one, zero, *rescale));
                }
            }
        }
        index = index + 1;
    }
}

} // verus!
