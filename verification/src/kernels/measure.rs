//! Measurement kernels: the marginal sum over the amplitudes where a qubit
//! reads `|0⟩`, and the collapse of the state onto a measurement outcome.
//!
//! The sum and the renormalisation are handed in as functions, so the
//! kernels hold for any amplitude type and any arithmetic.

use vstd::prelude::*;
use vstd::arithmetic::div_mod::{
    lemma_fundamental_div_mod, lemma_fundamental_div_mod_converse, lemma_mod_add_multiples_vanish,
};
use vstd::arithmetic::mul::{lemma_mul_is_associative, lemma_mul_is_commutative};

use crate::bits::{clear_at, lemma_block_fits, lemma_block_position};
use crate::kernels::generic::valid_stride;

verus! {

/// The relation between an accumulator `s`, an amplitude `a` and the
/// accumulator `t` that `step` may return for them.
pub open spec fn fold_rel<S, A, F: Fn(S, A) -> S>(step: F) -> spec_fn(S, A, S) -> bool {
    |s: S, a: A, t: S| call_ensures(step, (s, a), t)
}

/// `step` may be applied to any accumulator and amplitude.
pub open spec fn total_fold<S, A, F: Fn(S, A) -> S>(step: F) -> bool {
    forall|s: S, a: A| call_requires(step, (s, a))
}

/// `chain` lists the accumulators of a fold that starts from `init` and
/// steps with `rel` through `items` in order.
pub open spec fn fold_chain<S, A>(
    rel: spec_fn(S, A, S) -> bool,
    init: S,
    items: Seq<A>,
    chain: Seq<S>,
) -> bool {
    &&& chain.len() == items.len() + 1
    &&& chain[0] == init
    &&& forall|k: int| 0 <= k < items.len() ==> #[trigger] rel(chain[k], items[k], chain[k + 1])
}

/// Starting from `init` and stepping with `rel` through `items` in order may
/// end in `result`.
pub open spec fn folds_to<S, A>(rel: spec_fn(S, A, S) -> bool, init: S, items: Seq<A>, result: S) -> bool {
    exists|chain: Seq<S>| #[trigger] fold_chain(rel, init, items, chain) && chain.last() == result
}

/// The index of the `k`-th amplitude, in index order, where the qubit of
/// stride `stride` reads `0`.
pub open spec fn low_index(k: int, stride: int) -> int {
    (k / stride) * (2 * stride) + k % stride
}

/// The amplitudes where the qubit of stride `stride` reads `0`, in index
/// order.
pub open spec fn zero_half<A>(amps: Seq<A>, stride: int) -> Seq<A> {
    Seq::new((amps.len() / 2) as nat, |k: int| amps[low_index(k, stride)])
}

/// Two fold chains over the same items, from the same start, with a step
/// relation that is a function, agree up to any position.
proof fn lemma_chains_agree<S, A>(
    rel: spec_fn(S, A, S) -> bool,
    init: S,
    items: Seq<A>,
    c1: Seq<S>,
    c2: Seq<S>,
    k: int,
)
    requires
        forall|s: S, a: A, t1: S, t2: S| #[trigger] rel(s, a, t1) && #[trigger] rel(s, a, t2) ==> t1 == t2,
        fold_chain(rel, init, items, c1),
        fold_chain(rel, init, items, c2),
        0 <= k <= items.len(),
    ensures
        c1[k] == c2[k],
    decreases k,
{
    if k > 0 {
        lemma_chains_agree(rel, init, items, c1, c2, k - 1);
        let j = k - 1;
        assert(rel(c1[j], items[j], c1[j + 1]));
        assert(rel(c2[j], items[j], c2[j + 1]));
    }
}

/// A fold whose step relation is a function has one result: two folds of
/// the same items from the same start end alike.
pub proof fn lemma_folds_unique<S, A>(
    rel: spec_fn(S, A, S) -> bool,
    init: S,
    items: Seq<A>,
    r1: S,
    r2: S,
)
    requires
        forall|s: S, a: A, t1: S, t2: S| #[trigger] rel(s, a, t1) && #[trigger] rel(s, a, t2) ==> t1 == t2,
        folds_to(rel, init, items, r1),
        folds_to(rel, init, items, r2),
    ensures
        r1 == r2,
{
    let c1 = choose|chain: Seq<S>| #[trigger] fold_chain(rel, init, items, chain) && chain.last() == r1;
    let c2 = choose|chain: Seq<S>| #[trigger] fold_chain(rel, init, items, chain) && chain.last() == r2;
    lemma_chains_agree(rel, init, items, c1, c2, items.len() as int);
}

/// A fold chain over a prefix of the items, extended by one step.
pub proof fn lemma_chain_step<S, A>(
    rel: spec_fn(S, A, S) -> bool,
    init: S,
    items: Seq<A>,
    k: int,
    chain: Seq<S>,
    next: S,
)
    requires
        0 <= k < items.len(),
        fold_chain(rel, init, items.take(k), chain),
        rel(chain.last(), items[k], next),
    ensures
        fold_chain(rel, init, items.take(k + 1), chain.push(next)),
        chain.push(next).last() == next,
{
    let c = chain.push(next);
    assert forall|j: int| 0 <= j < k + 1 implies #[trigger] rel(c[j], items.take(k + 1)[j], c[j + 1]) by {
        if j < k {
            assert(rel(chain[j], items.take(k)[j], chain[j + 1]));
        }
    }
}

/// Inside the block of `2 * stride` amplitudes starting at `offset`, the
/// `j`-th amplitude where the qubit reads `0` is the `offset / 2 + j`-th
/// overall.
pub proof fn lemma_low_index_in_block(offset: int, j: int, stride: int)
    requires
        stride > 0,
        offset >= 0,
        offset % (2 * stride) == 0,
        0 <= j < stride,
    ensures
        low_index(offset / 2 + j, stride) == offset + j,
        (offset + 2 * stride) / 2 == offset / 2 + stride,
{
    let b = offset / (2 * stride);
    lemma_fundamental_div_mod(offset, 2 * stride);
    assert(offset == (2 * stride) * b);
    assert(offset / 2 == stride * b) by {
        lemma_mul_is_associative(2, stride, b);
        lemma_fundamental_div_mod_converse(offset, 2, stride * b, 0);
    }
    lemma_mul_is_commutative(stride, b);
    lemma_fundamental_div_mod_converse(offset / 2 + j, stride, b, j);
    assert(offset + 2 * stride == (stride * b + stride) * 2) by (nonlinear_arith)
        requires
            offset == (2 * stride) * b,
    ;
    lemma_fundamental_div_mod_converse(offset + 2 * stride, 2, stride * b + stride, 0);
}

/// The result of collapsing amplitude `i` of `old` onto an outcome: where the
/// qubit of stride `stride` reads the other value the amplitude becomes
/// `zero`, elsewhere it is what `rescale` returns for it.
pub open spec fn collapsed_at<A, F: Fn(A) -> A>(
    old: Seq<A>,
    new: Seq<A>,
    i: int,
    stride: int,
    outcome_is_one: bool,
    zero: A,
    rescale: F,
) -> bool {
    if clear_at(i, stride) == outcome_is_one {
        new[i] == zero
    } else {
        call_ensures(rescale, (old[i],), new[i])
    }
}

/// `new` is `old` collapsed onto the outcome `outcome_is_one` of the qubit of
/// stride `stride`.
pub open spec fn collapsed<A, F: Fn(A) -> A>(
    old: Seq<A>,
    new: Seq<A>,
    stride: int,
    outcome_is_one: bool,
    zero: A,
    rescale: F,
) -> bool {
    &&& new.len() == old.len()
    &&& forall|i: int|
        0 <= i < old.len() ==> #[trigger] collapsed_at(old, new, i, stride, outcome_is_one, zero, rescale)
}

/// Collapsing with a renormalisation that is a function of the amplitude
/// determines the state it leaves: two collapses of the same state onto the
/// same outcome agree.
pub proof fn lemma_collapsed_unique<A, F: Fn(A) -> A>(
    old: Seq<A>,
    n1: Seq<A>,
    n2: Seq<A>,
    stride: int,
    outcome_is_one: bool,
    zero: A,
    rescale: F,
)
    requires
        forall|a: A, x: A, y: A|
            #[trigger] call_ensures(rescale, (a,), x) && #[trigger] call_ensures(rescale, (a,), y) ==> x == y,
        collapsed(old, n1, stride, outcome_is_one, zero, rescale),
        collapsed(old, n2, stride, outcome_is_one, zero, rescale),
    ensures
        n1 == n2,
{
    assert forall|i: int| 0 <= i < old.len() implies #[trigger] n1[i] == n2[i] by {
        assert(collapsed_at(old, n1, i, stride, outcome_is_one, zero, rescale));
        assert(collapsed_at(old, n2, i, stride, outcome_is_one, zero, rescale));
    }
    assert(n1 =~= n2);
}

/// Folds `step` over the amplitudes where the qubit of stride `t_stride`
/// reads `0`, in index order, starting from `init`.
pub fn fold_zero_strided<A: Copy, S, F: Fn(S, A) -> S>(
    amps: &[A],
    t_stride: usize,
    init: S,
    step: &F,
) -> (r: S)
    requires
        valid_stride(amps@.len() as int, t_stride as int),
        total_fold(*step),
    ensures
        folds_to(fold_rel(*step), init, zero_half(amps@, t_stride as int), r),
{
    let ghost s = t_stride as int;
    let ghost items = zero_half(amps@, s);
    let len = amps.len();
    let block = 2 * t_stride;
    let mut acc = init;
    let ghost mut chain: Seq<S> = seq![init];
    let mut offset: usize = 0;
    while offset < len
        invariant
            len == amps@.len(),
            s == t_stride,
            block == 2 * t_stride,
            items == zero_half(amps@, s),
            valid_stride(len as int, s),
            total_fold(*step),
            offset <= len,
            offset as int % (2 * s) == 0,
            fold_chain(fold_rel(*step), init, items.take(offset as int / 2), chain),
            chain.last() == acc,
        decreases len - offset,
    {
        proof {
            lemma_block_fits(offset as int, len as int, 2 * s);
            lemma_low_index_in_block(offset as int, 0, s);
        }
        let mut index_low = offset;
        while index_low < offset + t_stride
            invariant
                len == amps@.len(),
                s == t_stride,
                block == 2 * t_stride,
                items == zero_half(amps@, s),
                valid_stride(len as int, s),
                total_fold(*step),
                offset + 2 * s <= len,
                offset as int % (2 * s) == 0,
                offset <= index_low <= offset + s,
                fold_chain(
                    fold_rel(*step),
                    init,
                    items.take(offset as int / 2 + (index_low - offset)),
                    chain,
                ),
                chain.last() == acc,
            decreases offset + t_stride - index_low,
        {
            let ghost k = offset as int / 2 + (index_low - offset);
            proof {
                lemma_low_index_in_block(offset as int, index_low - offset, s);
                assert(k < items.len()) by {
                    lemma_low_index_in_block(offset as int, 0, s);
                    vstd::arithmetic::div_mod::lemma_div_is_ordered(
                        offset + 2 * s,
                        len as int,
                        2,
                    );
                }
                assert(items[k] == amps@[index_low as int]);
            }
            let next = step(acc, amps[index_low]);
            proof {
                lemma_chain_step(fold_rel(*step), init, items, k, chain, next);
                chain = chain.push(next);
            }
            acc = next;
            index_low = index_low + 1;
        }
        proof {
            lemma_low_index_in_block(offset as int, 0, s);
            lemma_mod_add_multiples_vanish(offset as int, 2 * s);
        }
        offset = offset + block;
    }
    proof {
        assert(items.take(len as int / 2) =~= items);
        assert(fold_chain(fold_rel(*step), init, items, chain));
    }
    acc
}

/// Collapses `amps` onto the outcome `outcome_is_one` of the qubit of stride
/// `t_stride`: the amplitudes where the qubit reads the other value become
/// `zero`, the others are renormalised by `rescale`.
pub fn collapse_strided<A: Copy, F: Fn(A) -> A>(
    amps: &mut [A],
    t_stride: usize,
    outcome_is_one: bool,
    zero: A,
    rescale: &F,
)
    requires
        valid_stride(old(amps)@.len() as int, t_stride as int),
        forall|a: A| call_requires(*rescale, (a,)),
    ensures
        collapsed(old(amps)@, final(amps)@, t_stride as int, outcome_is_one, zero, *rescale),
{
    let ghost old_amps = amps@;
    let ghost s = t_stride as int;
    let len = amps.len();
    let block = 2 * t_stride;
    let mut offset: usize = 0;
    while offset < len
        invariant
            len == amps@.len() == old_amps.len(),
            old_amps == old(amps)@,
            s == t_stride,
            block == 2 * t_stride,
            valid_stride(len as int, s),
            forall|a: A| call_requires(*rescale, (a,)),
            offset <= len,
            offset as int % (2 * s) == 0,
            forall|i: int|
                0 <= i < offset ==> #[trigger] collapsed_at(old_amps, amps@, i, s, outcome_is_one, zero, *rescale),
            forall|i: int| offset <= i < len ==> #[trigger] amps@[i] == old_amps[i],
        decreases len - offset,
    {
        proof {
            lemma_block_fits(offset as int, len as int, 2 * s);
        }
        let mut index_low = offset;
        while index_low < offset + t_stride
            invariant
                len == amps@.len() == old_amps.len(),
                s == t_stride,
                block == 2 * t_stride,
                valid_stride(len as int, s),
                forall|a: A| call_requires(*rescale, (a,)),
                offset + 2 * s <= len,
                offset as int % (2 * s) == 0,
                offset <= index_low <= offset + s,
                forall|i: int|
                    (0 <= i < index_low || offset + s <= i < index_low + s) ==> #[trigger] collapsed_at(
                        old_amps,
                        amps@,
                        i,
                        s,
                        outcome_is_one,
                        zero,
                        *rescale,
                    ),
                forall|i: int|
                    (index_low <= i < offset + s || index_low + s <= i < len)
                        ==> #[trigger] amps@[i] == old_amps[i],
            decreases offset + t_stride - index_low,
        {
            let index_high = index_low + t_stride;
            proof {
                lemma_block_position(offset as int, index_low - offset, 2 * s);
                lemma_block_position(offset as int, index_high - offset, 2 * s);
            }
            let ghost before = amps@;
            // Renormalise amplitudes matching the measurement outcome and zero the rest.
            if outcome_is_one {
                amps[index_low] = zero;
                let high = rescale(amps[index_high]);
                amps[index_high] = high;
            } else {
                let low = rescale(amps[index_low]);
                amps[index_low] = low;
                amps[index_high] = zero;
            }
            proof {
                assert forall|i: int|
                    (0 <= i < index_low + 1 || offset + s <= i < index_low + 1 + s) implies #[trigger] collapsed_at(
                    old_amps,
                    amps@,
                    i,
                    s,
                    outcome_is_one,
                    zero,
                    *rescale,
                ) by {
                    if i != index_low && i != index_high {
                        assert(collapsed_at(old_amps, before, i, s, outcome_is_one, zero, *rescale));
                        assert(amps@[i] == before[i]);
                    }
                }
            }
            index_low = index_low + 1;
        }
        proof {
            lemma_mod_add_multiples_vanish(offset as int, 2 * s);
        }
        offset = offset + block;
    }
}

} // verus!
