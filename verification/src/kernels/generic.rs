//! Generic state-vector gate kernels.
//!
//! These kernels operate on amplitude slices and qubit strides provided by
//! [`State`](crate::state::State). Amplitude slices are partitioned into
//! blocks of twice the target stride.

use vstd::prelude::*;
use vstd::arithmetic::div_mod::lemma_mod_add_multiples_vanish;

use crate::bits::{
    clear_at, lemma_block_fits, lemma_block_position, lemma_multiple_of_multiple,
    lemma_partner_in_block, lemma_partner_is_set, lemma_partner_keeps_control,
    lemma_set_has_partner_below, lemma_sum_of_multiples,
};

verus! {

/// The relation between an amplitude pair `(a, b)` and the pair `(x, y)`
/// that `gate` may return for it.
pub open spec fn gate_rel<A, F: Fn(A, A) -> (A, A)>(gate: F) -> spec_fn(A, A, A, A) -> bool {
    |a: A, b: A, x: A, y: A| call_ensures(gate, (a, b), (x, y))
}

/// The pair at `low` and `low + stride` of `old` went to the same pair of
/// `new` as the relation `rel` allows.
pub open spec fn pair_updated<A>(
    rel: spec_fn(A, A, A, A) -> bool,
    old: Seq<A>,
    new: Seq<A>,
    low: int,
    stride: int,
) -> bool {
    rel(old[low], old[low + stride], new[low], new[low + stride])
}

/// `gate` may be applied to any pair of amplitudes.
pub open spec fn total_gate<A, F: Fn(A, A) -> (A, A)>(gate: F) -> bool {
    forall|a: A, b: A| call_requires(gate, (a, b))
}

/// `stride` describes a qubit of an amplitude sequence of length `len`.
pub open spec fn valid_stride(len: int, stride: int) -> bool {
    &&& stride > 0
    &&& 2 * stride <= usize::MAX
    &&& len % (2 * stride) == 0
}

/// `new` is `old` with the relation `rel` applied to every pair of
/// amplitudes whose indices differ only at the qubit of stride `stride`.
pub open spec fn applied_1q<A>(
    rel: spec_fn(A, A, A, A) -> bool,
    old: Seq<A>,
    new: Seq<A>,
    stride: int,
) -> bool {
    &&& new.len() == old.len()
    &&& forall|i: int|
        0 <= i < old.len() && clear_at(i, stride) ==> #[trigger] pair_updated(
            rel,
            old,
            new,
            i,
            stride,
        )
}

/// A gate relation that undoes itself: applying it to a pair and then to
/// the result gives the pair back.
pub open spec fn involutive<A>(rel: spec_fn(A, A, A, A) -> bool) -> bool {
    forall|a: A, b: A, x: A, y: A, u: A, v: A|
        #![trigger rel(a, b, x, y), rel(x, y, u, v)]
        rel(a, b, x, y) && rel(x, y, u, v) ==> u == a && v == b
}

/// Every pair update that `r1` allows, `r2` allows too.
pub open spec fn rel_within<A>(r1: spec_fn(A, A, A, A) -> bool, r2: spec_fn(A, A, A, A) -> bool) -> bool {
    forall|a: A, b: A, x: A, y: A| #[trigger] r1(a, b, x, y) ==> r2(a, b, x, y)
}

/// A gate relation that allows one result for each pair, a
/// function of the pair.
pub open spec fn functional<A>(rel: spec_fn(A, A, A, A) -> bool) -> bool {
    forall|a: A, b: A, x: A, y: A, u: A, v: A|
        #![trigger rel(a, b, x, y), rel(a, b, u, v)]
        rel(a, b, x, y) && rel(a, b, u, v) ==> x == u && y == v
}

/// A one-qubit gate that is a function of the pair determines the state it
/// leaves: two applications to the same state agree.
pub proof fn lemma_applied_1q_unique<A>(
    rel: spec_fn(A, A, A, A) -> bool,
    old: Seq<A>,
    n1: Seq<A>,
    n2: Seq<A>,
    stride: int,
)
    requires
        stride > 0,
        functional(rel),
        applied_1q(rel, old, n1, stride),
        applied_1q(rel, old, n2, stride),
    ensures
        n1 == n2,
{
    assert forall|i: int| 0 <= i < old.len() implies #[trigger] n1[i] == n2[i] by {
        let low = if clear_at(i, stride) {
            i
        } else {
            lemma_set_has_partner_below(i, stride);
            i - stride
        };
        assert(pair_updated(rel, old, n1, low, stride));
        assert(pair_updated(rel, old, n2, low, stride));
        assert(rel(old[low], old[low + stride], n1[low], n1[low + stride]));
        assert(rel(old[low], old[low + stride], n2[low], n2[low + stride]));
    }
    assert(n1 =~= n2);
}

/// A one-qubit application under a relation is one under any weaker relation.
pub proof fn lemma_applied_1q_weaken<A>(
    r1: spec_fn(A, A, A, A) -> bool,
    r2: spec_fn(A, A, A, A) -> bool,
    old: Seq<A>,
    new: Seq<A>,
    stride: int,
)
    requires
        rel_within(r1, r2),
        applied_1q(r1, old, new, stride),
    ensures
        applied_1q(r2, old, new, stride),
{
    assert forall|i: int| 0 <= i < old.len() && clear_at(i, stride) implies #[trigger] pair_updated(
        r2,
        old,
        new,
        i,
        stride,
    ) by {
        assert(pair_updated(r1, old, new, i, stride));
        assert(r1(old[i], old[i + stride], new[i], new[i + stride]));
    }
}

/// A one-qubit gate that undoes itself, applied twice to the same qubit,
/// gives back the state it started from.
pub proof fn lemma_1q_twice_restores<A>(
    rel: spec_fn(A, A, A, A) -> bool,
    s0: Seq<A>,
    s1: Seq<A>,
    s2: Seq<A>,
    stride: int,
)
    requires
        stride > 0,
        involutive(rel),
        applied_1q(rel, s0, s1, stride),
        applied_1q(rel, s1, s2, stride),
    ensures
        s2 == s0,
{
    assert forall|i: int| 0 <= i < s0.len() implies #[trigger] s2[i] == s0[i] by {
        let low = if clear_at(i, stride) {
            i
        } else {
            lemma_set_has_partner_below(i, stride);
            i - stride
        };
        assert(pair_updated(rel, s0, s1, low, stride));
        assert(pair_updated(rel, s1, s2, low, stride));
        assert(rel(s0[low], s0[low + stride], s1[low], s1[low + stride]));
        assert(rel(s1[low], s1[low + stride], s2[low], s2[low + stride]));
    }
    assert(s2 =~= s0);
}

/// Applies `gate` to the amplitude pair beginning at `index_low`.
///
/// The paired amplitude is located at `index_low + t_stride`.
pub fn apply_pair<A: Copy, F: Fn(A, A) -> (A, A)>(
    amps: &mut [A],
    index_low: usize,
    t_stride: usize,
    gate: &F,
)
    requires
        t_stride > 0,
        index_low + t_stride < old(amps)@.len(),
        total_gate(*gate),
    ensures
        final(amps)@.len() == old(amps)@.len(),
        pair_updated(gate_rel(*gate), old(amps)@, final(amps)@, index_low as int, t_stride as int),
        forall|j: int|
            0 <= j < old(amps)@.len() && j != index_low && j != index_low + t_stride
                ==> #[trigger] final(amps)@[j] == old(amps)@[j],
{
    let _len = amps.len();
    let index_high = index_low + t_stride;
    let (low, high) = gate(amps[index_low], amps[index_high]);
    amps[index_low] = low;
    amps[index_high] = high;
}

/// Applies `gate` to every amplitude pair separated by `t_stride`.
///
/// `t_stride` must identify a valid target-qubit stride within `amps`.
pub fn apply_1q_strided<A: Copy, F: Fn(A, A) -> (A, A)>(
    amps: &mut [A],
    t_stride: usize,
    gate: &F,
)
    requires
        valid_stride(old(amps)@.len() as int, t_stride as int),
        total_gate(*gate),
    ensures
        applied_1q(gate_rel(*gate), old(amps)@, final(amps)@, t_stride as int),
{
    let ghost old_amps = amps@;
    let len = amps.len();
    let block = 2 * t_stride;
    let mut offset: usize = 0;
    while offset < len
        invariant
            len == amps@.len() == old_amps.len(),
            old_amps == old(amps)@,
            block == 2 * t_stride,
            valid_stride(len as int, t_stride as int),
            total_gate(*gate),
            offset <= len,
            offset % block == 0,
            forall|i: int|
                0 <= i < offset && clear_at(i, t_stride as int) ==> #[trigger] pair_updated(
                    gate_rel(*gate),
                    old_amps,
                    amps@,
                    i,
                    t_stride as int,
                ),
            forall|i: int| offset <= i < len ==> #[trigger] amps@[i] == old_amps[i],
        decreases len - offset,
    {
        proof {
            lemma_block_fits(offset as int, len as int, block as int);
        }
        let mut index_low = offset;
        while index_low < offset + t_stride
            invariant
                len == amps@.len() == old_amps.len(),
                block == 2 * t_stride,
                valid_stride(len as int, t_stride as int),
                total_gate(*gate),
                offset + block <= len,
                offset % block == 0,
                offset <= index_low <= offset + t_stride,
                forall|i: int|
                    0 <= i < index_low && clear_at(i, t_stride as int) ==> #[trigger] pair_updated(
                        gate_rel(*gate),
                        old_amps,
                        amps@,
                        i,
                        t_stride as int,
                    ),
                forall|i: int|
                    (index_low <= i < offset + t_stride || index_low + t_stride <= i < len)
                        ==> #[trigger] amps@[i] == old_amps[i],
            decreases offset + t_stride - index_low,
        {
            let ghost before = amps@;
            apply_pair(amps, index_low, t_stride, gate);
            proof {
                assert forall|i: int|
                    0 <= i < index_low + 1 && clear_at(i, t_stride as int) implies #[trigger] pair_updated(
                    gate_rel(*gate),
                    old_amps,
                    amps@,
                    i,
                    t_stride as int,
                ) by {
                    if i < index_low {
                        assert(pair_updated(gate_rel(*gate), old_amps, before, i, t_stride as int));
                        if i < offset {
                            lemma_partner_in_block(i, t_stride as int, offset as int);
                        }
                        assert(amps@[i] == before[i]);
                        assert(amps@[i + t_stride] == before[i + t_stride]);
                    } else {
                        assert(before[i] == old_amps[i]);
                        assert(before[i + t_stride] == old_amps[i + t_stride]);
                    }
                }
            }
            index_low = index_low + 1;
        }
        proof {
            assert forall|i: int|
                0 <= i < offset + block && clear_at(i, t_stride as int) implies #[trigger] pair_updated(
                gate_rel(*gate),
                old_amps,
                amps@,
                i,
                t_stride as int,
            ) by {
                if i >= offset + t_stride {
                    lemma_block_position(offset as int, i - offset, block as int);
                    assert(false);
                }
            }
            lemma_mod_add_multiples_vanish(offset as int, block as int);
        }
        offset = offset + block;
    }
}

/// `c_stride` and `t_stride` describe two distinct qubits of an amplitude
/// sequence of length `len`.
pub open spec fn valid_strides(len: int, c_stride: int, t_stride: int) -> bool {
    &&& valid_stride(len, c_stride)
    &&& valid_stride(len, t_stride)
    &&& c_stride != t_stride
    &&& c_stride < t_stride ==> t_stride % (2 * c_stride) == 0
    &&& t_stride < c_stride ==> c_stride % (2 * t_stride) == 0
}

/// At index `i` the control qubit reads `1` and the target qubit reads `0`.
pub open spec fn selected(i: int, c_stride: int, t_stride: int) -> bool {
    !clear_at(i, c_stride) && clear_at(i, t_stride)
}

/// The low indices of the pairs that a controlled gate acts on.
pub open spec fn c2q_selection(c_stride: int, t_stride: int) -> spec_fn(int) -> bool {
    |i: int| selected(i, c_stride, t_stride)
}

/// `new` is `old` with the relation `rel` applied to every pair of
/// amplitudes whose indices differ only at the target qubit of stride `t_stride`, where the
/// control qubit of stride `c_stride` reads `1`; every amplitude where the
/// control reads `0` is unchanged.
pub open spec fn applied_c2q<A>(
    rel: spec_fn(A, A, A, A) -> bool,
    old: Seq<A>,
    new: Seq<A>,
    c_stride: int,
    t_stride: int,
) -> bool {
    &&& new.len() == old.len()
    &&& forall|i: int|
        0 <= i < old.len() && selected(i, c_stride, t_stride) ==> #[trigger] pair_updated(rel,
            old,
            new,
            i,
            t_stride,
        )
    &&& forall|i: int|
        0 <= i < old.len() && clear_at(i, c_stride) ==> #[trigger] new[i] == old[i]
}

/// A controlled application under a relation is one under any weaker
/// relation.
pub proof fn lemma_applied_c2q_weaken<A>(
    r1: spec_fn(A, A, A, A) -> bool,
    r2: spec_fn(A, A, A, A) -> bool,
    old: Seq<A>,
    new: Seq<A>,
    c_stride: int,
    t_stride: int,
)
    requires
        rel_within(r1, r2),
        applied_c2q(r1, old, new, c_stride, t_stride),
    ensures
        applied_c2q(r2, old, new, c_stride, t_stride),
{
    assert forall|i: int|
        0 <= i < old.len() && selected(i, c_stride, t_stride) implies #[trigger] pair_updated(
        r2,
        old,
        new,
        i,
        t_stride,
    ) by {
        assert(pair_updated(r1, old, new, i, t_stride));
        assert(r1(old[i], old[i + t_stride], new[i], new[i + t_stride]));
    }
}

/// A controlled gate that is a function of the pair determines the state it
/// leaves: two applications to the same state agree.
pub proof fn lemma_applied_c2q_unique<A>(
    rel: spec_fn(A, A, A, A) -> bool,
    old: Seq<A>,
    n1: Seq<A>,
    n2: Seq<A>,
    c_stride: int,
    t_stride: int,
)
    requires
        valid_strides(old.len() as int, c_stride, t_stride),
        functional(rel),
        applied_c2q(rel, old, n1, c_stride, t_stride),
        applied_c2q(rel, old, n2, c_stride, t_stride),
    ensures
        n1 == n2,
{
    assert forall|i: int| 0 <= i < old.len() implies #[trigger] n1[i] == n2[i] by {
        if !clear_at(i, c_stride) {
            let low = if clear_at(i, t_stride) {
                i
            } else {
                lemma_set_has_partner_below(i, t_stride);
                lemma_partner_keeps_control(i - t_stride, c_stride, t_stride);
                i - t_stride
            };
            assert(selected(low, c_stride, t_stride));
            assert(pair_updated(rel, old, n1, low, t_stride));
            assert(pair_updated(rel, old, n2, low, t_stride));
            assert(rel(old[low], old[low + t_stride], n1[low], n1[low + t_stride]));
            assert(rel(old[low], old[low + t_stride], n2[low], n2[low + t_stride]));
        }
    }
    assert(n1 =~= n2);
}

/// A controlled gate that undoes itself, applied twice with the same control
/// and target, gives back the state it started from.
pub proof fn lemma_c2q_twice_restores<A>(
    rel: spec_fn(A, A, A, A) -> bool,
    s0: Seq<A>,
    s1: Seq<A>,
    s2: Seq<A>,
    c_stride: int,
    t_stride: int,
)
    requires
        valid_strides(s0.len() as int, c_stride, t_stride),
        involutive(rel),
        applied_c2q(rel, s0, s1, c_stride, t_stride),
        applied_c2q(rel, s1, s2, c_stride, t_stride),
    ensures
        s2 == s0,
{
    assert forall|i: int| 0 <= i < s0.len() implies #[trigger] s2[i] == s0[i] by {
        if clear_at(i, c_stride) {
            assert(s1[i] == s0[i]);
            assert(s2[i] == s1[i]);
        } else {
            let low = if clear_at(i, t_stride) {
                i
            } else {
                lemma_set_has_partner_below(i, t_stride);
                lemma_partner_keeps_control(i - t_stride, c_stride, t_stride);
                i - t_stride
            };
            assert(selected(low, c_stride, t_stride));
            assert(pair_updated(rel, s0, s1, low, t_stride));
            assert(pair_updated(rel, s1, s2, low, t_stride));
            assert(rel(s0[low], s0[low + t_stride], s1[low], s1[low + t_stride]));
            assert(rel(s1[low], s1[low + t_stride], s2[low], s2[low + t_stride]));
        }
    }
    assert(s2 =~= s0);
}

/// Progress of a kernel that visits indices in increasing order and
/// updates the pairs whose low index `sel` selects: every selected pair whose low index lies below `frontier` has been
/// updated, and every other amplitude is unchanged.
pub open spec fn done_below<A>(
    rel: spec_fn(A, A, A, A) -> bool,
    old: Seq<A>,
    cur: Seq<A>,
    sel: spec_fn(int) -> bool,
    t_stride: int,
    frontier: int,
) -> bool {
    &&& cur.len() == old.len()
    &&& forall|i: int|
        0 <= i < old.len() && i < frontier && sel(i)
            ==> #[trigger] pair_updated(rel, old, cur, i, t_stride)
    &&& forall|i: int|
        0 <= i < old.len() && !(i < frontier && sel(i)) && !(t_stride <= i && i - t_stride < frontier && sel(i - t_stride))
            ==> #[trigger] cur[i] == old[i]
}

/// Moving the frontier over indices that are not selected keeps the progress.
pub proof fn lemma_done_skip<A>(
    rel: spec_fn(A, A, A, A) -> bool,
    old: Seq<A>,
    cur: Seq<A>,
    sel: spec_fn(int) -> bool,
    t_stride: int,
    from: int,
    to: int,
)
    requires
        done_below(rel, old, cur, sel, t_stride, from),
        from <= to,
        forall|i: int| from <= i < to ==> !#[trigger] sel(i),
    ensures
        done_below(rel, old, cur, sel, t_stride, to),
{
    assert forall|i: int|
        0 <= i < old.len() && !(i < to && sel(i)) && !(t_stride <= i && i
            - t_stride < to && sel(i - t_stride)) implies #[trigger] cur[i]
        == old[i] by {
        if i < to && i >= from {
            assert(!sel(i));
        }
        if t_stride <= i && i - t_stride < to && i - t_stride >= from {
            assert(!sel(i - t_stride));
        }
    }
}

/// Updating the selected pair at the frontier advances the frontier by one.
pub proof fn lemma_done_step<A>(
    rel: spec_fn(A, A, A, A) -> bool,
    old: Seq<A>,
    before: Seq<A>,
    after: Seq<A>,
    sel: spec_fn(int) -> bool,
    t_stride: int,
    frontier: int,
)
    requires
        t_stride > 0,
        forall|i: int| #[trigger] sel(i) ==> clear_at(i, t_stride),
        done_below(rel, old, before, sel, t_stride, frontier),
        0 <= frontier,
        frontier + t_stride < old.len(),
        sel(frontier),
        after.len() == before.len(),
        pair_updated(rel, before, after, frontier, t_stride),
        forall|j: int|
            0 <= j < before.len() && j != frontier && j != frontier + t_stride
                ==> #[trigger] after[j] == before[j],
    ensures
        done_below(rel, old, after, sel, t_stride, frontier + 1),
{
    lemma_partner_is_set(frontier, t_stride);
    if frontier >= t_stride {
        if sel(frontier - t_stride) {
            lemma_partner_is_set(frontier - t_stride, t_stride);
        }
    }
    assert(before[frontier] == old[frontier]);
    assert(before[frontier + t_stride] == old[frontier + t_stride]);
    assert forall|i: int|
        0 <= i < old.len() && i < frontier + 1 && sel(i) implies #[trigger] pair_updated(rel, old, after, i, t_stride) by {
        if i < frontier {
            lemma_partner_is_set(i, t_stride);
            assert(pair_updated(rel, old, before, i, t_stride));
            assert(after[i] == before[i]);
            assert(after[i + t_stride] == before[i + t_stride]);
        }
    }
    assert forall|i: int|
        0 <= i < old.len() && !(i < frontier + 1 && sel(i)) && !(t_stride <= i && i - t_stride < frontier + 1 && sel(i - t_stride))
            implies #[trigger] after[i] == old[i] by {
        assert(i != frontier);
        assert(i != frontier + t_stride);
        assert(after[i] == before[i]);
    }
}

/// Once the frontier has passed every index, the controlled gate is applied.
pub proof fn lemma_done_all<A>(
    rel: spec_fn(A, A, A, A) -> bool,
    old: Seq<A>,
    cur: Seq<A>,
    c_stride: int,
    t_stride: int,
)
    requires
        valid_strides(old.len() as int, c_stride, t_stride),
        done_below(rel, old, cur, c2q_selection(c_stride, t_stride), t_stride, old.len() as int),
    ensures
        applied_c2q(rel, old, cur, c_stride, t_stride),
{
    assert forall|i: int|
        0 <= i < old.len() && clear_at(i, c_stride) implies #[trigger] cur[i] == old[i] by {
        if t_stride <= i && selected(i - t_stride, c_stride, t_stride) {
            lemma_partner_keeps_control(i - t_stride, c_stride, t_stride);
        }
    }
}

/// Applies `gate` to amplitude pairs where the control qubit is `|1⟩`.
///
/// `c_stride` and `t_stride` must identify valid control and target qubit
/// strides within `amps`.
pub fn apply_c2q_strided<A: Copy, F: Fn(A, A) -> (A, A)>(
    amps: &mut [A],
    c_stride: usize,
    t_stride: usize,
    gate: &F,
)
    requires
        valid_strides(old(amps)@.len() as int, c_stride as int, t_stride as int),
        total_gate(*gate),
    ensures
        applied_c2q(gate_rel(*gate), old(amps)@, final(amps)@, c_stride as int, t_stride as int),
{
    let ghost old_amps = amps@;
    let ghost c = c_stride as int;
    let ghost t = t_stride as int;
    let len = amps.len();
    if c_stride < t_stride {
        // Target is more significant, so select T=0 blocks before C=1 blocks.
        let mut t_block: usize = 0;
        while t_block < len
            invariant
                len == amps@.len() == old_amps.len(),
                old_amps == old(amps)@,
                c == c_stride,
                t == t_stride,
                c_stride < t_stride,
                valid_strides(len as int, c, t),
                total_gate(*gate),
                t_block <= len,
                t_block as int % (2 * t) == 0,
                done_below(gate_rel(*gate), old_amps, amps@, c2q_selection(c, t), t, t_block as int),
            decreases len - t_block,
        {
            proof {
                lemma_block_fits(t_block as int, len as int, 2 * t);
                lemma_sum_of_multiples(t, t, 2 * c);
                lemma_multiple_of_multiple(t_block as int, 2 * t, 2 * c);
            }
            let mut c_block = t_block;
            while c_block < t_block + t_stride
                invariant
                    len == amps@.len() == old_amps.len(),
                    c == c_stride,
                    t == t_stride,
                    c_stride < t_stride,
                    valid_strides(len as int, c, t),
                    total_gate(*gate),
                    t_block + 2 * t <= len,
                    t_block as int % (2 * t) == 0,
                    t_block as int % (2 * c) == 0,
                    t_block <= c_block <= t_block + t_stride,
                    c_block as int % (2 * c) == 0,
                    done_below(gate_rel(*gate), old_amps, amps@, c2q_selection(c, t), t, c_block as int),
                decreases t_block + t_stride - c_block,
            {
                proof {
                    lemma_sum_of_multiples(t_block as int, t, 2 * c);
                    lemma_block_fits(c_block as int, (t_block + t_stride) as int, 2 * c);
                    assert forall|i: int| c_block <= i < c_block + c implies !#[trigger] selected(
                        i,
                        c,
                        t,
                    ) by {
                        lemma_block_position(c_block as int, i - c_block, 2 * c);
                    }
                    lemma_done_skip(gate_rel(*gate), old_amps, amps@, c2q_selection(c, t), t, c_block as int, c_block + c);
                }
                let mut index_low = c_block + c_stride;
                while index_low < c_block + 2 * c_stride
                    invariant
                        len == amps@.len() == old_amps.len(),
                        c == c_stride,
                        t == t_stride,
                        c_stride < t_stride,
                        valid_strides(len as int, c, t),
                        total_gate(*gate),
                        t_block + 2 * t <= len,
                        t_block as int % (2 * t) == 0,
                        c_block as int % (2 * c) == 0,
                        t_block <= c_block,
                        c_block + 2 * c <= t_block + t,
                        c_block + c <= index_low <= c_block + 2 * c,
                        done_below(gate_rel(*gate), old_amps, amps@, c2q_selection(c, t), t, index_low as int),
                    decreases c_block + 2 * c_stride - index_low,
                {
                    let ghost before = amps@;
                    proof {
                        lemma_block_position(c_block as int, index_low - c_block, 2 * c);
                        lemma_block_position(t_block as int, index_low - t_block, 2 * t);
                    }
                    apply_pair(amps, index_low, t_stride, gate);
                    proof {
                        lemma_done_step(gate_rel(*gate), old_amps, before, amps@, c2q_selection(c, t), t, index_low as int);
                    }
                    index_low = index_low + 1;
                }
                c_block = c_block + 2 * c_stride;
                proof {
                    lemma_mod_add_multiples_vanish((c_block - 2 * c) as int, 2 * c);
                }
            }
            proof {
                assert(c_block == t_block + t) by {
                    lemma_sum_of_multiples(t_block as int, t, 2 * c);
                    if c_block < t_block + t {
                        lemma_block_fits(c_block as int, (t_block + t) as int, 2 * c);
                    }
                }
                assert forall|i: int|
                    t_block + t <= i < t_block + 2 * t implies !#[trigger] c2q_selection(c, t)(i) by {
                    lemma_block_position(t_block as int, i - t_block, 2 * t);
                }
                lemma_done_skip(gate_rel(*gate), old_amps, amps@, c2q_selection(c, t), t, t_block + t, t_block + 2 * t);
            }
            t_block = t_block + 2 * t_stride;
            proof {
                lemma_mod_add_multiples_vanish((t_block - 2 * t) as int, 2 * t);
            }
        }
    } else {
        // Control is more significant, so select C=1 blocks before T=0 blocks.
        let mut start: usize = 0;
        while start < len
            invariant
                len == amps@.len() == old_amps.len(),
                old_amps == old(amps)@,
                c == c_stride,
                t == t_stride,
                t_stride < c_stride,
                valid_strides(len as int, c, t),
                total_gate(*gate),
                start <= len,
                start as int % (2 * c) == 0,
                done_below(gate_rel(*gate), old_amps, amps@, c2q_selection(c, t), t, start as int),
            decreases len - start,
        {
            proof {
                lemma_block_fits(start as int, len as int, 2 * c);
            }
            let c_block = start + c_stride;
            proof {
                assert forall|i: int| start <= i < c_block implies !#[trigger] c2q_selection(c, t)(i) by {
                    lemma_block_position(start as int, i - start, 2 * c);
                }
                lemma_done_skip(gate_rel(*gate), old_amps, amps@, c2q_selection(c, t), t, start as int, c_block as int);
                lemma_sum_of_multiples(c, c, 2 * t);
                lemma_multiple_of_multiple(start as int, 2 * c, 2 * t);
                lemma_sum_of_multiples(start as int, c, 2 * t);
            }
            let mut t_block = c_block;
            while t_block < c_block + c_stride
                invariant
                    len == amps@.len() == old_amps.len(),
                    c == c_stride,
                    t == t_stride,
                    t_stride < c_stride,
                    valid_strides(len as int, c, t),
                    total_gate(*gate),
                    start == c_block - c,
                    start + 2 * c <= len,
                    start as int % (2 * c) == 0,
                    c_block as int % (2 * t) == 0,
                    c_block <= t_block <= c_block + c,
                    t_block as int % (2 * t) == 0,
                    done_below(gate_rel(*gate), old_amps, amps@, c2q_selection(c, t), t, t_block as int),
                decreases c_block + c_stride - t_block,
            {
                proof {
                    lemma_sum_of_multiples(c_block as int, c, 2 * t);
                    lemma_block_fits(t_block as int, (c_block + c) as int, 2 * t);
                }
                let mut index_low = t_block;
                while index_low < t_block + t_stride
                    invariant
                        len == amps@.len() == old_amps.len(),
                        c == c_stride,
                        t == t_stride,
                        t_stride < c_stride,
                        valid_strides(len as int, c, t),
                        total_gate(*gate),
                        start == c_block - c,
                        start + 2 * c <= len,
                        start as int % (2 * c) == 0,
                        t_block as int % (2 * t) == 0,
                        c_block <= t_block,
                        t_block + 2 * t <= c_block + c,
                        t_block <= index_low <= t_block + t,
                        done_below(gate_rel(*gate), old_amps, amps@, c2q_selection(c, t), t, index_low as int),
                    decreases t_block + t_stride - index_low,
                {
                    let ghost before = amps@;
                    proof {
                        lemma_block_position(start as int, index_low - start, 2 * c);
                        lemma_block_position(t_block as int, index_low - t_block, 2 * t);
                    }
                    apply_pair(amps, index_low, t_stride, gate);
                    proof {
                        lemma_done_step(gate_rel(*gate), old_amps, before, amps@, c2q_selection(c, t), t, index_low as int);
                    }
                    index_low = index_low + 1;
                }
                proof {
                    assert forall|i: int|
                        t_block + t <= i < t_block + 2 * t implies !#[trigger] c2q_selection(c, t)(i) by {
                        lemma_block_position(t_block as int, i - t_block, 2 * t);
                    }
                    lemma_done_skip(gate_rel(*gate), old_amps, amps@, c2q_selection(c, t), t, t_block + t, t_block + 2 * t);
                }
                t_block = t_block + 2 * t_stride;
                proof {
                    lemma_mod_add_multiples_vanish((t_block - 2 * t) as int, 2 * t);
                }
            }
            proof {
                assert(t_block == c_block + c) by {
                    lemma_sum_of_multiples(c_block as int, c, 2 * t);
                    if t_block < c_block + c {
                        lemma_block_fits(t_block as int, (c_block + c) as int, 2 * t);
                    }
                }
                lemma_mod_add_multiples_vanish(start as int, 2 * c);
            }
            start = start + 2 * c_stride;
        }
    }
    proof {
        lemma_done_all(gate_rel(*gate), old_amps, amps@, c, t);
    }
}

} // verus!
