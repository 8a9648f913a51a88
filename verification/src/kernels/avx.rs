//! Two-lane state-vector gate kernels.
//!
//! The portable kernel updates two neighbouring amplitude pairs at once, as a
//! 256-bit vector unit holds two complex amplitudes. The lane arithmetic is
//! handed in as a function of the two low and the two high amplitudes.

use vstd::prelude::*;

use crate::bits::{clear_at, lemma_block_fits, lemma_block_position, lemma_partner_in_block};
use crate::kernels::generic::{
    applied_1q, apply_1q_strided, gate_rel, pair_updated, total_gate, valid_stride,
};
use vstd::arithmetic::div_mod::{lemma_fundamental_div_mod, lemma_mod_add_multiples_vanish, lemma_mod_mod};

verus! {

/// The kernel variant selected by [`apply_1q_with_variant`].
#[derive(Clone, Copy, Debug)]
pub enum AvxVariant {
    /// One amplitude pair per step.
    Scalar,
    /// Two neighbouring amplitude pairs per step.
    Portable,
}

/// `lanes` took the two pairs at `low`, `low + 1` and `low + stride`,
/// `low + stride + 1` of `old` to the same amplitudes of `new`.
pub open spec fn lanes_updated<A, G: Fn((A, A), (A, A)) -> ((A, A), (A, A))>(
    lanes: G,
    old: Seq<A>,
    new: Seq<A>,
    low: int,
    stride: int,
) -> bool {
    call_ensures(
        lanes,
        ((old[low], old[low + 1]), (old[low + stride], old[low + stride + 1])),
        ((new[low], new[low + 1]), (new[low + stride], new[low + stride + 1])),
    )
}

/// `lanes` may be applied to any four amplitudes.
pub open spec fn total_lanes<A, G: Fn((A, A), (A, A)) -> ((A, A), (A, A))>(lanes: G) -> bool {
    forall|l: (A, A), h: (A, A)| call_requires(lanes, (l, h))
}

/// `stride` describes a qubit that the two-lane kernel can target.
pub open spec fn valid_lane_stride(len: int, stride: int) -> bool {
    &&& valid_stride(len, stride)
    &&& stride >= 2
    &&& stride % 2 == 0
}

/// `new` is `old` with `lanes` applied to every pair of neighbouring
/// amplitude pairs whose low index is even and where the qubit of stride
/// `stride` reads `0`.
pub open spec fn applied_1q_lanes<A, G: Fn((A, A), (A, A)) -> ((A, A), (A, A))>(
    lanes: G,
    old: Seq<A>,
    new: Seq<A>,
    stride: int,
) -> bool {
    &&& new.len() == old.len()
    &&& forall|i: int|
        0 <= i < old.len() && i % 2 == 0 && clear_at(i, stride) ==> #[trigger] lanes_updated(
            lanes,
            old,
            new,
            i,
            stride,
        )
}

/// `lanes` computes, lane by lane, what the relation `rel` allows on
/// one pair.
pub open spec fn lanes_agree<A, G: Fn((A, A), (A, A)) -> ((A, A), (A, A))>(
    lanes: G,
    rel: spec_fn(A, A, A, A) -> bool,
) -> bool {
    forall|l: (A, A), h: (A, A), r: ((A, A), (A, A))|
        #[trigger] call_ensures(lanes, (l, h), r) ==> rel(l.0, h.0, r.0.0, r.1.0) && rel(
            l.1,
            h.1,
            r.0.1,
            r.1.1,
        )
}

/// Two-lane kernels agree with the one-pair kernel: where the lane function
/// computes on each lane what the pair function computes, applying it to
/// every even pair of neighbouring pairs applies the pair function to every
/// pair.
pub proof fn lemma_lanes_match_pairs<A, G: Fn((A, A), (A, A)) -> ((A, A), (A, A))>(
    lanes: G,
    rel: spec_fn(A, A, A, A) -> bool,
    old: Seq<A>,
    new: Seq<A>,
    stride: int,
)
    requires
        valid_lane_stride(old.len() as int, stride),
        lanes_agree(lanes, rel),
        applied_1q_lanes(lanes, old, new, stride),
    ensures
        applied_1q(rel, old, new, stride),
{
    assert forall|i: int| 0 <= i < old.len() && clear_at(i, stride) implies #[trigger] pair_updated(
        rel,
        old,
        new,
        i,
        stride,
    ) by {
        lemma_fundamental_div_mod(stride, 2);
        lemma_mod_mod(i, 2, stride);
        assert(2 * stride == stride * 2);
        if i % 2 == 0 {
            assert(lanes_updated(lanes, old, new, i, stride));
        } else {
            // i % (2 * stride) has the parity of i, so it is at least 1.
            assert((i % (2 * stride)) % 2 == 1);
            lemma_fundamental_div_mod(i, 2 * stride);
            let q = i / (2 * stride);
            let r = i % (2 * stride);
            assert(r >= 1);
            vstd::arithmetic::div_mod::lemma_fundamental_div_mod_converse(
                i - 1,
                2 * stride,
                q,
                r - 1,
            );
            assert(clear_at(i - 1, stride));
            assert((i - 1) % 2 == 0);
            assert(lanes_updated(lanes, old, new, i - 1, stride));
        }
    }
}

/// Applies `lanes` to the two amplitude pairs beginning at `index_low` and
/// `index_low + 1`, whose partners are located `t_stride` above them.
pub fn apply_pair_portable<A: Copy, G: Fn((A, A), (A, A)) -> ((A, A), (A, A))>(
    amps: &mut [A],
    index_low: usize,
    t_stride: usize,
    lanes: &G,
)
    requires
        t_stride >= 2,
        index_low + t_stride + 1 < old(amps)@.len(),
        total_lanes(*lanes),
    ensures
        final(amps)@.len() == old(amps)@.len(),
        lanes_updated(*lanes, old(amps)@, final(amps)@, index_low as int, t_stride as int),
        forall|j: int|
            0 <= j < old(amps)@.len() && j != index_low && j != index_low + 1 && j != index_low
                + t_stride && j != index_low + t_stride + 1 ==> #[trigger] final(amps)@[j]
                == old(amps)@[j],
{
    let _len = amps.len();
    let index_high = index_low + t_stride;
    let low_inputs = (amps[index_low], amps[index_low + 1]);
    let high_inputs = (amps[index_high], amps[index_high + 1]);
    let (low_outputs, high_outputs) = lanes(low_inputs, high_inputs);
    amps[index_low] = low_outputs.0;
    amps[index_low + 1] = low_outputs.1;
    amps[index_high] = high_outputs.0;
    amps[index_high + 1] = high_outputs.1;
}

/// Applies `lanes` to every pair of neighbouring amplitude pairs separated
/// by `t_stride`, two pairs per step.
///
/// `t_stride` must describe a valid state-vector partition and must be at
/// least 2.
pub fn apply_1q_portable<A: Copy, G: Fn((A, A), (A, A)) -> ((A, A), (A, A))>(
    amps: &mut [A],
    t_stride: usize,
    lanes: &G,
)
    requires
        valid_lane_stride(old(amps)@.len() as int, t_stride as int),
        total_lanes(*lanes),
    ensures
        applied_1q_lanes(*lanes, old(amps)@, final(amps)@, t_stride as int),
{
    let ghost old_amps = amps@;
    let ghost s = t_stride as int;
    let len = amps.len();
    let block = 2 * t_stride;
    let mut offset: usize = 0;
    while offset < len
        invariant
            len == amps@.len() == old_amps.len(),
            old_amps == old(amps)@,
            s == t_stride,
            block == 2 * t_stride,
            valid_lane_stride(len as int, s),
            total_lanes(*lanes),
            offset <= len,
            offset as int % (2 * s) == 0,
            forall|i: int|
                0 <= i < offset && i % 2 == 0 && clear_at(i, s) ==> #[trigger] lanes_updated(
                    *lanes,
                    old_amps,
                    amps@,
                    i,
                    s,
                ),
            forall|i: int| offset <= i < len ==> #[trigger] amps@[i] == old_amps[i],
        decreases len - offset,
    {
        proof {
            lemma_block_fits(offset as int, len as int, 2 * s);
            lemma_fundamental_div_mod(offset as int, 2 * s);
            lemma_mod_mod(offset as int, 2, s);
            assert(2 * s == s * 2);
        }
        let mut index_low = offset;
        while index_low < offset + t_stride
            invariant
                len == amps@.len() == old_amps.len(),
                s == t_stride,
                block == 2 * t_stride,
                valid_lane_stride(len as int, s),
                total_lanes(*lanes),
                offset + 2 * s <= len,
                offset as int % (2 * s) == 0,
                offset <= index_low <= offset + s,
                offset % 2 == 0,
                index_low % 2 == 0,
                forall|i: int|
                    0 <= i < index_low && i % 2 == 0 && clear_at(i, s) ==> #[trigger] lanes_updated(
                        *lanes,
                        old_amps,
                        amps@,
                        i,
                        s,
                    ),
                forall|i: int|
                    (index_low <= i < offset + s || index_low + s <= i < len)
                        ==> #[trigger] amps@[i] == old_amps[i],
            decreases offset + t_stride - index_low,
        {
            let ghost before = amps@;
            proof {
                // index_low and offset + s are even, so index_low + 1 < offset + s.
                assert(index_low + 1 < offset + s);
            }
            apply_pair_portable(amps, index_low, t_stride, lanes);
            proof {
                assert forall|i: int|
                    0 <= i < index_low + 2 && i % 2 == 0 && clear_at(
                        i,
                        s,
                    ) implies #[trigger] lanes_updated(*lanes, old_amps, amps@, i, s) by {
                    if i < index_low {
                        assert(lanes_updated(*lanes, old_amps, before, i, s));
                        if i < offset {
                            lemma_partner_in_block(i, s, offset as int);
                            assert(clear_at(i + 1, s)) by {
                                lemma_fundamental_div_mod(i, 2 * s);
                                lemma_mod_mod(i, 2, s);
                                assert(2 * s == s * 2);
                                assert((i % (2 * s)) % 2 == 0);
                                assert(i % (2 * s) + 1 < s);
                                vstd::arithmetic::div_mod::lemma_fundamental_div_mod_converse(
                                    i + 1,
                                    2 * s,
                                    i / (2 * s),
                                    i % (2 * s) + 1,
                                );
                            }
                            lemma_partner_in_block(i + 1, s, offset as int);
                        }
                        assert(amps@[i] == before[i]);
                        assert(amps@[i + 1] == before[i + 1]);
                        assert(amps@[i + s] == before[i + s]);
                        assert(amps@[i + s + 1] == before[i + s + 1]);
                    } else {
                        assert(i == index_low);
                        assert(before[i] == old_amps[i]);
                        assert(before[i + 1] == old_amps[i + 1]);
                        assert(before[i + s] == old_amps[i + s]);
                        assert(before[i + s + 1] == old_amps[i + s + 1]);
                    }
                }
            }
            index_low = index_low + 2;
        }
        proof {
            assert forall|i: int|
                0 <= i < offset + block && i % 2 == 0 && clear_at(i, s) implies #[trigger] lanes_updated(
                *lanes,
                old_amps,
                amps@,
                i,
                s,
            ) by {
                if i >= offset + s {
                    lemma_block_position(offset as int, i - offset, 2 * s);
                    assert(false);
                }
            }
            lemma_mod_add_multiples_vanish(offset as int, 2 * s);
        }
        offset = offset + block;
    }
}

/// Applies `gate` one amplitude pair at a time.
pub fn apply_1q_scalar<A: Copy, F: Fn(A, A) -> (A, A)>(amps: &mut [A], t_stride: usize, gate: &F)
    requires
        valid_stride(old(amps)@.len() as int, t_stride as int),
        total_gate(*gate),
    ensures
        applied_1q(gate_rel(*gate), old(amps)@, final(amps)@, t_stride as int),
{
    apply_1q_strided(amps, t_stride, gate);
}

/// Applies a 2×2 gate using the two-lane kernel, the default entry point.
///
/// `t_stride` must describe a valid state-vector partition and must be at
/// least 2.
pub fn apply_1q<A: Copy, G: Fn((A, A), (A, A)) -> ((A, A), (A, A))>(
    amps: &mut [A],
    t_stride: usize,
    lanes: &G,
)
    requires
        valid_lane_stride(old(amps)@.len() as int, t_stride as int),
        total_lanes(*lanes),
    ensures
        applied_1q_lanes(*lanes, old(amps)@, final(amps)@, t_stride as int),
{
    apply_1q_portable(amps, t_stride, lanes);
}

/// Applies a 2×2 gate with the kernel that `variant` selects: `gate` acts
/// on one pair, `lanes` on two neighbouring pairs. Whichever kernel runs,
/// where `lanes` agrees with `gate` lane by lane the result is `gate`
/// applied to every pair.
pub fn apply_1q_with_variant<
    A: Copy,
    F: Fn(A, A) -> (A, A),
    G: Fn((A, A), (A, A)) -> ((A, A), (A, A)),
>(amps: &mut [A], t_stride: usize, gate: &F, lanes: &G, variant: AvxVariant)
    requires
        valid_stride(old(amps)@.len() as int, t_stride as int),
        variant is Portable ==> valid_lane_stride(old(amps)@.len() as int, t_stride as int),
        total_gate(*gate),
        total_lanes(*lanes),
    ensures
        variant is Scalar ==> applied_1q(gate_rel(*gate), old(amps)@, final(amps)@, t_stride as int),
        variant is Portable ==> applied_1q_lanes(
            *lanes,
            old(amps)@,
            final(amps)@,
            t_stride as int,
        ),
        lanes_agree(*lanes, gate_rel(*gate)) ==> applied_1q(
            gate_rel(*gate),
            old(amps)@,
            final(amps)@,
            t_stride as int,
        ),
{
    let ghost old_amps = amps@;
    match variant {
        AvxVariant::Scalar => {
            apply_1q_scalar(amps, t_stride, gate);
        },
        AvxVariant::Portable => {
            apply_1q_portable(amps, t_stride, lanes);
            proof {
                if lanes_agree(*lanes, gate_rel(*gate)) {
                    lemma_lanes_match_pairs(*lanes, gate_rel(*gate), old_amps, amps@, t_stride as int);
                }
            }
        },
    }
}

} // verus!
