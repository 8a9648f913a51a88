//! Index arithmetic of the state vector.
//!
//! Amplitudes use big-endian qubit ordering: qubit 0 is the most significant
//! bit of an amplitude index. In an `n`-qubit register, qubit `t` therefore
//! has stride `2^(n - t - 1)`, and the indices repeat in blocks where the
//! qubit reads `0` for `stride` indices followed by `stride` indices where it
//! reads `1`.

use vstd::prelude::*;
use vstd::arithmetic::div_mod::*;
use vstd::arithmetic::power2::*;
use vstd::arithmetic::mul::*;
use vstd::bits::*;

verus! {

/// The stride of qubit `target` in a register of `num_qubits` qubits.
pub open spec fn qubit_stride(num_qubits: nat, target: nat) -> nat {
    pow2((num_qubits - target - 1) as nat)
}

/// Whether the qubit of stride `stride` reads `0` at amplitude `index`.
pub open spec fn clear_at(index: int, stride: int) -> bool {
    index % (2 * stride) < stride
}

/// The bit of weight `stride` in `index`, which is 0 or 1.
pub open spec fn bit_at(index: int, stride: int) -> int {
    (index / stride) % 2
}

/// A qubit reads `0` at an index exactly when the index's bit of that
/// weight is `0`.
pub proof fn lemma_clear_iff_bit_zero(index: int, stride: int)
    requires
        index >= 0,
        stride > 0,
    ensures
        clear_at(index, stride) == (bit_at(index, stride) == 0),
        bit_at(index, stride) == 0 || bit_at(index, stride) == 1,
{
    lemma_mod_breakdown(index, stride, 2);
    assert(stride * 2 == 2 * stride);
    lemma_mod_bound(index / stride, 2);
    lemma_mod_bound(index, stride);
    let b = (index / stride) % 2;
    if b == 0 {
        lemma_mul_basics(stride);
    } else {
        assert(b == 1);
        lemma_mul_basics(stride);
    }
}

/// Inside a block that starts at a multiple of `m`, the position of an index
/// relative to the pattern is its distance from the block start.
pub proof fn lemma_block_position(offset: int, x: int, m: int)
    requires
        m > 0,
        offset >= 0,
        offset % m == 0,
        0 <= x < m,
    ensures
        (offset + x) % m == x,
        (offset + x) / m == offset / m,
{
    lemma_fundamental_div_mod(offset, m);
    lemma_mul_is_commutative(m, offset / m);
    lemma_fundamental_div_mod_converse(offset + x, m, offset / m, x);
}

/// A block of `m` amplitudes that starts before a block boundary ends at
/// or before that boundary.
pub proof fn lemma_block_fits(offset: int, len: int, m: int)
    requires
        m > 0,
        0 <= offset < len,
        offset % m == 0,
        len % m == 0,
    ensures
        offset + m <= len,
{
    lemma_fundamental_div_mod(offset, m);
    lemma_fundamental_div_mod(len, m);
    let q1 = offset / m;
    let q2 = len / m;
    if q2 <= q1 {
        lemma_mul_inequality(q2, q1, m);
        lemma_mul_is_commutative(m, q1);
        lemma_mul_is_commutative(m, q2);
        assert(false);
    }
    lemma_mul_inequality(q1 + 1, q2, m);
    lemma_mul_is_distributive_add_other_way(m, q1, 1);
    lemma_mul_is_commutative(m, q1);
    lemma_mul_is_commutative(m, q2);
}

/// The partner `index + stride` of an index where the qubit reads `0` lies in
/// the same block, so it stays below any block boundary above `index`.
pub proof fn lemma_partner_in_block(index: int, stride: int, boundary: int)
    requires
        stride > 0,
        0 <= index < boundary,
        boundary % (2 * stride) == 0,
        clear_at(index, stride),
    ensures
        index + stride < boundary,
        !clear_at(index + stride, stride),
{
    let m = 2 * stride;
    lemma_fundamental_div_mod(index, m);
    let q = index / m;
    let r = index % m;
    lemma_mod_bound(index, m);
    let start = m * q;
    lemma_mul_nonnegative(m, q);
    assert(start % m == 0) by {
        lemma_mod_multiples_basic(q, m);
        lemma_mul_is_commutative(m, q);
    }
    assert(start < boundary);
    lemma_block_fits(start, boundary, m);
    lemma_block_position(start, r + stride, m);
}

/// A multiple of a multiple of `m` is a multiple of `m`.
pub proof fn lemma_multiple_of_multiple(x: int, n: int, m: int)
    requires
        m > 0,
        n > 0,
        x % n == 0,
        n % m == 0,
    ensures
        x % m == 0,
{
    lemma_fundamental_div_mod(x, n);
    lemma_fundamental_div_mod(n, m);
    let q = x / n;
    let k = n / m;
    assert(x == m * (k * q)) by {
        lemma_mul_is_associative(m, k, q);
    }
    lemma_mod_multiples_basic(k * q, m);
    lemma_mul_is_commutative(m, k * q);
}

/// The sum of two multiples of `m` is a multiple of `m`.
pub proof fn lemma_sum_of_multiples(x: int, y: int, m: int)
    requires
        m > 0,
        x % m == 0,
        y % m == 0,
    ensures
        (x + y) % m == 0,
{
    lemma_fundamental_div_mod(x, m);
    lemma_fundamental_div_mod(y, m);
    lemma_mul_is_distributive_add(m, x / m, y / m);
    lemma_mod_multiples_basic(x / m + y / m, m);
    lemma_mul_is_commutative(m, x / m + y / m);
}

/// The partner `index + stride` of an index where the qubit reads `0` reads
/// `1`, at the same position of the following half block.
pub proof fn lemma_partner_is_set(index: int, stride: int)
    requires
        stride > 0,
        index >= 0,
        clear_at(index, stride),
    ensures
        (index + stride) % (2 * stride) == index % (2 * stride) + stride,
        !clear_at(index + stride, stride),
{
    let m = 2 * stride;
    lemma_fundamental_div_mod(index, m);
    lemma_mod_bound(index, m);
    lemma_mul_is_commutative(m, index / m);
    lemma_fundamental_div_mod_converse(index + stride, m, index / m, index % m + stride);
}

/// An index where the qubit reads `1` is the partner of the index `stride`
/// below it, where the qubit reads `0`.
pub proof fn lemma_set_has_partner_below(index: int, stride: int)
    requires
        stride > 0,
        index >= 0,
        !clear_at(index, stride),
    ensures
        index - stride >= 0,
        clear_at(index - stride, stride),
{
    let m = 2 * stride;
    lemma_fundamental_div_mod(index, m);
    lemma_mod_bound(index, m);
    let q = index / m;
    lemma_mul_nonnegative(m, q);
    lemma_mul_is_commutative(m, q);
    lemma_fundamental_div_mod_converse(index - stride, m, q, index % m - stride);
}

/// For the strides of two distinct qubits, moving from an index where the
/// target reads `0` to its partner does not change what the control reads.
pub proof fn lemma_partner_keeps_control(index: int, c: int, t: int)
    requires
        index >= 0,
        c > 0,
        t > 0,
        c != t,
        c < t ==> t % (2 * c) == 0,
        t < c ==> c % (2 * t) == 0,
        clear_at(index, t),
    ensures
        clear_at(index + t, c) == clear_at(index, c),
{
    if c < t {
        lemma_fundamental_div_mod(t, 2 * c);
        let k = t / (2 * c);
        lemma_mod_multiples_vanish(k, index, 2 * c);
    } else {
        let m = 2 * c;
        let tt = 2 * t;
        lemma_fundamental_div_mod(c, tt);
        let k = c / tt;
        assert(c == tt * k);
        assert(k > 0) by (nonlinear_arith)
            requires
                c == tt * k,
                c > 0,
                tt > 0,
        ;
        assert(m == tt * (2 * k)) by (nonlinear_arith)
            requires
                m == 2 * c,
                c == tt * k,
        ;
        lemma_fundamental_div_mod(index, m);
        lemma_mod_bound(index, m);
        let q = index / m;
        let r = index % m;
        lemma_mod_mod(index, tt, 2 * k);
        // r % tt == index % tt < t
        lemma_fundamental_div_mod(r, tt);
        lemma_mod_bound(r, tt);
        let a = r / tt;
        let b = r % tt;
        assert(b < t);
        assert(r == tt * a + b);
        assert(r + t < m) by (nonlinear_arith)
            requires
                r == tt * a + b,
                0 <= b < t,
                tt == 2 * t,
                r < m,
                m == tt * (2 * k),
                t > 0,
        ;
        lemma_mul_is_commutative(m, q);
        lemma_fundamental_div_mod_converse(index + t, m, q, r + t);
        assert(r < c ==> r + t < c) by (nonlinear_arith)
            requires
                r == tt * a + b,
                0 <= b < t,
                tt == 2 * t,
                c == tt * k,
                t > 0,
                r >= 0,
        ;
    }
}

/// `1 << k` is `2^k` for every `k` below the width of `usize`.
pub proof fn lemma_shift_is_pow2(k: usize)
    requires
        k < usize::BITS,
    ensures
        (1usize << k) as nat == pow2(k as nat),
        0 < pow2(k as nat) < usize::MAX,
        k + 1 < usize::BITS ==> 2 * pow2(k as nat) < usize::MAX,
{
    lemma_usize_pow2_no_overflow(k as nat);
    lemma_usize_shl_is_mul(1, k);
    if k + 1 < usize::BITS {
        lemma_usize_pow2_no_overflow((k + 1) as nat);
        lemma_pow2_unfold((k + 1) as nat);
    }
}

/// The strides of a register of `num_qubits` qubits, `num_qubits` below the
/// width of `usize`, partition its `2^num_qubits` amplitudes: twice a stride
/// divides the amplitude count and fits in `usize`.
pub proof fn lemma_register_stride(num_qubits: nat, target: nat)
    requires
        target < num_qubits < usize::BITS,
    ensures
        qubit_stride(num_qubits, target) > 0,
        2 * qubit_stride(num_qubits, target) <= pow2(num_qubits),
        pow2(num_qubits) < usize::MAX,
        pow2(num_qubits) % (2 * qubit_stride(num_qubits, target)) == 0,
{
    let k = (num_qubits - target - 1) as nat;
    lemma_pow2_pos(k);
    lemma_pow2_unfold(k + 1);
    lemma_pow2_adds(k + 1, target);
    lemma_pow2_pos(target);
    lemma_usize_pow2_no_overflow(num_qubits);
    assert(k + 1 + target == num_qubits);
    lemma_mul_increases(pow2(target) as int, pow2(k + 1) as int);
    lemma_mul_is_commutative(pow2(k + 1) as int, pow2(target) as int);
    lemma_mod_multiples_basic(pow2(target) as int, pow2(k + 1) as int);
}

/// The larger of two qubit strides is a multiple of twice the smaller.
pub proof fn lemma_strides_nest(num_qubits: nat, lower: nat, higher: nat)
    requires
        lower < higher < num_qubits,
    ensures
        qubit_stride(num_qubits, lower) % (2 * qubit_stride(num_qubits, higher)) == 0,
        qubit_stride(num_qubits, higher) < qubit_stride(num_qubits, lower),
{
    let a = (num_qubits - higher - 1) as nat;
    let b = (num_qubits - lower - 1) as nat;
    lemma_pow2_unfold(a + 1);
    lemma_pow2_adds(a + 1, (b - a - 1) as nat);
    lemma_pow2_pos((b - a - 1) as nat);
    lemma_pow2_pos(a);
    lemma_pow2_strictly_increases(a, b);
    lemma_mod_multiples_basic(pow2((b - a - 1) as nat) as int, pow2(a + 1) as int);
    lemma_mul_is_commutative(pow2(a + 1) as int, pow2((b - a - 1) as nat) as int);
}

/// Returns the stride of qubit `target` in a register of `num_qubits` qubits.
pub fn stride(num_qubits: usize, target: usize) -> (s: usize)
    requires
        target < num_qubits,
        num_qubits - target <= usize::BITS,
    ensures
        s as nat == qubit_stride(num_qubits as nat, target as nat),
        s > 0,
{
    proof {
        lemma_shift_is_pow2((num_qubits - target - 1) as usize);
    }
    1usize << (num_qubits - target - 1)
}

/// Returns whether `index` corresponds to a `|0⟩` state for `target`.
///
/// The statevector indices repeat in blocks where the target qubit is `0`
/// for `stride` indices followed by `stride` indices where it is `1`.
pub fn index_is_zero(num_qubits: usize, target: usize, index: usize) -> (r: bool)
    requires
        target < num_qubits,
        num_qubits - target < usize::BITS,
    ensures
        r == clear_at(index as int, qubit_stride(num_qubits as nat, target as nat) as int),
        r == (bit_at(index as int, qubit_stride(num_qubits as nat, target as nat) as int) == 0),
{
    let stride = stride(num_qubits, target);
    proof {
        lemma_shift_is_pow2((num_qubits - target - 1) as usize);
        lemma_clear_iff_bit_zero(index as int, stride as int);
    }
    let block_size = 2 * stride;

    // This gives the position relative to the pattern.
    let pos = index % block_size;

    // The range includes 0 and excludes stride.
    pos < stride
}

} // verus!
