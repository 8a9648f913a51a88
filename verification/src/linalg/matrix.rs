//! A dense square matrix stored row by row.

use vstd::prelude::*;

verus! {

/// A dense `size` × `size` matrix, stored row by row.
#[derive(Debug)]
pub struct SquareMatrix<E> {
    elements: Vec<E>,
    size: usize,
}

/// The position of entry (`row`, `col`) of a `size` × `size` matrix stored
/// row by row.
pub open spec fn flat_index(row: int, col: int, size: int) -> int {
    row * size + col
}

/// Every entry of a `size` × `size` matrix has its own position below
/// `size * size`.
pub proof fn lemma_flat_index_bounds(row: int, col: int, size: int)
    requires
        0 <= row < size,
        0 <= col < size,
    ensures
        0 <= flat_index(row, col, size) < size * size,
        flat_index(row, col, size) / size == row,
        flat_index(row, col, size) % size == col,
{
    assert(0 <= row * size + col < size * size) by (nonlinear_arith)
        requires
            0 <= row < size,
            0 <= col < size,
    ;
    vstd::arithmetic::div_mod::lemma_fundamental_div_mod_converse(row * size + col, size, row, col);
}

impl<E> View for SquareMatrix<E> {
    type V = Seq<Seq<E>>;

    /// The rows of the matrix.
    closed spec fn view(&self) -> Seq<Seq<E>> {
        Seq::new(
            self.size as nat,
            |r: int| Seq::new(self.size as nat, |c: int| self.elements@[flat_index(r, c, self.size as int)]),
        )
    }
}

impl<E: Copy> SquareMatrix<E> {
    /// The storage holds exactly `size * size` entries.
    pub closed spec fn wf(&self) -> bool {
        self.elements@.len() == self.size * self.size
    }

    /// Creates a `size` × `size` matrix whose entries are all `zero`.
    pub fn zero(size: usize, zero: E) -> (m: Self)
        requires
            size * size <= usize::MAX,
        ensures
            m.wf(),
            m@ == Seq::new(size as nat, |r: int| Seq::new(size as nat, |c: int| zero)),
    {
        let total = size * size;
        let mut elements: Vec<E> = Vec::with_capacity(total);
        let mut i: usize = 0;
        while i < total
            invariant
                i <= total,
                elements@ == Seq::new(i as nat, |k: int| zero),
            decreases total - i,
        {
            elements.push(zero);
            i = i + 1;
        }
        let m = Self { elements, size };
        proof {
            assert forall|r: int, c: int| 0 <= r < size && 0 <= c < size implies #[trigger] m@[r][c]
                == zero by {
                lemma_flat_index_bounds(r, c, size as int);
            }
            assert(m@ =~~= Seq::new(size as nat, |r: int| Seq::new(size as nat, |c: int| zero)));
        }
        m
    }

    /// Constructs an N×N `SquareMatrix` from a 2D array of entries.
    pub fn from_array_2<const N: usize>(entries: [[E; N]; N]) -> (m: Self)
        requires
            N * N <= usize::MAX,
        ensures
            m.wf(),
            m@.len() == N,
            forall|r: int, c: int| 0 <= r < N && 0 <= c < N ==> #[trigger] m@[r][c] == entries@[r]@[c],
    {
        let mut elements: Vec<E> = Vec::with_capacity(N * N);
        let mut r: usize = 0;
        while r < N
            invariant
                r <= N,
                N * N <= usize::MAX,
                entries@.len() == N,
                elements@.len() == r * N,
                forall|i: int, j: int|
                    0 <= i < r && 0 <= j < N ==> #[trigger] elements@[flat_index(i, j, N as int)]
                        == entries@[i]@[j],
            decreases N - r,
        {
            let row = entries[r];
            let mut c: usize = 0;
            while c < N
                invariant
                    r < N,
                    c <= N,
                    N * N <= usize::MAX,
                    entries@.len() == N,
                    row@ == entries@[r as int]@,
                    row@.len() == N,
                    elements@.len() == r * N + c,
                    forall|i: int, j: int|
                        0 <= i < r && 0 <= j < N ==> #[trigger] elements@[flat_index(i, j, N as int)]
                            == entries@[i]@[j],
                    forall|j: int| 0 <= j < c ==> #[trigger] elements@[flat_index(r as int, j, N as int)] == row@[j],
                decreases N - c,
            {
                proof {
                    lemma_flat_index_bounds(r as int, c as int, N as int);
                }
                let ghost before = elements@;
                elements.push(row[c]);
                proof {
                    assert forall|i: int, j: int|
                        0 <= i < r && 0 <= j < N implies #[trigger] elements@[flat_index(i, j, N as int)]
                        == entries@[i]@[j] by {
                        lemma_flat_index_bounds(i, j, N as int);
                        assert(flat_index(i, j, N as int) < r * N) by (nonlinear_arith)
                            requires
                                0 <= i < r,
                                0 <= j < N,
                        ;
                        assert(elements@[flat_index(i, j, N as int)] == before[flat_index(i, j, N as int)]);
                    }
                    assert forall|j: int| 0 <= j < c + 1 implies #[trigger] elements@[flat_index(
                        r as int,
                        j,
                        N as int,
                    )] == row@[j] by {
                        if j < c {
                            assert(elements@[flat_index(r as int, j, N as int)] == before[flat_index(
                                r as int,
                                j,
                                N as int,
                            )]);
                        }
                    }
                }
                c = c + 1;
            }
            proof {
                assert((r + 1) * N == r * N + N) by (nonlinear_arith);
            }
            r = r + 1;
        }
        let m = Self { elements, size: N };
        proof {
            assert(N * N == N * N);
            assert forall|i: int, j: int| 0 <= i < N && 0 <= j < N implies #[trigger] m@[i][j]
                == entries@[i]@[j] by {
                lemma_flat_index_bounds(i, j, N as int);
            }
        }
        m
    }

    /// Returns the number of rows, which is also the number of columns.
    pub fn size(&self) -> (n: usize)
        ensures
            n == self@.len(),
    {
        self.size
    }

    /// Returns the entry in `row` and `col`.
    pub fn get(&self, row: usize, col: usize) -> (e: &E)
        requires
            self.wf(),
            row < self@.len(),
            col < self@.len(),
        ensures
            *e == self@[row as int][col as int],
    {
        let _len = self.elements.len();
        proof {
            lemma_flat_index_bounds(row as int, col as int, self.size as int);
        }
        &self.elements[row * self.size + col]
    }

    /// Returns a mutable reference to the entry in `row` and `col`.
    pub fn get_mut(&mut self, row: usize, col: usize) -> (e: &mut E)
        requires
            old(self).wf(),
            row < old(self)@.len(),
            col < old(self)@.len(),
        ensures
            *e == old(self)@[row as int][col as int],
            final(self).wf(),
            final(self)@ == old(self)@.update(
                row as int,
                old(self)@[row as int].update(col as int, *final(e)),
            ),
    {
        let _len = self.elements.len();
        proof {
            lemma_flat_index_bounds(row as int, col as int, self.size as int);
            let n = self.size as int;
            assert forall|i: int, j: int|
                0 <= i < n && 0 <= j < n && flat_index(i, j, n) == flat_index(
                    row as int,
                    col as int,
                    n,
                ) implies i == row && j == col by {
                lemma_flat_index_bounds(i, j, n);
            }
        }
        let ghost before = *self;
        let e = &mut self.elements[row * self.size + col];
        proof {
            let n = self.size as int;
            let target = before@.update(row as int, before@[row as int].update(col as int, *final(e)));
            assert forall|i: int, j: int| 0 <= i < n && 0 <= j < n implies #[trigger] after_borrow(
                *self,
            )@[i][j] == target[i][j] by {
                lemma_flat_index_bounds(i, j, n);
            }
            assert(after_borrow(*self)@ =~~= target);
        }
        e
    }
}

/// Entry (`i`·`b_size` + `k`, `j`·`b_size` + `l`) of `r` is what `product` may
/// return for entry (`i`, `j`) of `a` and entry (`k`, `l`) of `b`.
pub open spec fn kron_entry<E, M: Fn(E, E) -> E>(
    product: M,
    a: Seq<Seq<E>>,
    b: Seq<Seq<E>>,
    r: Seq<Seq<E>>,
    i: int,
    j: int,
    k: int,
    l: int,
) -> bool {
    call_ensures(product, (a[i][j], b[k][l]), r[i * b.len() + k][j * b.len() + l])
}

/// Two different entry pairs of the factors land on different entries of a
/// Kronecker product.
proof fn lemma_kron_positions(i1: int, k1: int, i2: int, k2: int, bs: int)
    requires
        0 <= k1 < bs,
        0 <= k2 < bs,
        i1 >= 0,
        i2 >= 0,
        i1 * bs + k1 == i2 * bs + k2,
    ensures
        i1 == i2,
        k1 == k2,
{
    vstd::arithmetic::div_mod::lemma_fundamental_div_mod_converse(i1 * bs + k1, bs, i1, k1);
    vstd::arithmetic::div_mod::lemma_fundamental_div_mod_converse(i2 * bs + k2, bs, i2, k2);
}

/// A position `i * bs + k` of the product lies within its `as * bs` rows.
proof fn lemma_kron_bound(i: int, k: int, a_size: int, bs: int)
    requires
        0 <= i < a_size,
        0 <= k < bs,
    ensures
        0 <= i * bs + k < a_size * bs,
{
    assert(0 <= i * bs + k < a_size * bs) by (nonlinear_arith)
        requires
            0 <= i < a_size,
            0 <= k < bs,
    ;
}

/// Returns the Kronecker product of two square matrices, whose entries are
/// what `product` returns for an entry of `a` and an entry of `b`.
pub fn kronecker_product<E: Copy, M: Fn(E, E) -> E>(
    a: &SquareMatrix<E>,
    b: &SquareMatrix<E>,
    zero: E,
    product: &M,
) -> (result: SquareMatrix<E>)
    requires
        a.wf(),
        b.wf(),
        a@.len() * b@.len() <= usize::MAX,
        (a@.len() * b@.len()) * (a@.len() * b@.len()) <= usize::MAX,
        forall|x: E, y: E| call_requires(*product, (x, y)),
    ensures
        result.wf(),
        result@.len() == a@.len() * b@.len(),
        forall|i: int, j: int, k: int, l: int|
            0 <= i < a@.len() && 0 <= j < a@.len() && 0 <= k < b@.len() && 0 <= l < b@.len()
                ==> #[trigger] kron_entry(*product, a@, b@, result@, i, j, k, l),
{
    let a_size = a.size();
    let b_size = b.size();
    let ghost bs = b_size as int;
    let ghost sa = a@;
    let ghost sb = b@;

    let mut result = SquareMatrix::zero(a_size * b_size, zero);

    let mut i: usize = 0;
    while i < a_size
        invariant
            a_size == sa.len(),
            b_size == sb.len() == bs,
            sa == a@,
            sb == b@,
            a.wf(),
            b.wf(),
            result.wf(),
            result@.len() == a_size * b_size,
            forall|x: E, y: E| call_requires(*product, (x, y)),
            i <= a_size,
            forall|i2: int, j2: int, k2: int, l2: int|
                0 <= i2 < i && 0 <= j2 < a_size && 0 <= k2 < b_size && 0 <= l2 < b_size
                    ==> #[trigger] kron_entry(*product, sa, sb, result@, i2, j2, k2, l2),
        decreases a_size - i,
    {
        let mut j: usize = 0;
        while j < a_size
            invariant
                a_size == sa.len(),
                b_size == sb.len() == bs,
                sa == a@,
                sb == b@,
                a.wf(),
                b.wf(),
                result.wf(),
                result@.len() == a_size * b_size,
                forall|x: E, y: E| call_requires(*product, (x, y)),
                i < a_size,
                j <= a_size,
                forall|i2: int, j2: int, k2: int, l2: int|
                    0 <= i2 < a_size && 0 <= j2 < a_size && 0 <= k2 < b_size && 0 <= l2 < b_size
                        && (i2 < i || (i2 == i && j2 < j)) ==> #[trigger] kron_entry(
                        *product,
                        sa,
                        sb,
                        result@,
                        i2,
                        j2,
                        k2,
                        l2,
                    ),
            decreases a_size - j,
        {
            let mut k: usize = 0;
            while k < b_size
                invariant
                    a_size == sa.len(),
                    b_size == sb.len() == bs,
                    sa == a@,
                    sb == b@,
                    a.wf(),
                    b.wf(),
                    result.wf(),
                    result@.len() == a_size * b_size,
                    forall|x: E, y: E| call_requires(*product, (x, y)),
                    i < a_size,
                    j < a_size,
                    k <= b_size,
                    forall|i2: int, j2: int, k2: int, l2: int|
                        0 <= i2 < a_size && 0 <= j2 < a_size && 0 <= k2 < b_size && 0 <= l2 < b_size
                            && (i2 < i || (i2 == i && j2 < j) || (i2 == i && j2 == j && k2 < k))
                            ==> #[trigger] kron_entry(*product, sa, sb, result@, i2, j2, k2, l2),
                decreases b_size - k,
            {
                let mut l: usize = 0;
                while l < b_size
                    invariant
                        a_size == sa.len(),
                        b_size == sb.len() == bs,
                        sa == a@,
                        sb == b@,
                        a.wf(),
                        b.wf(),
                        result.wf(),
                        result@.len() == a_size * b_size,
                        forall|x: E, y: E| call_requires(*product, (x, y)),
                        i < a_size,
                        j < a_size,
                        k < b_size,
                        l <= b_size,
                        forall|i2: int, j2: int, k2: int, l2: int|
                            0 <= i2 < a_size && 0 <= j2 < a_size && 0 <= k2 < b_size && 0 <= l2
                                < b_size && (i2 < i || (i2 == i && j2 < j) || (i2 == i && j2 == j
                                && k2 < k) || (i2 == i && j2 == j && k2 == k && l2 < l))
                                ==> #[trigger] kron_entry(*product, sa, sb, result@, i2, j2, k2, l2),
                    decreases b_size - l,
                {
                    proof {
                        lemma_kron_bound(i as int, k as int, a_size as int, bs);
                        lemma_kron_bound(j as int, l as int, a_size as int, bs);
                    }
                    let row = i * b_size + k;
                    let col = j * b_size + l;
                    let value = product(*a.get(i, j), *b.get(k, l));
                    let ghost before = result@;
                    *result.get_mut(row, col) = value;
                    proof {
                        assert forall|i2: int, j2: int, k2: int, l2: int|
                            0 <= i2 < a_size && 0 <= j2 < a_size && 0 <= k2 < b_size && 0 <= l2
                                < b_size && (i2 < i || (i2 == i && j2 < j) || (i2 == i && j2 == j
                                && k2 < k) || (i2 == i && j2 == j && k2 == k && l2 < l + 1))
                                implies #[trigger] kron_entry(*product, sa, sb, result@, i2, j2, k2, l2) by {
                            lemma_kron_bound(i2, k2, a_size as int, bs);
                            lemma_kron_bound(j2, l2, a_size as int, bs);
                            if i2 == i && j2 == j && k2 == k && l2 == l {
                            } else {
                                assert(kron_entry(*product, sa, sb, before, i2, j2, k2, l2));
                                if i2 * bs + k2 == row && j2 * bs + l2 == col {
                                    lemma_kron_positions(i2, k2, i as int, k as int, bs);
                                    lemma_kron_positions(j2, l2, j as int, l as int, bs);
                                }
                                assert(result@[i2 * bs + k2][j2 * bs + l2] == before[i2 * bs
                                    + k2][j2 * bs + l2]);
                            }
                        }
                    }
                    l = l + 1;
                }
                k = k + 1;
            }
            j = j + 1;
        }
        i = i + 1;
    }

    result
}

} // verus!
