//! A dense vector.

use vstd::prelude::*;

verus! {

/// A dense vector of elements.
#[derive(Debug)]
pub struct Vector<E> {
    elements: Vec<E>,
}

impl<E> View for Vector<E> {
    type V = Seq<E>;

    closed spec fn view(&self) -> Seq<E> {
        self.elements@
    }
}

impl<E: Copy> Vector<E> {
    /// Creates a vector of `len` copies of `zero`.
    pub fn zeros(len: usize, zero: E) -> (v: Self)
        ensures
            v@ == Seq::new(len as nat, |i: int| zero),
    {
        let mut elements: Vec<E> = Vec::with_capacity(len);
        let mut i: usize = 0;
        while i < len
            invariant
                i <= len,
                elements@ == Seq::new(i as nat, |k: int| zero),
            decreases len - i,
        {
            elements.push(zero);
            i = i + 1;
        }
        Self { elements }
    }

    /// Creates a vector holding `elements` in order.
    pub fn from_elements<const N: usize>(elements: [E; N]) -> (v: Self)
        ensures
            v@ == elements@,
    {
        let mut out: Vec<E> = Vec::with_capacity(N);
        let mut i: usize = 0;
        while i < N
            invariant
                i <= N,
                N == elements@.len(),
                out@ == elements@.subrange(0, i as int),
            decreases N - i,
        {
            out.push(elements[i]);
            i = i + 1;
        }
        assert(out@ =~= elements@);
        Self { elements: out }
    }

    /// Returns the number of elements.
    pub fn len(&self) -> (n: usize)
        ensures
            n == self@.len(),
    {
        self.elements.len()
    }

    /// Returns the element at `index`.
    pub fn get(&self, index: usize) -> (e: &E)
        requires
            index < self@.len(),
        ensures
            *e == self@[index as int],
    {
        &self.elements[index]
    }

    /// Returns a mutable reference to the element at `index`.
    pub fn get_mut(&mut self, index: usize) -> (e: &mut E)
        requires
            index < old(self)@.len(),
        ensures
            *e == old(self)@[index as int],
            final(self)@ == old(self)@.update(index as int, *final(e)),
    {
        &mut self.elements[index]
    }

    /// Returns the elements as a slice.
    pub fn as_slice(&self) -> (s: &[E])
        ensures
            s@ == self@,
    {
        self.elements.as_slice()
    }

    /// Returns the elements as a mutable slice.
    pub fn as_mut_slice(&mut self) -> (s: &mut [E])
        ensures
            s@ == old(self)@,
            final(s)@ == final(self)@,
    {
        self.elements.as_mut_slice()
    }
}

} // verus!
