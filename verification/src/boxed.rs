//! The owning bit buffer of fixed size.
//!
//! A box owns exactly the elements that its bits touch: it has no room to
//! grow. It is made from a vector by dropping the spare elements, and
//! gives them up again by becoming a vector.

use vstd::prelude::*;
use crate::error::Error;
use crate::order::BitOrder;
use crate::slice::BitSlice;
use crate::store::BitStore;
use crate::vec::{max_elems, BitVec};

verus! {

/// A sequence of bits in a buffer of fixed size, stored in elements of
/// type `T` in the bit order `O`.
pub struct BitBox<O: BitOrder, T: BitStore> {
    buf: Vec<T>,
    bits: BitSlice<O, T>,
}

impl<O: BitOrder, T: BitStore> View for BitBox<O, T> {
    type V = Seq<bool>;

    /// The bits, in order.
    open spec fn view(&self) -> Seq<bool> {
        self.slice().view_in(self.store())
    }
}

impl<O: BitOrder, T: BitStore> BitBox<O, T> {
    /// The elements of the buffer.
    pub closed spec fn store(&self) -> Seq<T> {
        self.buf@
    }

    /// The view of the bits.
    pub closed spec fn slice(&self) -> BitSlice<O, T> {
        self.bits
    }

    /// The bits start in the buffer's first element and touch every
    /// element of the buffer.
    pub open spec fn wf(&self) -> bool {
        &&& self.slice().wf()
        &&& self.slice().bitptr().elem() == 0
        &&& self.store().len() == self.slice().bitptr().elems()
        &&& self.store().len() <= max_elems::<T>()
    }

    /// Every box that a program holds is well formed.
    #[verifier::type_invariant]
    pub open spec fn inv(self) -> bool {
        self.wf()
    }

    /// Makes a box that owns a copy of the bits of a view.
    pub fn from_bitslice(view: &BitSlice<O, T>, store: &[T]) -> (b: Self)
        requires
            view.within(store@.len()),
        ensures
            b.wf(),
            b@ == view.view_in(store@),
            b.slice().bitptr().head() == view.bitptr().head(),
    {
        BitVec::from_bitslice(view, store).into_boxed_bitslice()
    }

    /// The number of bits.
    pub fn len(&self) -> (n: usize)
        ensures
            n == self@.len(),
    {
        self.bits.len()
    }

    /// The view of the bits. It lies inside the box's buffer.
    pub fn as_bitslice(&self) -> (s: &BitSlice<O, T>)
        ensures
            *s == self.slice(),
            s.wf(),
            s.within(self.store().len()),
            s.view_in(self.store()) == self@,
            self.wf(),
    {
        proof {
            use_type_invariant(self);
        }
        &self.bits
    }

    /// The elements of the buffer.
    pub fn as_slice(&self) -> (elems: &[T])
        ensures
            elems@ == self.store(),
    {
        self.buf.as_slice()
    }

    /// Reads bit `index`. Fails with `IndexOutOfRange` when the box has no
    /// such bit.
    pub fn get(&self, index: usize) -> (r: Result<bool, Error>)
        ensures
            index < self@.len() ==> r == Ok::<bool, Error>(self@[index as int]),
            index >= self@.len() ==> r == Err::<bool, Error>(Error::IndexOutOfRange),
    {
        proof {
            use_type_invariant(self);
        }
        self.bits.get(self.buf.as_slice(), index)
    }

    /// Turns the box into a vector that holds the same bits in the same
    /// buffer, with no spare room.
    pub fn into_bitvec(self) -> (v: BitVec<O, T>)
        ensures
            v.wf(),
            v@ == self@,
            v.store() == self.store(),
            v.slice() == self.slice(),
    {
        proof {
            use_type_invariant(&self);
        }
        let BitBox { buf, bits } = self;
        BitVec::from_parts(buf, bits)
    }
}

impl<O: BitOrder, T: BitStore> BitVec<O, T> {
    /// Turns the vector into a box that holds the same bits, and gives up
    /// the elements of the buffer that no live bit touches.
    pub fn into_boxed_bitslice(self) -> (b: BitBox<O, T>)
        ensures
            b.wf(),
            b@ == self@,
            b.slice() == self.slice(),
    {
        let (mut buf, bits) = self.into_parts();
        let ghost before = buf@;
        let keep = bits.as_bitptr().elements();
        buf.truncate(keep);
        proof {
            bits.lemma_same_elements(before, buf@);
        }
        BitBox { buf, bits }
    }
}

} // verus!
