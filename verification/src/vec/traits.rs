//! What a bit vector has in common with other values: copying,
//! comparison, conversion, a default.

use vstd::prelude::*;
use core::cmp::Ordering;
use vstd::std_specs::cmp::{PartialEqSpecImpl, PartialOrdSpecImpl};
use vstd::std_specs::convert::FromSpecImpl;
use wyz::pipe::Pipe;
use wyz::tap::Tap;
use crate::boxed::BitBox;
use crate::compare::{lex_order, Lex};
use crate::order::BitOrder;
use crate::pointer::{admissible, BitPtr};
use crate::slice::BitSlice;
use crate::store::BitStore;
use crate::vec::{grow_to, grown, lemma_room, BitVec};

verus! {

/// Calls `wyz::pipe::Pipe::pipe`, which hands its receiver to the function
/// it is given and returns what that function returns. The receiver is a
/// view and the function is `BitVec::from_bitslice` over the view's
/// buffer, so the contract is that of `from_bitslice`.
#[verifier::external_body]
fn pipe_into_bitvec<O: BitOrder, T: BitStore>(view: BitSlice<O, T>, store: &[T]) -> (v: BitVec<
    O,
    T,
>)
    requires
        view.within(store@.len()),
    ensures
        v.wf(),
        v@ == view.view_in(store@),
        v.head() == view.bitptr().head(),
        v.elements() == view.bitptr().elems(),
{
    view.pipe(|s| BitVec::from_bitslice(&s, store))
}

/// Calls `wyz::tap::Tap::tap_mut`, which lends its receiver mutably to the
/// function it is given and then returns the receiver. The receiver is a
/// descriptor and the function is `BitPtr::set_head`, so the result is the
/// descriptor with its head replaced.
#[verifier::external_body]
fn tap_set_head<T: BitStore>(ptr: BitPtr<T>, head: u8) -> (r: BitPtr<T>)
    requires
        admissible::<T>(ptr.base(), head as nat, ptr.bits()),
    ensures
        r == ptr.spec_set_head(head as nat),
{
    ptr.tap_mut(|p| p.set_head(head))
}

/// The standard ordering that stands for a dictionary order.
pub open spec fn ordering_of(l: Lex) -> Ordering {
    match l {
        Lex::Less => Ordering::Less,
        Lex::Equal => Ordering::Equal,
        Lex::Greater => Ordering::Greater,
    }
}

impl<O: BitOrder, T: BitStore> Clone for BitVec<O, T> {
    /// A vector of its own with the same bits at the same head, in a
    /// buffer with no spare room.
    fn clone(&self) -> (v: Self)
        ensures
            v@ == self@,
            v.head() == self.head(),
            v.elements() == self.needed(self@.len()),
    {
        pipe_into_bitvec(*self.as_bitslice(), self.as_slice())
    }
}

impl<O: BitOrder, T: BitStore> BitVec<O, T> {
    /// Makes this vector a copy of `other`. The buffer is kept where it is
    /// long enough and lengthened by the growth rule where it is not; it
    /// is never shortened. The elements that `other`'s bits touch are
    /// copied whole, and the head is set to `other`'s. What the
    /// buffer holds outside the live bits is not specified.
    pub fn clone_from(&mut self, other: &Self)
        ensures
            final(self).wf(),
            final(self)@ == other@,
            final(self).head() == other.head(),
            final(self).elements() == grown::<T>(old(self).elements(), other.needed(other@.len())),
            final(self).elements() >= old(self).elements(),
    {
        self.clear();
        let (mut buf, bits) = self.take();
        let from = other.as_bitslice();
        let src = other.as_slice();
        let count = from.as_bitptr().elements();
        let n = from.len();
        proof {
            other.lemma_capacity(0);
            lemma_room::<T>(other.head(), n as nat, other.elements());
            lemma_room::<T>(bits.bitptr().head(), n as nat, 0);
        }
        grow_to(&mut buf, count);
        let mut j: usize = 0;
        while j < count
            invariant
                j <= count,
                count <= buf@.len(),
                count <= src@.len(),
                buf@.len() == grown::<T>(old(self).elements(), count as nat),
                forall|k: int| 0 <= k < j ==> buf@[k] == src@[k],
            decreases count - j,
        {
            buf.as_mut_slice()[j] = src[j];
            j = j + 1;
        }
        let mut ptr = bits.as_bitptr();
        proof {
            ptr.lemma_fields();
            from.bitptr().lemma_fields();
        }
        ptr.set_len(n);
        let moved = tap_set_head(ptr, from.as_bitptr().first());
        proof {
            ptr.lemma_set_head(from.bitptr().head());
            moved.lemma_ext(from.bitptr());
        }
        let copy = BitSlice::<O, T>::from_bitptr(moved);
        proof {
            copy.lemma_same_elements(buf@, src@);
        }
        self.put(buf, copy);
    }

    /// Whether this vector shows the same bits as a view.
    pub fn eq_bitslice(&self, view: &BitSlice<O, T>, store: &[T]) -> (same: bool)
        requires
            view.within(store@.len()),
        ensures
            same == (self@ == view.view_in(store@)),
    {
        self.as_bitslice().equals(self.as_slice(), view, store)
    }

    /// The dictionary order of this vector's bits and another's.
    pub fn cmp(&self, other: &Self) -> (r: Ordering)
        ensures
            r == ordering_of(lex_order(self@, other@)),
    {
        match self.as_bitslice().compare(self.as_slice(), other.as_bitslice(), other.as_slice()) {
            Lex::Less => Ordering::Less,
            Lex::Equal => Ordering::Equal,
            Lex::Greater => Ordering::Greater,
        }
    }

    /// The dictionary order of this vector's bits and a view's.
    pub fn cmp_bitslice(&self, view: &BitSlice<O, T>, store: &[T]) -> (r: Ordering)
        requires
            view.within(store@.len()),
        ensures
            r == ordering_of(lex_order(self@, view.view_in(store@))),
    {
        match self.as_bitslice().compare(self.as_slice(), view, store) {
            Lex::Less => Ordering::Less,
            Lex::Equal => Ordering::Equal,
            Lex::Greater => Ordering::Greater,
        }
    }
}

impl<O: BitOrder, T: BitStore> PartialEq for BitVec<O, T> {
    /// Two vectors are equal when they hold the same bits in the same
    /// order, whatever their heads and their buffers.
    fn eq(&self, other: &Self) -> (same: bool) {
        self.as_bitslice().equals(self.as_slice(), other.as_bitslice(), other.as_slice())
    }
}

impl<O: BitOrder, T: BitStore> PartialEqSpecImpl for BitVec<O, T> {
    open spec fn obeys_eq_spec() -> bool {
        true
    }

    open spec fn eq_spec(&self, other: &Self) -> bool {
        self@ == other@
    }
}

impl<O: BitOrder, T: BitStore> Eq for BitVec<O, T> {

}

impl<O: BitOrder, T: BitStore> PartialOrd for BitVec<O, T> {
    /// Vectors are ordered as their bit sequences are in the dictionary.
    fn partial_cmp(&self, other: &Self) -> (r: Option<Ordering>) {
        Some(self.cmp(other))
    }
}

impl<O: BitOrder, T: BitStore> PartialOrdSpecImpl for BitVec<O, T> {
    open spec fn obeys_partial_cmp_spec() -> bool {
        true
    }

    open spec fn partial_cmp_spec(&self, other: &Self) -> Option<Ordering> {
        Some(ordering_of(lex_order(self@, other@)))
    }
}

impl<O: BitOrder, T: BitStore> From<BitBox<O, T>> for BitVec<O, T> {
    /// A box becomes a vector that holds the same bits in the same buffer.
    fn from(boxed: BitBox<O, T>) -> (v: Self)
        ensures
            v@ == boxed@,
            v.store() == boxed.store(),
            v.slice() == boxed.slice(),
    {
        boxed.into_bitvec()
    }
}

/// The conversion promises what `from` itself states, and nothing through
/// the conversion trait's own model.
impl<O: BitOrder, T: BitStore> FromSpecImpl<BitBox<O, T>> for BitVec<O, T> {
    open spec fn obeys_from_spec() -> bool {
        false
    }

    open spec fn from_spec(boxed: BitBox<O, T>) -> Self {
        arbitrary()
    }
}

impl<O: BitOrder, T: BitStore> Default for BitVec<O, T> {
    /// The empty vector, with no buffer.
    fn default() -> (v: Self)
        ensures
            v@ == Seq::<bool>::empty(),
            v.head() == 0,
            v.elements() == 0,
    {
        Self::new()
    }
}

} // verus!
