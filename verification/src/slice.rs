//! Views of bit regions.
//!
//! A view is a descriptor together with a bit order. It owns no storage:
//! every operation is handed the buffer that the view describes. Several
//! views may describe bits of the same element; a write through one of
//! them changes the bits of that view and leaves every other bit of the
//! buffer as it was.

use vstd::prelude::*;
use core::marker::PhantomData;
use crate::access::{write_bit, Access};
use crate::error::Error;
use crate::order::BitOrder;
use crate::pointer::{max_bits, BitPtr};
use crate::store::{bit, BitStore};

verus! {

/// A view of a bit region: its descriptor, read in the bit order `O`.
pub struct BitSlice<O: BitOrder, T: BitStore> {
    ptr: BitPtr<T>,
    order: PhantomData<O>,
}

impl<O: BitOrder, T: BitStore> Clone for BitSlice<O, T> {
    fn clone(&self) -> (r: Self)
        ensures
            r == *self,
    {
        *self
    }
}

impl<O: BitOrder, T: BitStore> Copy for BitSlice<O, T> {

}

impl<O: BitOrder, T: BitStore> BitSlice<O, T> {
    /// The descriptor of the viewed region.
    pub closed spec fn bitptr(self) -> BitPtr<T> {
        self.ptr
    }

    /// The view over the region that `ptr` describes.
    pub closed spec fn over(ptr: BitPtr<T>) -> Self {
        BitSlice { ptr, order: PhantomData }
    }

    /// The view's descriptor is well formed.
    pub open spec fn wf(self) -> bool {
        self.bitptr().wf()
    }

    /// The number of bits in the view.
    pub open spec fn bits(self) -> nat {
        self.bitptr().bits()
    }

    /// Whether the viewed region lies inside a buffer of `n` elements.
    pub open spec fn within(self, n: nat) -> bool {
        self.bitptr().within(n)
    }

    /// Bit `i` of the view, as a buffer holds it: the bit of the element
    /// that the descriptor names, at the position that the order gives.
    pub open spec fn bit_in(self, store: Seq<T>, i: nat) -> bool {
        bit(
            store[self.bitptr().elem_of(i) as int],
            O::position(T::width(), self.bitptr().index_of(i)),
        )
    }

    /// The bits of the view, in order, as a buffer holds them.
    pub open spec fn view_in(self, store: Seq<T>) -> Seq<bool> {
        Seq::new(self.bits(), |i: int| self.bit_in(store, i as nat))
    }

    /// Whether the bit at physical position `q` of element `j` is one of
    /// the view's bits.
    pub open spec fn holds(self, j: nat, q: nat) -> bool {
        q < T::width() && self.bitptr().covers(j, O::index_of(T::width(), q))
    }

    /// Whether two buffers agree on every bit that is not one of the
    /// view's.
    pub open spec fn frame(self, before: Seq<T>, after: Seq<T>) -> bool {
        &&& before.len() == after.len()
        &&& forall|j: int, q: nat|
            0 <= j < before.len() && q < T::width() && !self.holds(j as nat, q) ==> #[trigger] bit(
                after[j],
                q,
            ) == bit(before[j], q)
    }

    /// The place of bit `i` of the view belongs to the view, and to no
    /// other bit of it.
    pub proof fn lemma_place(self, i: nat, other: nat)
        requires
            i < self.bits(),
        ensures
            self.holds(
                self.bitptr().elem_of(i),
                O::position(T::width(), self.bitptr().index_of(i)),
            ),
            O::position(T::width(), self.bitptr().index_of(i)) < T::width(),
            other < self.bits() && other != i ==> (self.bitptr().elem_of(other)
                != self.bitptr().elem_of(i) || O::position(
                T::width(),
                self.bitptr().index_of(other),
            ) != O::position(T::width(), self.bitptr().index_of(i))),
    {
        T::lemma_width();
        let p = self.bitptr();
        p.lemma_locate(i);
        p.lemma_index_at(i);
        O::lemma_inverse(T::width(), p.index_of(i));
        if other < self.bits() && other != i {
            p.lemma_locate(other);
            p.lemma_locate_injective(i, other);
            O::lemma_inverse(T::width(), p.index_of(other));
        }
    }

    /// A change that stays inside another view's frame, where that view
    /// shares no bit with this one, leaves this view's bits as they were.
    pub proof fn lemma_isolated(self, writer: Self, before: Seq<T>, after: Seq<T>)
        requires
            self.within(before.len()),
            writer.frame(before, after),
            forall|j: nat, q: nat| !(self.holds(j, q) && writer.holds(j, q)),
        ensures
            self.view_in(after) == self.view_in(before),
    {
        assert forall|i: int| 0 <= i < self.bits() implies #[trigger] self.view_in(after)[i]
            == self.view_in(before)[i] by {
            self.lemma_place(i as nat, 0);
            self.bitptr().lemma_locate(i as nat);
            let j = self.bitptr().elem_of(i as nat);
            let q = O::position(T::width(), self.bitptr().index_of(i as nat));
            assert(!writer.holds(j, q));
            assert(bit(after[j as int], q) == bit(before[j as int], q));
        }
        assert(self.view_in(after) =~= self.view_in(before));
    }

    /// Two sub-ranges of one view that do not overlap share no bit, even
    /// where they share an element.
    pub proof fn lemma_disjoint(self, a: nat, k: nat, b: nat, m: nat, j: nat, q: nat)
        requires
            self.wf(),
            a + k <= b,
            b + m <= self.bits(),
        ensures
            !(Self::over(self.bitptr().spec_sub_range(a, k)).holds(j, q) && Self::over(
                self.bitptr().spec_sub_range(b, m),
            ).holds(j, q)),
    {
        T::lemma_width();
        let p = self.bitptr();
        let pa = p.spec_sub_range(a, k);
        let pb = p.spec_sub_range(b, m);
        let ix = O::index_of(T::width(), q);
        p.lemma_sub_range(a, k);
        p.lemma_sub_range(b, m);
        if q < T::width() && pa.covers(j, ix) && pb.covers(j, ix) {
            pa.lemma_covers(j, ix);
            pb.lemma_covers(j, ix);
            let ia = pa.index_at(j, ix) as nat;
            let ib = pb.index_at(j, ix) as nat;
            p.lemma_sub_range_locates(a, k, ia);
            p.lemma_sub_range_locates(b, m, ib);
            p.lemma_locate_injective(a + ia, b + ib);
        }
    }

    /// A change that stays inside the frame of one sub-range of a view
    /// leaves every sub-range that does not overlap it as it was, even
    /// where the two share an element.
    pub proof fn lemma_sub_ranges_isolated(
        self,
        a: nat,
        k: nat,
        b: nat,
        m: nat,
        before: Seq<T>,
        after: Seq<T>,
    )
        requires
            self.wf(),
            self.within(before.len()),
            a + k <= self.bits(),
            b + m <= self.bits(),
            a + k <= b || b + m <= a,
            Self::over(self.bitptr().spec_sub_range(a, k)).frame(before, after),
        ensures
            Self::over(self.bitptr().spec_sub_range(b, m)).view_in(after) == Self::over(
                self.bitptr().spec_sub_range(b, m),
            ).view_in(before),
    {
        let writer = Self::over(self.bitptr().spec_sub_range(a, k));
        let other = Self::over(self.bitptr().spec_sub_range(b, m));
        self.bitptr().lemma_sub_range(b, m);
        assert forall|j: nat, q: nat| !(other.holds(j, q) && writer.holds(j, q)) by {
            if a + k <= b {
                self.lemma_disjoint(a, k, b, m, j, q);
            } else {
                self.lemma_disjoint(b, m, a, k, j, q);
            }
        }
        other.lemma_isolated(writer, before, after);
    }

    /// The view's bits depend only on the elements that it touches: two
    /// buffers that hold the same elements there show the same bits.
    pub proof fn lemma_same_elements(self, a: Seq<T>, b: Seq<T>)
        requires
            forall|j: int|
                self.bitptr().elem() <= j < self.bitptr().elem() + self.bitptr().elems() ==> a[j]
                    == b[j],
        ensures
            self.view_in(a) == self.view_in(b),
    {
        assert forall|i: int| 0 <= i < self.bits() implies #[trigger] self.view_in(a)[i]
            == self.view_in(b)[i] by {
            self.bitptr().lemma_locate(i as nat);
        }
        assert(self.view_in(a) =~= self.view_in(b));
    }

    /// A longer view from the same first bit shows the bits of the shorter
    /// one first.
    pub proof fn lemma_prefix(self, longer: Self, store: Seq<T>)
        requires
            self.bitptr().elem() == longer.bitptr().elem(),
            self.bitptr().head() == longer.bitptr().head(),
            self.bits() <= longer.bits(),
        ensures
            self.view_in(store) == longer.view_in(store).take(self.bits() as int),
    {
        assert(self.view_in(store) =~= longer.view_in(store).take(self.bits() as int));
    }

    /// Makes the view of the region that a descriptor names.
    pub fn from_bitptr(ptr: BitPtr<T>) -> (s: Self)
        ensures
            s == Self::over(ptr),
            s.bitptr() == ptr,
    {
        BitSlice { ptr, order: PhantomData }
    }

    /// The descriptor of the viewed region.
    pub fn as_bitptr(&self) -> (ptr: BitPtr<T>)
        ensures
            ptr == self.bitptr(),
            self.wf(),
    {
        proof {
            use_type_invariant(&self.ptr);
        }
        self.ptr
    }

    /// The number of bits in the view.
    pub fn len(&self) -> (n: usize)
        ensures
            n == self.bits(),
            n <= max_bits(),
            self.wf(),
    {
        self.ptr.len()
    }

    /// Whether the view holds no bit.
    pub fn is_empty(&self) -> (b: bool)
        ensures
            b == (self.bits() == 0),
    {
        self.ptr.len() == 0
    }

    /// Reads bit `index` of the view. Fails with `IndexOutOfRange` when the
    /// view has no such bit.
    pub fn get(&self, store: &[T], index: usize) -> (r: Result<bool, Error>)
        requires
            self.within(store@.len()),
        ensures
            index < self.bits() ==> r == Ok::<bool, Error>(self.view_in(store@)[index as int]),
            index >= self.bits() ==> r == Err::<bool, Error>(Error::IndexOutOfRange),
    {
        if index >= self.ptr.len() {
            return Err(Error::IndexOutOfRange);
        }
        proof {
            T::lemma_width();
        }
        let (e, k) = self.ptr.locate(index);
        let pos = O::at(T::bits(), k);
        proof {
            O::lemma_inverse(T::width(), k as nat);
        }
        Ok(store[e].test(pos))
    }

    /// Writes bit `index` of the view under the given kind of access and
    /// leaves every other bit of the buffer as it was. Fails with
    /// `IndexOutOfRange`, and changes nothing, when the view has no such
    /// bit.
    pub fn set_with(&self, store: &mut [T], index: usize, value: bool, access: Access) -> (r:
        Result<(), Error>)
        requires
            self.within(old(store)@.len()),
        ensures
            final(store)@.len() == old(store)@.len(),
            index < self.bits() ==> r is Ok && self.view_in(final(store)@) == self.view_in(
                old(store)@,
            ).update(index as int, value) && self.frame(old(store)@, final(store)@),
            index >= self.bits() ==> r == Err::<(), Error>(Error::IndexOutOfRange) && final(store)@ == old(store)@,
    {
        if index >= self.ptr.len() {
            return Err(Error::IndexOutOfRange);
        }
        proof {
            T::lemma_width();
        }
        let (e, k) = self.ptr.locate(index);
        let pos = O::at(T::bits(), k);
        proof {
            O::lemma_inverse(T::width(), k as nat);
        }
        let mut cur = store[e];
        write_bit(&mut cur, pos, value, access);
        store[e] = cur;
        proof {
            let before = old(store)@;
            let after = store@;
            self.lemma_place(index as nat, 0);
            assert forall|i: int| 0 <= i < self.bits() implies #[trigger] self.view_in(after)[i]
                == self.view_in(before).update(index as int, value)[i] by {
                self.lemma_place(index as nat, i as nat);
                self.bitptr().lemma_locate(i as nat);
                self.lemma_place(i as nat, 0);
            }
            assert(self.view_in(after) =~= self.view_in(before).update(index as int, value));
            assert forall|j: int, q: nat|
                0 <= j < before.len() && q < T::width() && !self.holds(
                    j as nat,
                    q,
                ) implies #[trigger] bit(after[j], q) == bit(before[j], q) by {
                if j == e {
                    assert(q != pos);
                }
            }
        }
        Ok(())
    }

    /// Writes bit `index` of the view as one of several views that may
    /// share elements, and leaves every other bit of the buffer as it was.
    /// Fails with `IndexOutOfRange`, and changes nothing, when the view has
    /// no such bit.
    pub fn set(&self, store: &mut [T], index: usize, value: bool) -> (r: Result<(), Error>)
        requires
            self.within(old(store)@.len()),
        ensures
            final(store)@.len() == old(store)@.len(),
            index < self.bits() ==> r is Ok && self.view_in(final(store)@) == self.view_in(
                old(store)@,
            ).update(index as int, value) && self.frame(old(store)@, final(store)@),
            index >= self.bits() ==> r == Err::<(), Error>(Error::IndexOutOfRange) && final(store)@ == old(store)@,
    {
        self.set_with(store, index, value, Access::Shared)
    }

    /// The view of the bits `offset..offset + length` of this view. Fails
    /// with `OutOfBounds` when the range reaches past the end of the view.
    pub fn sub_range(&self, offset: usize, length: usize) -> (r: Result<Self, Error>)
        ensures
            self.wf(),
            r is Ok <==> offset + length <= self.bits(),
            r matches Ok(s) ==> {
                &&& s == Self::over(self.bitptr().spec_sub_range(offset as nat, length as nat))
                &&& s.wf()
                &&& s.bits() == length
                &&& forall|n: nat| self.within(n) ==> #[trigger] s.within(n)
                &&& forall|store: Seq<T>| #[trigger]
                    s.view_in(store) == self.view_in(store).subrange(
                        offset as int,
                        offset + length,
                    )
            },
            r matches Err(e) ==> e == Error::OutOfBounds,
    {
        match self.ptr.sub_range(offset, length) {
            Ok(ptr) => {
                let s = BitSlice { ptr, order: PhantomData };
                proof {
                    self.bitptr().lemma_sub_range(offset as nat, length as nat);
                    assert forall|store: Seq<T>| #[trigger]
                        s.view_in(store) == self.view_in(store).subrange(
                            offset as int,
                            offset + length,
                        ) by {
                        self.lemma_sub_range_view(offset as nat, length as nat, store);
                    }
                }
                Ok(s)
            },
            Err(_) => Err(Error::OutOfBounds),
        }
    }

    /// A sub-range of a view shows exactly the bits of the view that lie in
    /// its range.
    pub proof fn lemma_sub_range_view(self, offset: nat, length: nat, store: Seq<T>)
        requires
            self.wf(),
            offset + length <= self.bits(),
        ensures
            Self::over(self.bitptr().spec_sub_range(offset, length)).view_in(store)
                == self.view_in(store).subrange(offset as int, (offset + length) as int),
    {
        let p = self.bitptr();
        let s = Self::over(p.spec_sub_range(offset, length));
        p.lemma_sub_range(offset, length);
        assert forall|j: int| 0 <= j < length implies #[trigger] s.view_in(store)[j]
            == self.view_in(store).subrange(offset as int, (offset + length) as int)[j] by {
            p.lemma_sub_range_locates(offset, length, j as nat);
        }
        assert(s.view_in(store) =~= self.view_in(store).subrange(offset as int, (offset + length) as int));
    }

    /// Taking a sub-range of a sub-range of a view is taking one sub-range
    /// at the sum of the offsets.
    pub proof fn lemma_sub_range_composes(self, a: nat, k: nat, c: nat, m: nat)
        requires
            self.wf(),
            a + k <= self.bits(),
            c + m <= k,
        ensures
            Self::over(
                Self::over(self.bitptr().spec_sub_range(a, k)).bitptr().spec_sub_range(c, m),
            ) == Self::over(self.bitptr().spec_sub_range(a + c, m)),
    {
        self.bitptr().lemma_sub_range_composes(a, k, c, m);
    }

    /// The bits of the view, collected in order.
    pub fn to_vec(&self, store: &[T]) -> (bits: Vec<bool>)
        requires
            self.within(store@.len()),
        ensures
            bits@ == self.view_in(store@),
    {
        let n = self.ptr.len();
        let mut bits: Vec<bool> = Vec::new();
        let mut i: usize = 0;
        while i < n
            invariant
                self.within(store@.len()),
                n == self.bits(),
                i <= n,
                bits@ == self.view_in(store@).take(i as int),
            decreases n - i,
        {
            match self.get(store, i) {
                Ok(b) => {
                    bits.push(b);
                },
                Err(_) => {
                    proof {
                        assert(false);
                    }
                },
            }
            proof {
                assert(self.view_in(store@).take(i + 1) =~= self.view_in(store@).take(
                    i as int,
                ).push(self.view_in(store@)[i as int]));
            }
            i = i + 1;
        }
        proof {
            assert(self.view_in(store@).take(n as int) =~= self.view_in(store@));
        }
        bits
    }
}

} // verus!
