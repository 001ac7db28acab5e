//! Bit-by-bit iteration over a view.
//!
//! An iterator reads a view from its first bit to its last and yields each
//! bit once. It borrows the buffer and changes nothing, so a view can be
//! walked again from the start as often as wanted.

use vstd::prelude::*;
use crate::order::BitOrder;
use crate::slice::BitSlice;
use crate::store::BitStore;
use crate::vec::BitVec;

verus! {

/// The bits of a view that are still to come, front first.
pub struct Iter<'a, O: BitOrder, T: BitStore> {
    store: &'a [T],
    view: BitSlice<O, T>,
    at: usize,
}

impl<'a, O: BitOrder, T: BitStore> Iter<'a, O, T> {
    /// The bits that the iterator has not yielded yet, in order.
    pub closed spec fn remaining(&self) -> Seq<bool> {
        self.view.view_in(self.store@).skip(self.at as int)
    }

    /// The view lies inside the buffer, and the position inside the view.
    #[verifier::type_invariant]
    pub closed spec fn inv(self) -> bool {
        self.view.within(self.store@.len()) && self.at <= self.view.bits()
    }

    /// Starts an iteration at the first bit of a view.
    pub fn new(view: &BitSlice<O, T>, store: &'a [T]) -> (it: Self)
        requires
            view.within(store@.len()),
        ensures
            it.remaining() == view.view_in(store@),
    {
        proof {
            assert(view.view_in(store@).skip(0) =~= view.view_in(store@));
        }
        Iter { store, view: *view, at: 0 }
    }

    /// Yields the next bit, or `None` when every bit has been yielded.
    pub fn next(&mut self) -> (r: Option<bool>)
        ensures
            old(self).remaining().len() == 0 ==> r.is_none() && final(self).remaining() == old(self).remaining(),
            old(self).remaining().len() > 0 ==> r == Some(old(self).remaining()[0]) && final(self).remaining() == old(self).remaining().drop_first(),
    {
        proof {
            use_type_invariant(&*self);
        }
        if self.at >= self.view.len() {
            return None;
        }
        let bit = match self.view.get(self.store, self.at) {
            Ok(b) => b,
            Err(_) => false,
        };
        proof {
            let all = self.view.view_in(self.store@);
            assert(all.skip(self.at as int).drop_first() =~= all.skip(self.at + 1));
        }
        self.at = self.at + 1;
        Some(bit)
    }

    /// Yields all the bits that are still to come.
    pub fn collect(self) -> (bits: Vec<bool>)
        ensures
            bits@ == self.remaining(),
    {
        let mut it = self;
        let mut bits: Vec<bool> = Vec::new();
        loop
            invariant
                bits@ + it.remaining() == self.remaining(),
            ensures
                bits@ == self.remaining(),
            decreases it.remaining().len(),
        {
            let ghost rest = it.remaining();
            match it.next() {
                Some(b) => {
                    proof {
                        assert(bits@.push(b) + rest.drop_first() =~= bits@ + rest);
                    }
                    bits.push(b);
                },
                None => {
                    proof {
                        assert(bits@ + rest =~= bits@);
                    }
                    break ;
                },
            }
        }
        bits
    }
}

impl<O: BitOrder, T: BitStore> BitSlice<O, T> {
    /// Iterates over the bits of the view as a buffer holds them.
    pub fn iter<'a>(&self, store: &'a [T]) -> (it: Iter<'a, O, T>)
        requires
            self.within(store@.len()),
        ensures
            it.remaining() == self.view_in(store@),
    {
        Iter::new(self, store)
    }
}

impl<O: BitOrder, T: BitStore> BitVec<O, T> {
    /// Iterates over the live bits.
    pub fn iter(&self) -> (it: Iter<'_, O, T>)
        ensures
            it.remaining() == self@,
    {
        Iter::new(self.as_bitslice(), self.as_slice())
    }

    /// The live bits, collected in order.
    pub fn to_vec(&self) -> (bits: Vec<bool>)
        ensures
            bits@ == self@,
    {
        self.as_bitslice().to_vec(self.as_slice())
    }
}

} // verus!
