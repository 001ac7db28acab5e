//! Operations on a whole view at once: fill, copy, and the test for
//! equality.
//!
//! Each of them walks the view's domain. Where the view covers an element
//! whole, the element is written or compared whole; only the partial
//! elements at the two ends go through a mask.

use vstd::prelude::*;
use crate::access::Access;
use crate::order::BitOrder;
use crate::slice::BitSlice;
use crate::store::{bit, zero, BitStore};

verus! {

/// The element that a bulk write takes the bits of element `j` from: the
/// element `shift` places further on in `src`, or `pattern` for want of a
/// source.
pub open spec fn source_elem<T: BitStore>(pattern: T, src: Option<Seq<T>>, shift: int, j: int) -> T {
    match src {
        Some(s) => s[j + shift],
        None => pattern,
    }
}

impl<O: BitOrder, T: BitStore> BitSlice<O, T> {
    /// Whether `after` is `before` with the view's bits in the elements
    /// below `lim` taken from their source elements, and every other bit
    /// as it was.
    pub open spec fn patched(
        self,
        before: Seq<T>,
        after: Seq<T>,
        lim: nat,
        pattern: T,
        src: Option<Seq<T>>,
        shift: int,
    ) -> bool {
        &&& before.len() == after.len()
        &&& forall|j: int, q: nat|
            0 <= j < before.len() && q < T::width() ==> #[trigger] bit(after[j], q) == (if j < lim
                && self.holds(j as nat, q) {
                bit(source_elem(pattern, src, shift, j), q)
            } else {
                bit(before[j], q)
            })
    }

    /// Writes the bits at the in-element indices `from..upto` of element
    /// `j` from `src` and leaves the element's other bits, and every other
    /// element, as they were.
    fn blend(store: &mut [T], j: usize, from: u8, upto: u8, src: T)
        requires
            j < old(store)@.len(),
            from <= upto <= T::width(),
        ensures
            final(store)@.len() == old(store)@.len(),
            forall|i: int|
                0 <= i < old(store)@.len() && i != j ==> final(store)@[i] == old(store)@[i],
            forall|q: nat|
                q < T::width() ==> #[trigger] bit(final(store)@[j as int], q) == (if from
                    <= O::index_of(T::width(), q) < upto {
                    bit(src, q)
                } else {
                    bit(old(store)@[j as int], q)
                }),
    {
        let w = T::bits();
        proof {
            T::lemma_width();
        }
        if from == 0 && upto == w {
            proof {
                assert forall|q: nat| q < T::width() implies from <= #[trigger] O::index_of(
                    T::width(),
                    q,
                ) < upto by {
                    O::lemma_inverse(T::width(), q);
                }
            }
            store[j] = src;
        } else {
            let mask: T = T::store(O::mask(w, from, upto));
            let cur = store[j];
            store[j] = cur.merge(mask, src);
        }
    }

    /// Writes the view's bits element by element, each from its source
    /// element, along the view's domain.
    fn patch(&self, store: &mut [T], pattern: T, src: Option<&[T]>, src_first: usize)
        requires
            self.within(old(store)@.len()),
            src matches Some(s) ==> src_first + self.bitptr().elems() <= s@.len(),
        ensures
            self.patched(
                old(store)@,
                final(store)@,
                old(store)@.len(),
                pattern,
                match src {
                    Some(s) => Some(s@),
                    None => None,
                },
                src_first - self.bitptr().elem(),
            ),
    {
        let ptr = self.as_bitptr();
        let d = ptr.domain();
        let first = ptr.element();
        let ghost before = store@;
        let ghost seq: Option<Seq<T>> = match src {
            Some(s) => Some(s@),
            None => None,
        };
        let ghost shift = src_first - ptr.elem();
        let avail: usize = match src {
            Some(s) => s.len(),
            None => 0,
        };
        proof {
            T::lemma_width();
            ptr.lemma_fields();
            ptr.lemma_domain_sizes();
        }
        if let Some(p) = d.head {
            let e = match src {
                Some(s) => s[src_first],
                None => pattern,
            };
            Self::blend(store, p.elem, p.from, p.upto, e);
        }
        proof {
            assert forall|j: int, q: nat|
                0 <= j < before.len() && q < T::width() implies #[trigger] bit(store@[j], q) == (
            if j < ptr.body_first() && self.holds(j as nat, q) {
                bit(source_elem(pattern, seq, shift, j), q)
            } else {
                bit(before[j], q)
            }) by {
                O::lemma_inverse(T::width(), q);
                ptr.lemma_domain_covers(j as nat, O::index_of(T::width(), q));
            }
        }
        let end = d.body + d.count;
        let mut j = d.body;
        while j < end
            invariant
                self.within(before.len()),
                ptr == self.bitptr(),
                first == ptr.elem(),
                d == ptr.spec_domain(),
                end == ptr.body_first() + ptr.body_len(),
                ptr.body_first() <= j <= end,
                end <= ptr.elem() + ptr.elems(),
                seq == (match src {
                    Some(s) => Some(s@),
                    None => None,
                }),
                shift == src_first - ptr.elem(),
                src matches Some(s) ==> src_first + ptr.elems() <= s@.len(),
                src matches Some(s) ==> s@.len() == avail,
                self.patched(before, store@, j as nat, pattern, seq, shift),
            decreases end - j,
        {
            proof {
                T::lemma_width();
                assert(first <= j);
                assert(j - first < ptr.elems());
            }
            let e = match src {
                Some(s) => s[src_first + (j - first)],
                None => pattern,
            };
            let ghost mid = store@;
            store[j] = e;
            proof {
                assert forall|jj: int, q: nat|
                    0 <= jj < before.len() && q < T::width() implies #[trigger] bit(
                    store@[jj],
                    q,
                ) == (if jj < j + 1 && self.holds(jj as nat, q) {
                    bit(source_elem(pattern, seq, shift, jj), q)
                } else {
                    bit(before[jj], q)
                }) by {
                    O::lemma_inverse(T::width(), q);
                    ptr.lemma_domain_covers(jj as nat, O::index_of(T::width(), q));
                    assert(bit(mid[jj], q) == (if jj < j && self.holds(jj as nat, q) {
                        bit(source_elem(pattern, seq, shift, jj), q)
                    } else {
                        bit(before[jj], q)
                    }));
                }
            }
            j = j + 1;
        }
        let ghost mid = store@;
        if let Some(p) = d.tail {
            let e = match src {
                Some(s) => s[src_first + (p.elem - first)],
                None => pattern,
            };
            Self::blend(store, p.elem, p.from, p.upto, e);
        }
        proof {
            assert forall|jj: int, q: nat|
                0 <= jj < before.len() && q < T::width() implies #[trigger] bit(store@[jj], q) == (
            if jj < before.len() && self.holds(jj as nat, q) {
                bit(source_elem(pattern, seq, shift, jj), q)
            } else {
                bit(before[jj], q)
            }) by {
                O::lemma_inverse(T::width(), q);
                ptr.lemma_domain_covers(jj as nat, O::index_of(T::width(), q));
                assert(bit(mid[jj], q) == (if jj < end && self.holds(jj as nat, q) {
                    bit(source_elem(pattern, seq, shift, jj), q)
                } else {
                    bit(before[jj], q)
                }));
            }
        }
    }

    /// What a patched buffer shows through the view: bit `i` is the bit of
    /// its source element at the position where bit `i` lives. Every bit
    /// outside the view is as it was.
    pub proof fn lemma_patched(
        self,
        before: Seq<T>,
        after: Seq<T>,
        pattern: T,
        src: Option<Seq<T>>,
        shift: int,
        i: nat,
    )
        requires
            self.within(before.len()),
            self.patched(before, after, before.len(), pattern, src, shift),
            i < self.bits(),
        ensures
            self.frame(before, after),
            self.bit_in(after, i) == bit(
                source_elem(pattern, src, shift, self.bitptr().elem_of(i) as int),
                O::position(T::width(), self.bitptr().index_of(i)),
            ),
    {
        self.lemma_place(i, 0);
        self.bitptr().lemma_locate(i);
    }

    /// Sets every bit of the view to `value` and leaves every other bit of
    /// the buffer as it was.
    pub fn fill(&self, store: &mut [T], value: bool)
        requires
            self.within(old(store)@.len()),
        ensures
            self.view_in(final(store)@) == Seq::new(self.bits(), |i: int| value),
            self.frame(old(store)@, final(store)@),
    {
        proof {
            T::lemma_width();
        }
        let pattern: T = if value {
            T::mask_range(0, T::bits())
        } else {
            zero()
        };
        self.patch(store, pattern, None, 0);
        proof {
            let before = old(store)@;
            let after = store@;
            let shift = 0 - self.bitptr().elem();
            assert(self.frame(before, after));
            assert forall|i: int| 0 <= i < self.bits() implies #[trigger] self.view_in(after)[i]
                == value by {
                self.lemma_patched(before, after, pattern, None, shift, i as nat);
                self.lemma_place(i as nat, 0);
            }
            assert(self.view_in(after) =~= Seq::new(self.bits(), |i: int| value));
        }
    }

    /// Copies the bits of `src` over the bits of this view, which has the
    /// same length, and leaves every other bit of the buffer as it was.
    /// Where both views start at the same index of their first elements the
    /// copy goes element by element; otherwise bit by bit.
    pub fn copy_from(&self, store: &mut [T], src: &Self, src_store: &[T])
        requires
            self.within(old(store)@.len()),
            src.within(src_store@.len()),
            src.bits() == self.bits(),
        ensures
            self.view_in(final(store)@) == src.view_in(src_store@),
            self.frame(old(store)@, final(store)@),
    {
        let ghost before = store@;
        let from = src.as_bitptr();
        let to = self.as_bitptr();
        if from.first() == to.first() {
            let pattern: T = zero();
            let src_first = from.element();
            self.patch(store, pattern, Some(src_store), src_first);
            proof {
                let after = store@;
                let shift = src_first - to.elem();
                assert(self.frame(before, after));
                assert forall|i: int| 0 <= i < self.bits() implies #[trigger] self.view_in(
                    after,
                )[i] == src.view_in(src_store@)[i] by {
                    self.lemma_patched(before, after, pattern, Some(src_store@), shift, i as nat);
                }
                assert(self.view_in(after) =~= src.view_in(src_store@));
            }
        } else {
            let n = to.len();
            let mut i: usize = 0;
            while i < n
                invariant
                    src.within(src_store@.len()),
                    self.within(store@.len()),
                    store@.len() == before.len(),
                    n == self.bits(),
                    n == src.bits(),
                    i <= n,
                    self.frame(before, store@),
                    self.view_in(store@).take(i as int) == src.view_in(src_store@).take(i as int),
                decreases n - i,
            {
                let ghost mid = store@;
                let b = match src.get(src_store, i) {
                    Ok(b) => b,
                    Err(_) => false,
                };
                let _ = self.set_with(store, i, b, Access::Shared);
                proof {
                    assert(self.view_in(store@).take(i + 1) =~= src.view_in(src_store@).take(
                        i + 1,
                    )) by {
                        assert forall|k: int| 0 <= k < i + 1 implies #[trigger] self.view_in(
                            store@,
                        )[k] == src.view_in(src_store@)[k] by {
                            if k < i {
                                assert(self.view_in(mid).take(i as int)[k] == src.view_in(
                                    src_store@,
                                ).take(i as int)[k]);
                            }
                        }
                    }
                    assert forall|j: int, q: nat|
                        0 <= j < before.len() && q < T::width() && !self.holds(
                            j as nat,
                            q,
                        ) implies #[trigger] bit(store@[j], q) == bit(before[j], q) by {
                        assert(bit(mid[j], q) == bit(before[j], q));
                    }
                }
                i = i + 1;
            }
            proof {
                assert(self.view_in(store@).take(n as int) =~= self.view_in(store@));
                assert(src.view_in(src_store@).take(n as int) =~= src.view_in(src_store@));
            }
        }
    }
}

} // verus!
