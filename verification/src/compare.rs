//! Equality and order of views.
//!
//! Two views are equal when they show the same bits in the same order,
//! wherever those bits live. Views are ordered as their bit sequences are
//! ordered in the dictionary: by the first bit in which they differ, a
//! clear bit before a set one, and a proper prefix before what it is a
//! prefix of.

use vstd::prelude::*;
use crate::order::BitOrder;
use crate::slice::BitSlice;
use crate::store::{bit, bit_of, lemma_elem_ext, BitStore};

verus! {

/// How one bit sequence stands to another in dictionary order.
#[derive(Clone, Copy, Debug, PartialEq, Eq, Structural)]
pub enum Lex {
    Less,
    Equal,
    Greater,
}

/// The dictionary order of two bit sequences.
pub open spec fn lex_order(a: Seq<bool>, b: Seq<bool>) -> Lex
    decreases a.len(),
{
    if a.len() == 0 {
        if b.len() == 0 {
            Lex::Equal
        } else {
            Lex::Less
        }
    } else if b.len() == 0 {
        Lex::Greater
    } else if a[0] != b[0] {
        if b[0] {
            Lex::Less
        } else {
            Lex::Greater
        }
    } else {
        lex_order(a.drop_first(), b.drop_first())
    }
}

/// Two sequences are equal in dictionary order exactly when they are the
/// same sequence.
pub proof fn lemma_lex_equal(a: Seq<bool>, b: Seq<bool>)
    ensures
        lex_order(a, b) == Lex::Equal <==> a == b,
    decreases a.len(),
{
    if a.len() > 0 && b.len() > 0 {
        lemma_lex_equal(a.drop_first(), b.drop_first());
        if a[0] == b[0] && a.drop_first() == b.drop_first() {
            assert(a =~= seq![a[0]] + a.drop_first());
            assert(b =~= seq![b[0]] + b.drop_first());
        }
    } else {
        assert(a == b ==> a.len() == b.len());
        if a.len() == 0 && b.len() == 0 {
            assert(a =~= b);
        }
    }
}

/// Swapping the two sequences swaps `Less` and `Greater`.
pub proof fn lemma_lex_swap(a: Seq<bool>, b: Seq<bool>)
    ensures
        lex_order(a, b) == Lex::Less <==> lex_order(b, a) == Lex::Greater,
        lex_order(a, b) == Lex::Equal <==> lex_order(b, a) == Lex::Equal,
    decreases a.len(),
{
    if a.len() > 0 && b.len() > 0 {
        lemma_lex_swap(a.drop_first(), b.drop_first());
    }
}

impl<O: BitOrder, T: BitStore> BitSlice<O, T> {
    /// Whether two buffers hold the same bit wherever the view has a bit
    /// in an element below `lim`, the second buffer read `shift` elements
    /// further on.
    pub open spec fn agree(self, store: Seq<T>, other: Seq<T>, shift: int, lim: int) -> bool {
        forall|j: int, q: nat|
            0 <= j < lim && q < T::width() && self.holds(j as nat, q) ==> #[trigger] bit(
                store[j],
                q,
            ) == bit(other[j + shift], q)
    }

    /// Whether two elements hold the same bits at the in-element indices
    /// `from..upto`.
    fn same_part(a: T, b: T, from: u8, upto: u8) -> (same: bool)
        requires
            from <= upto <= T::width(),
        ensures
            same == (forall|q: nat|
                q < T::width() && from <= O::index_of(T::width(), q) < upto ==> #[trigger] bit(
                    a,
                    q,
                ) == bit(b, q)),
    {
        let w = T::bits();
        proof {
            T::lemma_width();
        }
        if from == 0 && upto == w {
            let same = a.load() == b.load();
            proof {
                if same {
                    T::lemma_same(a, b);
                } else {
                    if forall|q: nat|
                        q < T::width() && from <= O::index_of(T::width(), q) < upto
                            ==> #[trigger] bit(a, q) == bit(b, q) {
                        assert forall|q: nat| q < T::width() implies bit(a, q) == bit(b, q) by {
                            O::lemma_inverse(T::width(), q);
                        }
                        lemma_elem_ext(a, b);
                    }
                }
            }
            same
        } else {
            let mask: T = T::store(O::mask(w, from, upto));
            let x = a.and(mask);
            let y = b.and(mask);
            let same = x.load() == y.load();
            proof {
                if same {
                    T::lemma_same(x, y);
                    assert forall|q: nat|
                        q < T::width() && from <= O::index_of(T::width(), q)
                            < upto implies #[trigger] bit(a, q) == bit(b, q) by {
                        assert(bit_of(x.value(), q) == bit_of(y.value(), q));
                    }
                } else {
                    if forall|q: nat|
                        q < T::width() && from <= O::index_of(T::width(), q) < upto
                            ==> #[trigger] bit(a, q) == bit(b, q) {
                        assert forall|q: nat| q < T::width() implies bit(x, q) == bit(y, q) by {
                            assert(bit_of(x.value(), q) == (bit_of(a.value(), q) && bit_of(
                                mask.value(),
                                q,
                            )));
                            assert(bit_of(y.value(), q) == (bit_of(b.value(), q) && bit_of(
                                mask.value(),
                                q,
                            )));
                            if bit_of(mask.value(), q) {
                                assert(bit(a, q) == bit(b, q));
                            }
                        }
                        lemma_elem_ext(x, y);
                    }
                }
            }
            same
        }
    }

    /// Two views of one length that start at the same index of their first
    /// elements show the same bits exactly when their buffers agree on
    /// every bit of the view.
    pub proof fn lemma_agree(self, store: Seq<T>, other: Self, other_store: Seq<T>)
        requires
            self.within(store.len()),
            self.bits() == other.bits(),
            self.bitptr().head() == other.bitptr().head(),
        ensures
            self.agree(
                store,
                other_store,
                other.bitptr().elem() - self.bitptr().elem(),
                store.len() as int,
            ) <==> self.view_in(store) == other.view_in(other_store),
    {
        let shift = other.bitptr().elem() - self.bitptr().elem();
        let p = self.bitptr();
        T::lemma_width();
        if self.agree(store, other_store, shift, store.len() as int) {
            assert forall|i: int| 0 <= i < self.bits() implies #[trigger] self.view_in(store)[i]
                == other.view_in(other_store)[i] by {
                self.lemma_place(i as nat, 0);
                p.lemma_locate(i as nat);
            }
            assert(self.view_in(store) =~= other.view_in(other_store));
        }
        if self.view_in(store) == other.view_in(other_store) {
            assert forall|j: int, q: nat|
                0 <= j < store.len() && q < T::width() && self.holds(
                    j as nat,
                    q,
                ) implies #[trigger] bit(store[j], q) == bit(other_store[j + shift], q) by {
                let k = O::index_of(T::width(), q);
                O::lemma_inverse(T::width(), q);
                p.lemma_covers(j as nat, k);
                let i = p.index_at(j as nat, k);
                assert(self.view_in(store)[i] == other.view_in(other_store)[i]);
            }
        }
    }

    /// Whether two views show the same bits in the same order. Where both
    /// start at the same index of their first elements the test goes
    /// element by element; otherwise bit by bit.
    pub fn equals(&self, store: &[T], other: &Self, other_store: &[T]) -> (same: bool)
        requires
            self.within(store@.len()),
            other.within(other_store@.len()),
        ensures
            same == (self.view_in(store@) == other.view_in(other_store@)),
    {
        let p = self.as_bitptr();
        let r = other.as_bitptr();
        let n = p.len();
        if n != r.len() {
            proof {
                assert(self.view_in(store@).len() != other.view_in(other_store@).len());
            }
            return false;
        }
        if p.first() == r.first() {
            let d = p.domain();
            let first = p.element();
            let there = r.element();
            let ghost shift = there - first;
            proof {
                T::lemma_width();
                p.lemma_fields();
                r.lemma_fields();
                p.lemma_domain_sizes();
                self.lemma_agree(store@, *other, other_store@);
            }
            if let Some(part) = d.head {
                if !Self::same_part(store[part.elem], other_store[there], part.from, part.upto) {
                    proof {
                        let q = choose|q: nat|
                            q < T::width() && part.from <= O::index_of(T::width(), q) < part.upto
                                && #[trigger] bit(store@[part.elem as int], q) != bit(
                                other_store@[there as int],
                                q,
                            );
                        p.lemma_domain_covers(part.elem as nat, O::index_of(T::width(), q));
                        assert(self.holds(part.elem as nat, q));
                    }
                    return false;
                }
            }
            proof {
                assert forall|j: int, q: nat|
                    0 <= j < p.body_first() && q < T::width() && self.holds(
                        j as nat,
                        q,
                    ) implies #[trigger] bit(store@[j], q) == bit(other_store@[j + shift], q) by {
                    O::lemma_inverse(T::width(), q);
                    p.lemma_domain_covers(j as nat, O::index_of(T::width(), q));
                }
            }
            let end = d.body + d.count;
            let avail = other_store.len();
            let mut j = d.body;
            while j < end
                invariant
                    self.within(store@.len()),
                    other.within(other_store@.len()),
                    avail == other_store@.len(),
                    p == self.bitptr(),
                    r == other.bitptr(),
                    p.head() == r.head(),
                    p.bits() == r.bits(),
                    first == p.elem(),
                    there == r.elem(),
                    shift == there - first,
                    end == p.body_first() + p.body_len(),
                    p.body_first() <= j <= end,
                    end <= p.elem() + p.elems(),
                    self.agree(store@, other_store@, shift, j as int),
                    self.agree(store@, other_store@, shift, store@.len() as int) <==> self.view_in(
                        store@,
                    ) == other.view_in(other_store@),
                decreases end - j,
            {
                proof {
                    T::lemma_width();
                    assert(j - first < p.elems());
                    assert(r.elems() == p.elems());
                }
                let a = store[j];
                let b = other_store[there + (j - first)];
                if a.load() != b.load() {
                    proof {
                        if self.agree(store@, other_store@, shift, store@.len() as int) {
                            assert forall|q: nat| q < T::width() implies bit(a, q) == bit(
                                b,
                                q,
                            ) by {
                                O::lemma_inverse(T::width(), q);
                                p.lemma_domain_covers(j as nat, O::index_of(T::width(), q));
                                assert(self.holds(j as nat, q));
                                assert(bit(store@[j as int], q) == bit(
                                    other_store@[j + shift],
                                    q,
                                ));
                            }
                            lemma_elem_ext(a, b);
                        }
                    }
                    return false;
                }
                proof {
                    T::lemma_same(a, b);
                }
                j = j + 1;
            }
            if let Some(part) = d.tail {
                let a = store[part.elem];
                let b = other_store[there + (part.elem - first)];
                if !Self::same_part(a, b, part.from, part.upto) {
                    proof {
                        let q = choose|q: nat|
                            q < T::width() && part.from <= O::index_of(T::width(), q) < part.upto
                                && #[trigger] bit(a, q) != bit(b, q);
                        p.lemma_domain_covers(part.elem as nat, O::index_of(T::width(), q));
                        assert(self.holds(part.elem as nat, q));
                    }
                    return false;
                }
            }
            proof {
                assert forall|j: int, q: nat|
                    0 <= j < store@.len() && q < T::width() && self.holds(
                        j as nat,
                        q,
                    ) implies #[trigger] bit(store@[j], q) == bit(other_store@[j + shift], q) by {
                    O::lemma_inverse(T::width(), q);
                    p.lemma_domain_covers(j as nat, O::index_of(T::width(), q));
                }
            }
            true
        } else {
            let mut i: usize = 0;
            while i < n
                invariant
                    self.within(store@.len()),
                    other.within(other_store@.len()),
                    n == self.bits(),
                    n == other.bits(),
                    i <= n,
                    forall|k: int|
                        0 <= k < i ==> #[trigger] self.view_in(store@)[k] == other.view_in(
                            other_store@,
                        )[k],
                decreases n - i,
            {
                let a = self.get(store, i);
                let b = other.get(other_store, i);
                let differ = match (a, b) {
                    (Ok(x), Ok(y)) => x != y,
                    _ => false,
                };
                if differ {
                    proof {
                        assert(self.view_in(store@)[i as int] != other.view_in(other_store@)[i as int]);
                    }
                    return false;
                }
                i = i + 1;
            }
            proof {
                assert(self.view_in(store@) =~= other.view_in(other_store@));
            }
            true
        }
    }

    /// The dictionary order of two views' bit sequences.
    pub fn compare(&self, store: &[T], other: &Self, other_store: &[T]) -> (r: Lex)
        requires
            self.within(store@.len()),
            other.within(other_store@.len()),
        ensures
            r == lex_order(self.view_in(store@), other.view_in(other_store@)),
    {
        let n = self.len();
        let m = other.len();
        let ghost a = self.view_in(store@);
        let ghost b = other.view_in(other_store@);
        let mut i: usize = 0;
        proof {
            assert(a.skip(0) =~= a);
            assert(b.skip(0) =~= b);
        }
        while i < n && i < m
            invariant
                self.within(store@.len()),
                other.within(other_store@.len()),
                n == self.bits(),
                m == other.bits(),
                a == self.view_in(store@),
                b == other.view_in(other_store@),
                i <= n,
                i <= m,
                lex_order(a, b) == lex_order(a.skip(i as int), b.skip(i as int)),
            decreases n - i,
        {
            let x = self.get(store, i);
            let y = other.get(other_store, i);
            proof {
                assert(a.skip(i as int)[0] == a[i as int]);
                assert(b.skip(i as int)[0] == b[i as int]);
                assert(a.skip(i as int).drop_first() =~= a.skip(i + 1));
                assert(b.skip(i as int).drop_first() =~= b.skip(i + 1));
            }
            match (x, y) {
                (Ok(p), Ok(q)) => {
                    if p != q {
                        if q {
                            return Lex::Less;
                        } else {
                            return Lex::Greater;
                        }
                    }
                },
                _ => {
                    proof {
                        assert(false);
                    }
                },
            }
            i = i + 1;
        }
        if n == m {
            Lex::Equal
        } else if n < m {
            Lex::Less
        } else {
            Lex::Greater
        }
    }
}

} // verus!
