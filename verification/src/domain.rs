//! The split of a region into a partial first element, whole elements, and
//! a partial last element.
//!
//! Bulk operations work on whole elements wherever the region covers them
//! and fall back to a mask only at the two ends.

use vstd::prelude::*;
use crate::arith::lemma_width_ops;
use crate::pointer::BitPtr;
use crate::store::BitStore;

verus! {

/// The live bits of an element that a region covers only in part: the
/// in-element indices `from..upto` of the element at index `elem`.
#[derive(Clone, Copy, Debug)]
pub struct Partial {
    pub elem: usize,
    pub from: u8,
    pub upto: u8,
}

/// The three parts of a region, in order: a partial first element, if the
/// region does not start at an element's first bit or ends before an
/// element's last; `count` whole elements starting at index `body`; and a
/// partial last element, holding what is left.
#[derive(Clone, Copy, Debug)]
pub struct Domain {
    pub head: Option<Partial>,
    pub body: usize,
    pub count: usize,
    pub tail: Option<Partial>,
}

impl<T: BitStore> BitPtr<T> {
    /// The number of bits in the partial first element: none when the
    /// region is empty or starts on an element boundary with at least one
    /// whole element to cover.
    pub open spec fn head_len(self) -> nat {
        let w = T::width();
        if self.bits() == 0 || (self.head() == 0 && self.bits() >= w) {
            0
        } else if self.head() + self.bits() <= w {
            self.bits()
        } else {
            (w - self.head()) as nat
        }
    }

    /// The number of whole elements that the region covers.
    pub open spec fn body_len(self) -> nat {
        (self.bits() - self.head_len()) as nat / T::width()
    }

    /// The number of bits in the partial last element.
    pub open spec fn tail_len(self) -> nat {
        (self.bits() - self.head_len()) as nat % T::width()
    }

    /// The index of the first whole element.
    pub open spec fn body_first(self) -> nat {
        if self.head_len() > 0 {
            self.elem() + 1
        } else {
            self.elem()
        }
    }

    /// The split of the region into its three parts.
    pub open spec fn spec_domain(self) -> Domain {
        Domain {
            head: if self.head_len() > 0 {
                Some(
                    Partial {
                        elem: self.elem() as usize,
                        from: self.head() as u8,
                        upto: (self.head() + self.head_len()) as u8,
                    },
                )
            } else {
                None
            },
            body: self.body_first() as usize,
            count: self.body_len() as usize,
            tail: if self.tail_len() > 0 {
                Some(
                    Partial {
                        elem: (self.body_first() + self.body_len()) as usize,
                        from: 0,
                        upto: self.tail_len() as u8,
                    },
                )
            } else {
                None
            },
        }
    }

    /// The three parts leave no bit out and take none twice: their lengths
    /// add up to the region's, and they touch the elements that the region
    /// touches.
    pub proof fn lemma_domain_sizes(self)
        ensures
            self.head_len() + self.body_len() * T::width() + self.tail_len() == self.bits(),
            self.head() + self.head_len() <= T::width(),
            self.tail_len() < T::width(),
            self.elems() == (if self.head_len() > 0 {
                1nat
            } else {
                0
            }) + self.body_len() + (if self.tail_len() > 0 {
                1nat
            } else {
                0
            }),
    {
        T::lemma_width();
        self.lemma_fields();
        let w = T::width();
        let rest = (self.bits() - self.head_len()) as int;
        lemma_width_ops(rest, w as int, w);
        lemma_width_ops(self.body_len() as int, w as int, w);
        lemma_width_ops(self.head() + self.bits() + w - 1, w as int, w);
    }

    /// Which places the parts hold: the partial first element covers its
    /// indices `head..head + head_len`, a whole element is covered at every
    /// index, the partial last element covers its indices below
    /// `tail_len`, and no other place belongs to the region.
    pub proof fn lemma_domain_covers(self, j: nat, k: nat)
        requires
            k < T::width(),
        ensures
            self.covers(j, k) <==> {
                ||| (self.head_len() > 0 && j == self.elem() && self.head() <= k < self.head()
                    + self.head_len())
                ||| (self.body_first() <= j < self.body_first() + self.body_len())
                ||| (self.tail_len() > 0 && j == self.body_first() + self.body_len() && k
                    < self.tail_len())
            },
    {
        T::lemma_width();
        self.lemma_fields();
        self.lemma_domain_sizes();
        let w = T::width();
        let rest = (self.bits() - self.head_len()) as int;
        lemma_width_ops(rest, w as int, w);
        lemma_width_ops(self.body_len() as int, w as int, w);
    }

    /// Splits the region into a partial first element, whole elements and
    /// a partial last element.
    pub fn domain(&self) -> (d: Domain)
        ensures
            d == self.spec_domain(),
            self.wf(),
    {
        let w = T::bits();
        let head = self.first();
        let bits = self.len();
        let elem = self.element();
        proof {
            T::lemma_width();
            self.lemma_fields();
            self.lemma_domain_sizes();
            lemma_width_ops(self.bits() - self.head_len(), w as int, T::width());
            if bits > 0 {
                self.lemma_locate((bits - 1) as nat);
            }
        }
        let head_len: usize = if bits == 0 || (head == 0 && bits >= w as usize) {
            0
        } else if bits <= (w - head) as usize {
            bits
        } else {
            (w - head) as usize
        };
        let rest = bits - head_len;
        let count = rest / (w as usize);
        let tail_len = rest % (w as usize);
        let body = if head_len > 0 {
            elem + 1
        } else {
            elem
        };
        Domain {
            head: if head_len > 0 {
                Some(Partial { elem, from: head, upto: head + head_len as u8 })
            } else {
                None
            },
            body,
            count,
            tail: if tail_len > 0 {
                Some(Partial { elem: body + count, from: 0, upto: tail_len as u8 })
            } else {
                None
            },
        }
    }
}

} // verus!
