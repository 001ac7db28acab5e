//! The packed descriptor of a bit region.
//!
//! A region is named by three numbers: the byte offset of its first storage
//! element inside the buffer that holds it (the base, a multiple of the
//! element's size), the index of its first live bit inside that element
//! (the head), and its length in bits. The descriptor keeps them in two
//! machine words. The first word is the base plus the head divided by
//! eight, which fits because the base is aligned; the second is the length
//! times eight plus the remainder of the head.

use vstd::prelude::*;
use core::marker::PhantomData;
use crate::error::Error;
use crate::arith::{
    byte_quot, byte_rem, byte_times, lemma_byte_ops, lemma_width_ops, quot, rem, times,
};
use crate::store::{supported, BitStore};

verus! {

/// The longest region, in bits, that a descriptor can name.
pub open spec fn max_bits() -> nat {
    (usize::MAX / 8) as nat
}

/// The number of elements of `width` bits that a region of `bits` bits
/// starting at in-element index `head` touches.
pub open spec fn span(width: nat, head: nat, bits: nat) -> nat {
    if bits == 0 {
        0
    } else {
        ((head + bits + width - 1) / (width as int)) as nat
    }
}

/// Whether a base, a head and a length name a region of elements of type
/// `T`: the head lies inside an element, the base is aligned to the
/// element's size (in bits, it is a multiple of the width), the length can
/// be packed, and the region ends inside the address space.
pub open spec fn admissible<T: BitStore>(base: nat, head: nat, bits: nat) -> bool {
    &&& head < T::width()
    &&& (base * 8) % T::width() == 0
    &&& bits <= max_bits()
    &&& base + span(T::width(), head, bits) * (T::width() / 8) <= usize::MAX
}

/// The element count of a region, with the division written out.
spec fn span_lit(w: nat, head: nat, bits: nat) -> int {
    if bits == 0 {
        0
    } else {
        quot(head + bits + w - 1, w)
    }
}

/// Admissibility, with every division and product written out.
spec fn adm_lit(w: nat, base: nat, head: nat, bits: nat) -> bool {
    &&& head < w
    &&& byte_rem(base as int, w) == 0
    &&& bits <= max_bits()
    &&& base + byte_times(span_lit(w, head, bits), w) <= usize::MAX
}

proof fn lemma_span(w: nat, head: nat, bits: nat)
    requires
        supported(w),
    ensures
        span(w, head, bits) == span_lit(w, head, bits),
        span_lit(w, head, bits) >= 0,
        byte_times(span_lit(w, head, bits), w) >= span_lit(w, head, bits),
{
    lemma_width_ops(head + bits + w - 1, w as int, w);
}

proof fn lemma_admissible<T: BitStore>(base: nat, head: nat, bits: nat)
    ensures
        admissible::<T>(base, head, bits) <==> adm_lit(T::width(), base, head, bits),
{
    T::lemma_width();
    let w = T::width();
    lemma_span(w, head, bits);
    lemma_width_ops((base * 8) as int, w as int, w);
    lemma_byte_ops(span(w, head, bits) as int, (w / 8) as int, w);
}

#[verifier::spinoff_prover]
#[verifier::rlimit(40)]
proof fn lemma_sub_span(w: nat, head: nat, bits: nat, offset: nat, length: nat)
    requires
        supported(w),
        head < w,
        offset + length <= bits,
    ensures
        quot((head + offset) as int, w) >= 0,
        0 <= rem((head + offset) as int, w) < w,
        quot((head + offset) as int, w) + span_lit(
            w,
            rem((head + offset) as int, w) as nat,
            length,
        ) <= span_lit(w, head, bits),
        byte_times(quot((head + offset) as int, w), w) + byte_times(
            span_lit(w, rem((head + offset) as int, w) as nat, length),
            w,
        ) <= byte_times(span_lit(w, head, bits), w),
{
    if w == 8 {
    } else if w == 16 {
    } else if w == 32 {
    } else {
    }
}

#[verifier::spinoff_prover]
#[verifier::rlimit(40)]
proof fn lemma_packed(w: nat, base: int, head: int)
    requires
        supported(w),
        byte_rem(base, w) == 0,
        0 <= head < w,
        0 <= base <= usize::MAX,
    ensures
        byte_rem(base + head / 8, w) == head / 8,
        base + head / 8 <= usize::MAX,
        (head / 8) * 8 + head % 8 == head,
        (base + head / 8) as usize == base + head / 8,
{
    if w == 8 {
    } else if w == 16 {
    } else if w == 32 {
    } else {
    }
}

proof fn lemma_skip(w: nat, base: int, q: int)
    requires
        supported(w),
        byte_rem(base, w) == 0,
    ensures
        byte_rem(base + byte_times(q, w), w) == 0,
        byte_quot(base + byte_times(q, w), w) == byte_quot(base, w) + q,
        base == byte_times(byte_quot(base, w), w),
{
}

/// Splitting a sum at a multiple of the width carries whole elements over:
/// `x / w + (x % w + y) / w == (x + y) / w`, and the remainders agree.
pub proof fn lemma_carry(x: nat, y: nat, w: nat)
    requires
        supported(w),
    ensures
        x / w + (x % w + y) / w == (x + y) / w,
        (x % w + y) % w == (x + y) % w,
        x % w < w,
{
    lemma_width_ops(x as int, w as int, w);
    lemma_width_ops((x % w + y) as int, w as int, w);
    lemma_width_ops((x + y) as int, w as int, w);
}

/// The descriptor of a bit region over elements of type `T`.
pub struct BitPtr<T: BitStore> {
    ptr: usize,
    len: usize,
    ty: PhantomData<T>,
}

impl<T: BitStore> Clone for BitPtr<T> {
    fn clone(&self) -> (r: Self)
        ensures
            r == *self,
    {
        *self
    }
}

impl<T: BitStore> Copy for BitPtr<T> {

}

impl<T: BitStore> BitPtr<T> {
    /// The byte offset of the region's first element.
    #[verifier::opaque]
    pub closed spec fn base(self) -> nat {
        (self.ptr - byte_rem(self.ptr as int, T::width())) as nat
    }

    /// The in-element index of the region's first bit.
    #[verifier::opaque]
    pub closed spec fn head(self) -> nat {
        (byte_rem(self.ptr as int, T::width()) * 8 + self.len % 8) as nat
    }

    /// The region's length in bits.
    #[verifier::opaque]
    pub closed spec fn bits(self) -> nat {
        (self.len / 8) as nat
    }

    /// The index of the region's first element in the buffer that holds it.
    #[verifier::opaque]
    pub closed spec fn elem(self) -> nat {
        byte_quot(self.base() as int, T::width()) as nat
    }

    /// The descriptor names a region that ends inside the address space.
    #[verifier::opaque]
    pub closed spec fn wf(self) -> bool {
        self.base() + byte_times(span_lit(T::width(), self.head(), self.bits()), T::width())
            <= usize::MAX
    }

    /// Every descriptor that a program holds is well formed.
    #[verifier::type_invariant]
    pub open spec fn inv(self) -> bool {
        self.wf()
    }

    /// The descriptor that packs a base, a head and a length.
    pub closed spec fn pack(base: nat, head: nat, bits: nat) -> Self {
        BitPtr { ptr: (base + head / 8) as usize, len: (bits * 8 + head % 8) as usize, ty: PhantomData }
    }

    /// The number of elements that the region touches.
    pub open spec fn elems(self) -> nat {
        span(T::width(), self.head(), self.bits())
    }

    /// Whether the region lies inside a buffer of `n` elements.
    pub open spec fn within(self, n: nat) -> bool {
        self.elem() + self.elems() <= n
    }

    /// The index, in the buffer, of the element that holds bit `i` of the
    /// region.
    pub open spec fn elem_of(self, i: nat) -> nat {
        self.elem() + (self.head() + i) / T::width()
    }

    /// The in-element index of bit `i` of the region.
    pub open spec fn index_of(self, i: nat) -> nat {
        (self.head() + i) % T::width()
    }

    /// The index that the bit at in-element index `k` of element `j` has in
    /// the region, counted from the region's first bit. It is negative
    /// before the region and at least the length behind it.
    pub open spec fn index_at(self, j: nat, k: nat) -> int {
        times(j - self.elem(), T::width()) + k - self.head()
    }

    /// Whether the bit at in-element index `k` of element `j` is one of the
    /// region's bits.
    pub open spec fn covers(self, j: nat, k: nat) -> bool {
        k < T::width() && 0 <= self.index_at(j, k) < self.bits()
    }

    /// The descriptor of the bits `offset..offset + length` of this region.
    pub closed spec fn spec_sub_range(self, offset: nat, length: nat) -> Self {
        let w = T::width();
        let total = (self.head() + offset) as int;
        Self::pack(
            (self.base() + byte_times(quot(total, w), w)) as nat,
            rem(total, w) as nat,
            length,
        )
    }

    /// This descriptor with its head replaced.
    pub closed spec fn spec_set_head(self, head: nat) -> Self {
        Self::pack(self.base(), head, self.bits())
    }

    /// This descriptor with its length replaced.
    pub closed spec fn spec_set_len(self, bits: nat) -> Self {
        Self::pack(self.base(), self.head(), bits)
    }

    #[verifier::spinoff_prover]
    #[verifier::rlimit(40)]
    proof fn lemma_pack(base: nat, head: nat, bits: nat)
        requires
            head < T::width(),
            byte_rem(base as int, T::width()) == 0,
            bits <= max_bits(),
            base <= usize::MAX,
        ensures
            Self::pack(base, head, bits).base() == base,
            Self::pack(base, head, bits).head() == head,
            Self::pack(base, head, bits).bits() == bits,
            Self::pack(base, head, bits).elem() == byte_quot(base as int, T::width()),
            Self::pack(base, head, bits).wf() <==> adm_lit(T::width(), base, head, bits),
            base + head / 8 <= usize::MAX,
    {
        T::lemma_width();
        let p = Self::pack(base, head, bits);
        let w = T::width();
        lemma_packed(w, base as int, head as int);
        assert(p.ptr == base + head / 8);
        assert(p.len == bits * 8 + head % 8);
        assert(p.base() == base) by {
            reveal(BitPtr::base);
        }
        assert(p.head() == head) by {
            reveal(BitPtr::head);
        }
        assert(p.bits() == bits) by {
            reveal(BitPtr::bits);
        }
        assert(p.elem() == byte_quot(base as int, w)) by {
            reveal(BitPtr::elem);
        }
        assert(p.wf() <==> adm_lit(w, base, head, bits)) by {
            reveal(BitPtr::wf);
        }
    }

    #[verifier::spinoff_prover]
    #[verifier::rlimit(40)]
    proof fn lemma_unpack(self)
        ensures
            self == Self::pack(self.base(), self.head(), self.bits()),
            self.head() < T::width(),
            byte_rem(self.base() as int, T::width()) == 0,
            self.bits() <= max_bits(),
            self.base() <= usize::MAX,
            self.elem() == byte_quot(self.base() as int, T::width()),
            self.base() == byte_times(self.elem() as int, T::width()),
            self.wf() <==> adm_lit(T::width(), self.base(), self.head(), self.bits()),
    {
        T::lemma_width();
        let w = T::width();
        let r = byte_rem(self.ptr as int, w);
        assert(self.base() == self.ptr - r) by {
            reveal(BitPtr::base);
        }
        assert(self.head() == r * 8 + self.len % 8) by {
            reveal(BitPtr::head);
        }
        assert(self.bits() == self.len / 8) by {
            reveal(BitPtr::bits);
        }
        assert(self.elem() == byte_quot(self.base() as int, w)) by {
            reveal(BitPtr::elem);
        }
        assert(self.wf() <==> adm_lit(w, self.base(), self.head(), self.bits())) by {
            reveal(BitPtr::wf);
        }
        lemma_skip(w, self.base() as int, 0);
        let p = Self::pack(self.base(), self.head(), self.bits());
        assert(p.ptr == self.ptr);
        assert(p.len == self.len);
    }

    /// The head lies inside an element, the base is aligned and the length
    /// can be packed, for every descriptor; a well-formed one is admissible
    /// and ends at an element index that a machine word can hold.
    #[verifier::spinoff_prover]
    #[verifier::rlimit(40)]
    pub proof fn lemma_fields(self)
        ensures
            self.head() < T::width(),
            self.base() % (T::width() / 8) == 0,
            self.bits() <= max_bits(),
            self.base() == self.elem() * (T::width() / 8),
            self.wf() <==> admissible::<T>(self.base(), self.head(), self.bits()),
            self.wf() ==> self.elem() + self.elems() <= usize::MAX,
    {
        T::lemma_width();
        let w = T::width();
        self.lemma_unpack();
        lemma_admissible::<T>(self.base(), self.head(), self.bits());
        lemma_span(w, self.head(), self.bits());
        lemma_byte_ops(self.base() as int, (w / 8) as int, w);
        lemma_byte_ops(self.elem() as int, (w / 8) as int, w);
    }

    /// First element, head and length determine the descriptor.
    pub proof fn lemma_ext(self, other: Self)
        requires
            self.elem() == other.elem(),
            self.head() == other.head(),
            self.bits() == other.bits(),
        ensures
            self == other,
    {
        self.lemma_unpack();
        other.lemma_unpack();
    }

    /// What a sub-range names: its first bit is bit `offset` of the region,
    /// with the carry past the end of an element folded into the base.
    #[verifier::spinoff_prover]
    #[verifier::rlimit(40)]
    pub proof fn lemma_sub_range(self, offset: nat, length: nat)
        requires
            self.wf(),
            offset + length <= self.bits(),
        ensures
            self.spec_sub_range(offset, length).wf(),
            self.spec_sub_range(offset, length).elem() == self.elem_of(offset),
            self.spec_sub_range(offset, length).head() == self.index_of(offset),
            self.spec_sub_range(offset, length).bits() == length,
            self.spec_sub_range(offset, length).elem() + self.spec_sub_range(
                offset,
                length,
            ).elems() <= self.elem() + self.elems(),
    {
        T::lemma_width();
        let w = T::width();
        let total = (self.head() + offset) as int;
        let q = quot(total, w);
        let nh = rem(total, w);
        self.lemma_unpack();
        lemma_width_ops(total, w as int, w);
        lemma_span(w, self.head(), self.bits());
        lemma_span(w, nh as nat, length);
        lemma_sub_span(w, self.head(), self.bits(), offset, length);
        let moved = self.base() + byte_times(q, w);
        lemma_skip(w, self.base() as int, q);
        Self::lemma_pack(moved as nat, nh as nat, length);
    }

    #[verifier::spinoff_prover]
    #[verifier::rlimit(40)]
    proof fn lemma_sub_range_parts(self, offset: nat, length: nat)
        requires
            self.wf(),
            offset + length <= self.bits(),
        ensures
            quot((self.head() + offset) as int, T::width()) >= 0,
            0 <= rem((self.head() + offset) as int, T::width()) < T::width(),
            self.spec_sub_range(offset, length).ptr == self.base() + byte_times(
                quot((self.head() + offset) as int, T::width()),
                T::width(),
            ) + rem((self.head() + offset) as int, T::width()) / 8,
            self.spec_sub_range(offset, length).len == length * 8 + rem(
                (self.head() + offset) as int,
                T::width(),
            ) % 8,
    {
        T::lemma_width();
        let w = T::width();
        let total = (self.head() + offset) as int;
        let q = quot(total, w);
        let nh = rem(total, w);
        self.lemma_unpack();
        lemma_span(w, self.head(), self.bits());
        lemma_span(w, nh as nat, length);
        lemma_sub_span(w, self.head(), self.bits(), offset, length);
        let moved = self.base() + byte_times(q, w);
        lemma_skip(w, self.base() as int, q);
        lemma_packed(w, moved, nh);
    }

    /// What a change of head leaves: the same base and length.
    pub proof fn lemma_set_head(self, head: nat)
        requires
            admissible::<T>(self.base(), head, self.bits()),
        ensures
            self.spec_set_head(head).wf(),
            self.spec_set_head(head).base() == self.base(),
            self.spec_set_head(head).elem() == self.elem(),
            self.spec_set_head(head).head() == head,
            self.spec_set_head(head).bits() == self.bits(),
    {
        self.lemma_unpack();
        lemma_admissible::<T>(self.base(), head, self.bits());
        Self::lemma_pack(self.base(), head, self.bits());
    }

    /// What a change of length leaves: the same base and head.
    pub proof fn lemma_set_len(self, bits: nat)
        requires
            admissible::<T>(self.base(), self.head(), bits),
        ensures
            self.spec_set_len(bits).wf(),
            self.spec_set_len(bits).base() == self.base(),
            self.spec_set_len(bits).elem() == self.elem(),
            self.spec_set_len(bits).head() == self.head(),
            self.spec_set_len(bits).bits() == bits,
    {
        self.lemma_unpack();
        lemma_admissible::<T>(self.base(), self.head(), bits);
        Self::lemma_pack(self.base(), self.head(), bits);
    }

    /// Every bit of a region lies in one of the elements that the region
    /// touches, at an index inside that element.
    pub proof fn lemma_locate(self, i: nat)
        requires
            i < self.bits(),
        ensures
            self.elem() <= self.elem_of(i) < self.elem() + self.elems(),
            self.index_of(i) < T::width(),
    {
        T::lemma_width();
        let w = T::width();
        self.lemma_unpack();
        lemma_span(w, self.head(), self.bits());
        lemma_width_ops((self.head() + i) as int, w as int, w);
    }

    /// Bit `i` of a region is covered by it, at the place where it lives,
    /// and its index is found again from that place.
    pub proof fn lemma_index_at(self, i: nat)
        requires
            i < self.bits(),
        ensures
            self.index_at(self.elem_of(i), self.index_of(i)) == i,
            self.covers(self.elem_of(i), self.index_of(i)),
    {
        T::lemma_width();
        let w = T::width();
        lemma_width_ops((self.head() + i) as int, w as int, w);
    }

    /// A place that a region covers is the place of the bit whose index
    /// `index_at` gives.
    pub proof fn lemma_covers(self, j: nat, k: nat)
        requires
            self.covers(j, k),
        ensures
            self.elem_of(self.index_at(j, k) as nat) == j,
            self.index_of(self.index_at(j, k) as nat) == k,
            self.elem() <= j < self.elem() + self.elems(),
    {
        T::lemma_width();
        let w = T::width();
        let i = self.index_at(j, k);
        self.lemma_unpack();
        lemma_width_ops(self.head() + i, w as int, w);
        self.lemma_locate(i as nat);
    }

    /// Two different bits of a region never share a place: they differ in
    /// their element or in their index inside it.
    pub proof fn lemma_locate_injective(self, i: nat, j: nat)
        requires
            i != j,
        ensures
            self.elem_of(i) != self.elem_of(j) || self.index_of(i) != self.index_of(j),
    {
        T::lemma_width();
        let w = T::width();
        lemma_width_ops((self.head() + i) as int, w as int, w);
        lemma_width_ops((self.head() + j) as int, w as int, w);
    }

    /// Bit `j` of a sub-range at `offset` is bit `offset + j` of the
    /// region: both live in the same element, at the same index.
    pub proof fn lemma_sub_range_locates(self, offset: nat, length: nat, j: nat)
        requires
            self.wf(),
            offset + length <= self.bits(),
        ensures
            self.spec_sub_range(offset, length).elem_of(j) == self.elem_of(offset + j),
            self.spec_sub_range(offset, length).index_of(j) == self.index_of(offset + j),
    {
        T::lemma_width();
        self.lemma_sub_range(offset, length);
        lemma_carry(self.head() + offset, j, T::width());
    }

    /// Taking a sub-range of a sub-range is taking one sub-range at the sum
    /// of the offsets.
    pub proof fn lemma_sub_range_composes(self, a: nat, k: nat, c: nat, m: nat)
        requires
            self.wf(),
            a + k <= self.bits(),
            c + m <= k,
        ensures
            self.spec_sub_range(a, k).spec_sub_range(c, m) == self.spec_sub_range(a + c, m),
    {
        T::lemma_width();
        let w = T::width();
        let first = self.spec_sub_range(a, k);
        let both = first.spec_sub_range(c, m);
        let once = self.spec_sub_range(a + c, m);
        self.lemma_sub_range(a, k);
        first.lemma_sub_range(c, m);
        self.lemma_sub_range(a + c, m);
        assert(both.elem() == once.elem() && both.head() == once.head()) by {
            lemma_carry(self.head() + a, c, w);
        }
        both.lemma_ext(once);
    }

    /// The descriptor of the empty region at the start of a buffer.
    pub fn empty() -> (p: Self)
        ensures
            p.wf(),
            p.base() == 0,
            p.elem() == 0,
            p.head() == 0,
            p.bits() == 0,
    {
        proof {
            T::lemma_width();
            Self::lemma_pack(0, 0, 0);
        }
        BitPtr { ptr: 0, len: 0, ty: PhantomData }
    }

    /// Makes the descriptor of the region of `bits` bits whose first bit
    /// has index `head` in the element at byte offset `base`. Fails with
    /// `InvalidPointer` when the three do not name a region.
    #[verifier::spinoff_prover]
    #[verifier::rlimit(40)]
    pub fn new(base: usize, head: u8, bits: usize) -> (r: Result<Self, Error>)
        ensures
            r is Ok <==> admissible::<T>(base as nat, head as nat, bits as nat),
            r matches Ok(p) ==> p.wf() && p.base() == base && p.head() == head && p.bits()
                == bits && p.elem() * T::width() == base * 8,
            r matches Err(e) ==> e == Error::InvalidPointer,
    {
        let w = T::bits();
        let bytes = T::bytes();
        proof {
            T::lemma_width();
            lemma_admissible::<T>(base as nat, head as nat, bits as nat);
            lemma_byte_ops(base as int, bytes as int, T::width());
        }
        if head >= w || base % bytes != 0 || bits > usize::MAX / 8 {
            return Err(Error::InvalidPointer);
        }
        proof {
            lemma_width_ops(head + bits + w - 1, w as int, T::width());
        }
        let touched: usize = if bits == 0 {
            0
        } else {
            (head as usize + bits + (w as usize - 1)) / (w as usize)
        };
        proof {
            assert(touched == span_lit(T::width(), head as nat, bits as nat));
            lemma_byte_ops(touched as int, bytes as int, T::width());
        }
        if touched * bytes > usize::MAX - base {
            return Err(Error::InvalidPointer);
        }
        proof {
            Self::lemma_pack(base as nat, head as nat, bits as nat);
            lemma_width_ops(byte_quot(base as int, T::width()), T::width() as int, T::width());
        }
        Ok(
            BitPtr {
                ptr: base + (head / 8) as usize,
                len: bits * 8 + (head % 8) as usize,
                ty: PhantomData,
            },
        )
    }

    /// The byte offset of the region's first element.
    pub fn base_offset(&self) -> (base: usize)
        ensures
            base == self.base(),
            self.wf(),
    {
        let bytes = T::bytes();
        proof {
            use_type_invariant(self);
            T::lemma_width();
            reveal(BitPtr::base);
            lemma_byte_ops(self.ptr as int, bytes as int, T::width());
        }
        self.ptr - self.ptr % bytes
    }

    /// The index of the region's first element in the buffer.
    pub fn element(&self) -> (index: usize)
        ensures
            index == self.elem(),
            self.wf(),
    {
        let bytes = T::bytes();
        let base = self.base_offset();
        proof {
            T::lemma_width();
            reveal(BitPtr::elem);
            lemma_byte_ops(base as int, bytes as int, T::width());
        }
        base / bytes
    }

    /// The in-element index of the region's first bit.
    pub fn first(&self) -> (head: u8)
        ensures
            head == self.head(),
            head < T::width(),
            self.wf(),
    {
        let bytes = T::bytes();
        proof {
            use_type_invariant(self);
            T::lemma_width();
            reveal(BitPtr::head);
            lemma_byte_ops(self.ptr as int, bytes as int, T::width());
        }
        ((self.ptr % bytes) * 8 + self.len % 8) as u8
    }

    /// The region's length in bits.
    pub fn len(&self) -> (bits: usize)
        ensures
            bits == self.bits(),
            bits <= max_bits(),
            self.wf(),
    {
        proof {
            use_type_invariant(self);
            reveal(BitPtr::bits);
        }
        self.len / 8
    }

    /// The number of elements that the region touches.
    pub fn elements(&self) -> (n: usize)
        ensures
            n == self.elems(),
            self.wf(),
    {
        let bits = self.len();
        let head = self.first();
        let w = T::bits();
        proof {
            T::lemma_width();
            lemma_span(T::width(), self.head(), self.bits());
            lemma_width_ops(head + bits + w - 1, w as int, T::width());
        }
        if bits == 0 {
            0
        } else {
            (head as usize + bits + (w as usize - 1)) / (w as usize)
        }
    }

    /// Finds bit `i` of the region: the index of its element in the buffer
    /// and its index inside that element.
    pub fn locate(&self, i: usize) -> (at: (usize, u8))
        requires
            i < self.bits(),
        ensures
            at.0 == self.elem_of(i as nat),
            at.1 == self.index_of(i as nat),
            self.elem() <= at.0 < self.elem() + self.elems(),
            at.1 < T::width(),
    {
        let head = self.first();
        let w = T::bits();
        let first = self.element();
        proof {
            T::lemma_width();
            self.lemma_locate(i as nat);
            self.lemma_fields();
            lemma_width_ops(head + i, w as int, T::width());
        }
        let total = head as usize + i;
        (first + total / (w as usize), (total % (w as usize)) as u8)
    }

    /// Describes the bits `offset..offset + length` of this region. The new
    /// head is `(head + offset) mod W`, and the elements that the offset
    /// skips are added to the base. Fails with `OutOfBounds` when the range
    /// reaches past the end of the region.
    #[verifier::spinoff_prover]
    #[verifier::rlimit(40)]
    pub fn sub_range(&self, offset: usize, length: usize) -> (r: Result<Self, Error>)
        ensures
            self.wf(),
            r is Ok <==> offset + length <= self.bits(),
            r matches Ok(p) ==> p == self.spec_sub_range(offset as nat, length as nat) && p.wf()
                && p.elem() == self.elem_of(offset as nat) && p.head() == self.index_of(
                offset as nat,
            ) && p.bits() == length,
            r matches Err(e) ==> e == Error::OutOfBounds,
    {
        let bits = self.len();
        if offset > bits || length > bits - offset {
            return Err(Error::OutOfBounds);
        }
        let w = T::bits();
        let bytes = T::bytes();
        let head = self.first();
        let base = self.base_offset();
        let total = head as usize + offset;
        proof {
            T::lemma_width();
            self.lemma_sub_range(offset as nat, length as nat);
            self.lemma_sub_range_parts(offset as nat, length as nat);
            lemma_width_ops(total as int, w as int, T::width());
        }
        let next = total % (w as usize);
        let skipped = total / (w as usize);
        proof {
            lemma_byte_ops(skipped as int, bytes as int, T::width());
        }
        Ok(
            BitPtr {
                ptr: base + skipped * bytes + next / 8,
                len: length * 8 + next % 8,
                ty: PhantomData,
            },
        )
    }

    /// Replaces the head and keeps base and length. The caller guarantees
    /// that the new head lies inside an element and that the region still
    /// ends inside the address space.
    #[verifier::spinoff_prover]
    #[verifier::rlimit(40)]
    pub fn set_head(&mut self, head: u8)
        requires
            admissible::<T>(old(self).base(), head as nat, old(self).bits()),
        ensures
            *final(self) == old(self).spec_set_head(head as nat),
            final(self).wf(),
            final(self).base() == old(self).base(),
            final(self).elem() == old(self).elem(),
            final(self).head() == head,
            final(self).bits() == old(self).bits(),
    {
        proof {
            T::lemma_width();
            self.lemma_unpack();
            lemma_admissible::<T>(self.base(), head as nat, self.bits());
            self.lemma_set_head(head as nat);
            Self::lemma_pack(self.base(), head as nat, self.bits());
        }
        let base = self.base_offset();
        let bits = self.len();
        *self = BitPtr {
            ptr: base + (head / 8) as usize,
            len: bits * 8 + (head % 8) as usize,
            ty: PhantomData,
        };
    }

    /// Replaces the length and keeps base and head. The caller guarantees
    /// that the longer or shorter region is still one that can be named.
    #[verifier::spinoff_prover]
    #[verifier::rlimit(40)]
    pub fn set_len(&mut self, bits: usize)
        requires
            admissible::<T>(old(self).base(), old(self).head(), bits as nat),
        ensures
            *final(self) == old(self).spec_set_len(bits as nat),
            final(self).wf(),
            final(self).base() == old(self).base(),
            final(self).elem() == old(self).elem(),
            final(self).head() == old(self).head(),
            final(self).bits() == bits,
    {
        proof {
            T::lemma_width();
            self.lemma_unpack();
            lemma_admissible::<T>(self.base(), self.head(), bits as nat);
            self.lemma_set_len(bits as nat);
            Self::lemma_pack(self.base(), self.head(), bits as nat);
        }
        let head = self.first();
        let base = self.base_offset();
        *self = BitPtr {
            ptr: base + (head / 8) as usize,
            len: bits * 8 + (head % 8) as usize,
            ty: PhantomData,
        };
    }
}

} // verus!
