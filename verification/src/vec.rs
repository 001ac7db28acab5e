//! The growable, owning bit vector.
//!
//! A vector owns a buffer of elements and describes the live bits in it.
//! Its length is the number of live bits; its capacity is the number of
//! bits that the buffer can hold from the first live bit on. Growth
//! lengthens the buffer, at least to twice its length, and keeps every
//! live bit where it is.

pub mod traits;

use vstd::prelude::*;
use crate::access::Access;
use crate::arith::{lemma_byte_ops, lemma_width_ops};
use crate::error::Error;
use crate::order::BitOrder;
use crate::pointer::{admissible, max_bits, span, BitPtr};
use crate::slice::BitSlice;
use crate::store::{zero, BitStore};

verus! {

/// The longest buffer, in elements, whose size in bits fits a machine
/// word.
pub open spec fn max_elems<T: BitStore>() -> nat {
    (usize::MAX as nat) / T::width()
}

/// The length, in elements, that a buffer of `have` elements is given when
/// it must hold `need`: as it is where that is enough, and otherwise at
/// least twice as long, as far as the longest buffer allows.
pub open spec fn grown<T: BitStore>(have: nat, need: nat) -> nat {
    if need <= have {
        have
    } else if need >= 2 * have || need >= max_elems::<T>() {
        need
    } else if 2 * have <= max_elems::<T>() {
        2 * have
    } else {
        max_elems::<T>()
    }
}

/// How a buffer of `n` elements stands to a region of `bits` bits that
/// starts at index `head` of the buffer's first element.
pub proof fn lemma_room<T: BitStore>(head: nat, bits: nat, n: nat)
    requires
        head < T::width(),
    ensures
        n <= max_elems::<T>() <==> n * T::width() <= usize::MAX,
        bits > 0 ==> (span(T::width(), head, bits) <= n <==> head + bits <= n * T::width()),
        bits == 0 ==> span(T::width(), head, bits) == 0,
        bits <= max_bits() ==> span(T::width(), head, bits) <= max_elems::<T>(),
        bits <= max_bits() ==> admissible::<T>(0, head, bits),
        span(T::width(), head, bits) <= span(T::width(), head, bits + 1),
{
    T::lemma_width();
    let w = T::width();
    lemma_width_ops(n as int, w as int, w);
    lemma_width_ops(usize::MAX as int, w as int, w);
    lemma_width_ops(head + bits + w - 1, w as int, w);
    lemma_width_ops((head + bits + w) as int, w as int, w);
    lemma_byte_ops(span(w, head, bits) as int, (w / 8) as int, w);
}

/// Lengthens a buffer with clear elements until it holds `target`
/// elements, and keeps the elements that it held.
pub(crate) fn lengthen<T: BitStore>(buf: &mut Vec<T>, target: usize)
    ensures
        final(buf)@.len() == (if old(buf)@.len() >= target {
            old(buf)@.len()
        } else {
            target as nat
        }),
        forall|j: int| 0 <= j < old(buf)@.len() ==> final(buf)@[j] == old(buf)@[j],
{
    while buf.len() < target
        invariant
            old(buf)@.len() <= buf@.len(),
            old(buf)@.len() < target ==> buf@.len() <= target,
            old(buf)@.len() >= target ==> buf@.len() == old(buf)@.len(),
            forall|j: int| 0 <= j < old(buf)@.len() ==> buf@[j] == old(buf)@[j],
        decreases target - buf@.len(),
    {
        buf.push(zero());
    }
}

/// Lengthens a buffer to hold `need` elements, by the growth rule, and
/// keeps the elements that it held.
pub(crate) fn grow_to<T: BitStore>(buf: &mut Vec<T>, need: usize)
    requires
        need <= max_elems::<T>(),
        old(buf)@.len() <= max_elems::<T>(),
    ensures
        final(buf)@.len() == grown::<T>(old(buf)@.len(), need as nat),
        final(buf)@.len() <= max_elems::<T>(),
        need <= final(buf)@.len(),
        forall|j: int| 0 <= j < old(buf)@.len() ==> final(buf)@[j] == old(buf)@[j],
{
    let w = T::bits() as usize;
    proof {
        T::lemma_width();
        lemma_width_ops(usize::MAX as int, w as int, T::width());
    }
    let have = buf.len();
    if need > have {
        let most = usize::MAX / w;
        let target = if need >= most || need - have >= have {
            need
        } else if have <= most / 2 {
            2 * have
        } else {
            most
        };
        lengthen(buf, target);
    }
}

/// Makes room in a buffer for `total` bits from index `head` of its first
/// element on, by the growth rule, and keeps the elements that it held.
fn make_room<T: BitStore>(buf: &mut Vec<T>, head: u8, total: usize)
    requires
        head < T::width(),
        total <= max_bits(),
        old(buf)@.len() <= max_elems::<T>(),
    ensures
        final(buf)@.len() == grown::<T>(old(buf)@.len(), span(T::width(), head as nat, total as nat)),
        final(buf)@.len() <= max_elems::<T>(),
        span(T::width(), head as nat, total as nat) <= final(buf)@.len(),
        forall|j: int| 0 <= j < old(buf)@.len() ==> final(buf)@[j] == old(buf)@[j],
{
    let w = T::bits() as usize;
    proof {
        T::lemma_width();
        lemma_room::<T>(head as nat, total as nat, buf@.len());
        lemma_width_ops(head + total + w - 1, w as int, T::width());
    }
    let need: usize = if total == 0 {
        0
    } else {
        (head as usize + total + (w - 1)) / w
    };
    grow_to(buf, need);
}

/// A growable sequence of bits, stored in elements of type `T` in the bit
/// order `O`.
pub struct BitVec<O: BitOrder, T: BitStore> {
    buf: Vec<T>,
    bits: BitSlice<O, T>,
}

impl<O: BitOrder, T: BitStore> View for BitVec<O, T> {
    type V = Seq<bool>;

    /// The live bits, in order.
    open spec fn view(&self) -> Seq<bool> {
        self.slice().view_in(self.store())
    }
}

impl<O: BitOrder, T: BitStore> BitVec<O, T> {
    /// The elements of the buffer.
    pub closed spec fn store(&self) -> Seq<T> {
        self.buf@
    }

    /// The view of the live bits.
    pub closed spec fn slice(&self) -> BitSlice<O, T> {
        self.bits
    }

    /// The live bits start in the buffer's first element and end inside
    /// the buffer, and the buffer's size in bits fits a machine word.
    pub open spec fn wf(&self) -> bool {
        &&& self.slice().wf()
        &&& self.slice().bitptr().elem() == 0
        &&& self.slice().within(self.store().len())
        &&& self.store().len() <= max_elems::<T>()
    }

    /// Every vector that a program holds is well formed.
    #[verifier::type_invariant]
    pub open spec fn inv(self) -> bool {
        self.wf()
    }

    /// The in-element index of the first live bit.
    pub open spec fn head(&self) -> nat {
        self.slice().bitptr().head()
    }

    /// The number of elements in the buffer.
    pub open spec fn elements(&self) -> nat {
        self.store().len()
    }

    /// The number of bits that the buffer holds from the first live bit
    /// on.
    pub open spec fn spec_capacity(&self) -> nat {
        if self.elements() * T::width() >= self.head() {
            (self.elements() * T::width() - self.head()) as nat
        } else {
            0
        }
    }

    /// The number of elements that a vector with this head needs for
    /// `bits` live bits.
    pub open spec fn needed(&self, bits: nat) -> nat {
        span(T::width(), self.head(), bits)
    }

    /// A vector has room for its live bits, and for as many as its
    /// capacity says.
    pub proof fn lemma_capacity(&self, bits: nat)
        requires
            self.wf(),
        ensures
            self@.len() <= self.spec_capacity(),
            self@.len() <= max_bits(),
            self.head() < T::width(),
            bits <= self.spec_capacity() <==> self.needed(bits) <= self.elements(),
    {
        self.slice().bitptr().lemma_fields();
        lemma_room::<T>(self.head(), bits, self.elements());
        lemma_room::<T>(self.head(), self@.len(), self.elements());
    }

    /// Takes the buffer and the view out of the vector, which is left
    /// empty until they are put back.
    pub(crate) fn take(&mut self) -> (parts: (Vec<T>, BitSlice<O, T>))
        ensures
            parts.0@ == old(self).store(),
            parts.1 == old(self).slice(),
            old(self).wf(),
            old(self).head() < T::width(),
            old(self)@.len() <= max_bits(),
    {
        let mut held = Self::new();
        core::mem::swap(self, &mut held);
        proof {
            use_type_invariant(&held);
            held.lemma_capacity(0);
        }
        let BitVec { buf, bits } = held;
        (buf, bits)
    }

    /// Puts a buffer and a view of its live bits into the vector.
    pub(crate) fn put(&mut self, buf: Vec<T>, bits: BitSlice<O, T>)
        requires
            bits.wf(),
            bits.bitptr().elem() == 0,
            bits.within(buf@.len()),
            buf@.len() <= max_elems::<T>(),
        ensures
            final(self).store() == buf@,
            final(self).slice() == bits,
            final(self).wf(),
    {
        *self = BitVec { buf, bits };
    }

    /// Takes the vector apart into its buffer and the view of its live
    /// bits.
    pub(crate) fn into_parts(self) -> (parts: (Vec<T>, BitSlice<O, T>))
        ensures
            parts.0@ == self.store(),
            parts.1 == self.slice(),
            self.wf(),
    {
        proof {
            use_type_invariant(&self);
        }
        let BitVec { buf, bits } = self;
        (buf, bits)
    }

    /// Makes a vector of a buffer and a view of its live bits.
    pub(crate) fn from_parts(buf: Vec<T>, bits: BitSlice<O, T>) -> (v: Self)
        requires
            bits.wf(),
            bits.bitptr().elem() == 0,
            bits.within(buf@.len()),
            buf@.len() <= max_elems::<T>(),
        ensures
            v.store() == buf@,
            v.slice() == bits,
            v.wf(),
    {
        BitVec { buf, bits }
    }

    /// The view of `bits` live bits from the first bit of `view` on.
    pub(crate) fn resized(view: &BitSlice<O, T>, bits: usize, room: Ghost<nat>) -> (r: BitSlice<
        O,
        T,
    >)
        requires
            view.bitptr().elem() == 0,
            bits <= max_bits(),
            span(T::width(), view.bitptr().head(), bits as nat) <= room@,
        ensures
            r.wf(),
            r.bits() == bits,
            r.bitptr().elem() == 0,
            r.bitptr().head() == view.bitptr().head(),
            r.within(room@),
    {
        let mut ptr = view.as_bitptr();
        proof {
            ptr.lemma_fields();
            lemma_room::<T>(ptr.head(), bits as nat, room@);
            T::lemma_width();
            lemma_byte_ops(0, (T::width() / 8) as int, T::width());
        }
        ptr.set_len(bits);
        BitSlice::from_bitptr(ptr)
    }

    /// An empty vector, with no buffer.
    pub fn new() -> (v: Self)
        ensures
            v.wf(),
            v@ == Seq::<bool>::empty(),
            v.head() == 0,
            v.elements() == 0,
    {
        let ptr = BitPtr::<T>::empty();
        let bits = BitSlice::from_bitptr(ptr);
        proof {
            T::lemma_width();
            assert(bits.view_in(Seq::<T>::empty()) =~= Seq::<bool>::empty());
        }
        BitVec { buf: Vec::new(), bits }
    }

    /// A vector that holds the bits of `bits`, in order, from the first
    /// bit of its first element on. The number of bits must be one that a
    /// descriptor can name.
    pub fn from_bits(bits: &[bool]) -> (v: Self)
        requires
            bits@.len() <= max_bits(),
        ensures
            v.wf(),
            v@ == bits@,
            v.head() == 0,
    {
        let mut v = Self::new();
        v.extend(bits);
        proof {
            assert(Seq::<bool>::empty() + bits@ =~= bits@);
        }
        v
    }

    /// An empty vector with room for `bits` bits. The number of bits must
    /// be one that a descriptor can name.
    pub fn with_capacity(bits: usize) -> (v: Self)
        requires
            bits <= max_bits(),
        ensures
            v.wf(),
            v@ == Seq::<bool>::empty(),
            v.head() == 0,
            v.elements() == span(T::width(), 0, bits as nat),
            v.spec_capacity() >= bits,
    {
        let mut v = Self::new();
        v.reserve(bits);
        proof {
            v.lemma_capacity(bits as nat);
        }
        v
    }

    /// The number of live bits.
    pub fn len(&self) -> (n: usize)
        ensures
            n == self@.len(),
            n <= max_bits(),
    {
        self.bits.len()
    }

    /// Whether the vector holds no bit.
    pub fn is_empty(&self) -> (b: bool)
        ensures
            b == (self@.len() == 0),
    {
        self.bits.len() == 0
    }

    /// The number of bits that the buffer holds from the first live bit
    /// on.
    pub fn capacity(&self) -> (n: usize)
        ensures
            n == self.spec_capacity(),
            n >= self@.len(),
    {
        proof {
            use_type_invariant(self);
            T::lemma_width();
            self.lemma_capacity(0);
            lemma_room::<T>(self.head(), 0, self.buf@.len());
        }
        let total = self.buf.len() * (T::bits() as usize);
        let head = self.bits.as_bitptr().first() as usize;
        if total >= head {
            total - head
        } else {
            0
        }
    }

    /// The number of elements in the buffer.
    pub fn storage_len(&self) -> (n: usize)
        ensures
            n == self.elements(),
    {
        self.buf.len()
    }

    /// The in-element index of the first live bit.
    pub fn first_index(&self) -> (head: u8)
        ensures
            head == self.head(),
    {
        self.bits.as_bitptr().first()
    }

    /// The view of the live bits. It lies inside the vector's buffer.
    pub fn as_bitslice(&self) -> (s: &BitSlice<O, T>)
        ensures
            *s == self.slice(),
            s.wf(),
            s.within(self.store().len()),
            s.view_in(self.store()) == self@,
            self.wf(),
    {
        proof {
            use_type_invariant(self);
        }
        &self.bits
    }

    /// The elements of the buffer.
    pub fn as_slice(&self) -> (elems: &[T])
        ensures
            elems@ == self.store(),
    {
        self.buf.as_slice()
    }

    /// Reads bit `index`. Fails with `IndexOutOfRange` when the vector has
    /// no such bit.
    pub fn get(&self, index: usize) -> (r: Result<bool, Error>)
        ensures
            index < self@.len() ==> r == Ok::<bool, Error>(self@[index as int]),
            index >= self@.len() ==> r == Err::<bool, Error>(Error::IndexOutOfRange),
    {
        proof {
            use_type_invariant(self);
        }
        self.bits.get(self.buf.as_slice(), index)
    }

    /// Writes bit `index` and leaves every other bit as it was. Fails with
    /// `IndexOutOfRange`, and changes nothing, when the vector has no such
    /// bit.
    pub fn set(&mut self, index: usize, value: bool) -> (r: Result<(), Error>)
        ensures
            final(self).wf(),
            final(self).slice() == old(self).slice(),
            index < old(self)@.len() ==> r is Ok && final(self)@ == old(self)@.update(
                index as int,
                value,
            ),
            index >= old(self)@.len() ==> r == Err::<(), Error>(Error::IndexOutOfRange) && final(self)@ == old(self)@,
    {
        let (mut buf, bits) = self.take();
        let r = bits.set_with(buf.as_mut_slice(), index, value, Access::Exclusive);
        self.put(buf, bits);
        r
    }

    /// Writes bit `index` of a view of this vector's buffer, as one of
    /// several views that may share elements, and leaves every bit outside
    /// that view as it was. Fails with `OutOfBounds` when the view does not
    /// lie inside the buffer and with `IndexOutOfRange` when it has no such
    /// bit; either way nothing changes.
    pub fn set_aliased(&mut self, view: &BitSlice<O, T>, index: usize, value: bool) -> (r: Result<
        (),
        Error,
    >)
        ensures
            final(self).wf(),
            final(self).slice() == old(self).slice(),
            final(self).elements() == old(self).elements(),
            !view.within(old(self).elements()) ==> r == Err::<(), Error>(Error::OutOfBounds)
                && final(self).store() == old(self).store(),
            view.within(old(self).elements()) && index >= view.bits() ==> r == Err::<(), Error>(
                Error::IndexOutOfRange,
            ) && final(self).store() == old(self).store(),
            view.within(old(self).elements()) && index < view.bits() ==> r is Ok && view.view_in(
                final(self).store(),
            ) == view.view_in(old(self).store()).update(index as int, value) && view.frame(
                old(self).store(),
                final(self).store(),
            ),
    {
        let (mut buf, bits) = self.take();
        let ptr = view.as_bitptr();
        proof {
            ptr.lemma_fields();
        }
        let fits = ptr.element() <= buf.len() && ptr.elements() <= buf.len() - ptr.element();
        let r = if fits {
            view.set_with(buf.as_mut_slice(), index, value, Access::Shared)
        } else {
            Err(Error::OutOfBounds)
        };
        self.put(buf, bits);
        r
    }

    /// Makes room for `additional` more bits, by the growth rule, and keeps
    /// the live bits. The new length must be one that a descriptor can
    /// name.
    pub fn reserve(&mut self, additional: usize)
        requires
            old(self)@.len() + additional <= max_bits(),
        ensures
            final(self).wf(),
            final(self)@ == old(self)@,
            final(self).slice() == old(self).slice(),
            final(self).elements() == grown::<T>(
                old(self).elements(),
                old(self).needed((old(self)@.len() + additional) as nat),
            ),
            final(self).spec_capacity() >= old(self)@.len() + additional,
    {
        let (mut buf, bits) = self.take();
        let head = bits.as_bitptr().first();
        let total = bits.len() + additional;
        let ghost before = buf@;
        make_room(&mut buf, head, total);
        proof {
            bits.lemma_same_elements(before, buf@);
            bits.bitptr().lemma_fields();
            lemma_room::<T>(head as nat, total as nat, buf@.len());
            lemma_room::<T>(head as nat, bits.bits(), before.len());
            lemma_room::<T>(head as nat, bits.bits(), buf@.len());
        }
        self.put(buf, bits);
    }

    /// Appends a bit. The vector must not be at the longest length that a
    /// descriptor can name.
    pub fn push(&mut self, value: bool)
        requires
            old(self)@.len() < max_bits(),
        ensures
            final(self).wf(),
            final(self)@ == old(self)@.push(value),
            final(self).head() == old(self).head(),
            final(self).elements() == grown::<T>(
                old(self).elements(),
                old(self).needed(old(self)@.len() + 1),
            ),
    {
        let (mut buf, bits) = self.take();
        let head = bits.as_bitptr().first();
        let n = bits.len();
        let ghost before = buf@;
        make_room(&mut buf, head, n + 1);
        let longer = Self::resized(&bits, n + 1, Ghost(buf@.len()));
        let ghost mid = buf@;
        let _ = longer.set_with(buf.as_mut_slice(), n, value, Access::Exclusive);
        proof {
            bits.lemma_same_elements(before, mid);
            bits.lemma_prefix(longer, mid);
            assert(longer.view_in(buf@) =~= bits.view_in(before).push(value));
        }
        self.put(buf, longer);
    }

    /// Removes the last bit and returns it, or returns `None` when the
    /// vector is empty. The buffer stays as long as it was.
    pub fn pop(&mut self) -> (r: Option<bool>)
        ensures
            final(self).wf(),
            final(self).head() == old(self).head(),
            final(self).elements() == old(self).elements(),
            old(self)@.len() == 0 ==> r.is_none() && final(self)@ == old(self)@,
            old(self)@.len() > 0 ==> r == Some(old(self)@.last()) && final(self)@
                == old(self)@.drop_last(),
    {
        let (buf, bits) = self.take();
        let n = bits.len();
        if n == 0 {
            self.put(buf, bits);
            return None;
        }
        let last = match bits.get(buf.as_slice(), n - 1) {
            Ok(b) => b,
            Err(_) => false,
        };
        proof {
            lemma_room::<T>(bits.bitptr().head(), (n - 1) as nat, buf@.len());
            lemma_room::<T>(bits.bitptr().head(), n as nat, buf@.len());
        }
        let shorter = Self::resized(&bits, n - 1, Ghost(buf@.len()));
        proof {
            shorter.lemma_prefix(bits, buf@);
            assert(shorter.view_in(buf@) =~= bits.view_in(buf@).drop_last());
        }
        self.put(buf, shorter);
        Some(last)
    }

    /// Shortens the vector to `len` bits, or leaves it where it is no
    /// longer than that. The buffer stays as long as it was.
    pub fn truncate(&mut self, len: usize)
        ensures
            final(self).wf(),
            final(self).head() == old(self).head(),
            final(self).elements() == old(self).elements(),
            final(self).store() == old(self).store(),
            len < old(self)@.len() ==> final(self)@ == old(self)@.take(len as int),
            len >= old(self)@.len() ==> final(self)@ == old(self)@,
    {
        let (buf, bits) = self.take();
        let n = bits.len();
        if len >= n {
            self.put(buf, bits);
            return ;
        }
        proof {
            let head = bits.bitptr().head();
            let w = T::width();
            T::lemma_width();
            lemma_width_ops(head + len + w - 1, w as int, w);
            lemma_width_ops(head + n + w - 1, w as int, w);
        }
        let shorter = Self::resized(&bits, len, Ghost(buf@.len()));
        proof {
            shorter.lemma_prefix(bits, buf@);
        }
        self.put(buf, shorter);
    }

    /// Removes every bit. The buffer stays as long as it was.
    pub fn clear(&mut self)
        ensures
            final(self).wf(),
            final(self)@ == Seq::<bool>::empty(),
            final(self).head() == old(self).head(),
            final(self).elements() == old(self).elements(),
            final(self).store() == old(self).store(),
    {
        self.truncate(0);
        proof {
            assert(old(self)@.take(0) =~= Seq::<bool>::empty());
            assert(self@ =~= Seq::<bool>::empty());
        }
    }

    /// Appends the bits of `bits`, in order, after making room for all of
    /// them at once. The new length must be one that a descriptor can
    /// name.
    pub fn extend(&mut self, bits: &[bool])
        requires
            old(self)@.len() + bits@.len() <= max_bits(),
        ensures
            final(self).wf(),
            final(self)@ == old(self)@ + bits@,
            final(self).head() == old(self).head(),
            final(self).elements() == grown::<T>(
                old(self).elements(),
                old(self).needed((old(self)@.len() + bits@.len()) as nat),
            ),
    {
        let n = bits.len();
        self.reserve(n);
        let mut i: usize = 0;
        let ghost room = self.elements();
        proof {
            assert(old(self)@ + bits@.take(0) =~= old(self)@);
        }
        while i < n
            invariant
                n == bits@.len(),
                i <= n,
                old(self)@.len() + n <= max_bits(),
                self@ == old(self)@ + bits@.take(i as int),
                self.head() == old(self).head(),
                self.elements() == room,
                self.needed((old(self)@.len() + n) as nat) <= room,
                self.wf(),
            decreases n - i,
        {
            proof {
                self.lemma_capacity((old(self)@.len() + n) as nat);
                self.lemma_capacity((self@.len() + 1) as nat);
            }
            self.push(bits[i]);
            proof {
                assert(bits@.take(i + 1) =~= bits@.take(i as int).push(bits@[i as int]));
                assert(old(self)@ + bits@.take(i + 1) =~= (old(self)@ + bits@.take(i as int)).push(
                    bits@[i as int],
                ));
            }
            i = i + 1;
        }
        proof {
            assert(bits@.take(n as int) =~= bits@);
        }
    }

    /// Inserts a bit before position `index` and moves the bits from there
    /// on one place up. Fails with `IndexOutOfRange`, and changes nothing,
    /// when `index` is past the end. The vector must not be at the longest
    /// length that a descriptor can name.
    pub fn insert(&mut self, index: usize, value: bool) -> (r: Result<(), Error>)
        requires
            old(self)@.len() < max_bits(),
        ensures
            final(self).wf(),
            final(self).head() == old(self).head(),
            index <= old(self)@.len() ==> r is Ok && final(self)@ == old(self)@.insert(
                index as int,
                value,
            ) && final(self).elements() == grown::<T>(
                old(self).elements(),
                old(self).needed(old(self)@.len() + 1),
            ),
            index > old(self)@.len() ==> r == Err::<(), Error>(Error::IndexOutOfRange) && final(self)@ == old(self)@ && final(self).elements() == old(self).elements(),
    {
        let n = self.len();
        if index > n {
            proof {
                use_type_invariant(&*self);
            }
            return Err(Error::IndexOutOfRange);
        }
        self.push(false);
        let (mut buf, bits) = self.take();
        let ghost was = old(self)@;
        let mut i: usize = n;
        while i > index
            invariant
                bits.wf(),
                bits.bitptr().elem() == 0,
                bits.bitptr().head() == old(self).head(),
                bits.within(buf@.len()),
                buf@.len() <= max_elems::<T>(),
                buf@.len() == grown::<T>(old(self).elements(), old(self).needed(old(self)@.len() + 1)),
                bits.bits() == n + 1,
                was == old(self)@,
                was.len() == n,
                index <= i <= n,
                forall|k: int| 0 <= k <= i && k < n ==> #[trigger] bits.view_in(buf@)[k] == was[k],
                forall|k: int| i < k <= n ==> #[trigger] bits.view_in(buf@)[k] == was[k - 1],
            decreases i,
        {
            let below = match bits.get(buf.as_slice(), i - 1) {
                Ok(b) => b,
                Err(_) => false,
            };
            let _ = bits.set_with(buf.as_mut_slice(), i, below, Access::Exclusive);
            i = i - 1;
        }
        let _ = bits.set_with(buf.as_mut_slice(), index, value, Access::Exclusive);
        proof {
            assert(bits.view_in(buf@) =~= was.insert(index as int, value));
        }
        self.put(buf, bits);
        Ok(())
    }

    /// Removes the bit at position `index`, moves the bits behind it one
    /// place down, and returns it. Fails with `IndexOutOfRange`, and
    /// changes nothing, when the vector has no such bit.
    pub fn remove(&mut self, index: usize) -> (r: Result<bool, Error>)
        ensures
            final(self).wf(),
            final(self).head() == old(self).head(),
            final(self).elements() == old(self).elements(),
            index < old(self)@.len() ==> r == Ok::<bool, Error>(old(self)@[index as int])
                && final(self)@ == old(self)@.remove(index as int),
            index >= old(self)@.len() ==> r == Err::<bool, Error>(Error::IndexOutOfRange)
                && final(self)@ == old(self)@,
    {
        let (mut buf, bits) = self.take();
        let n = bits.len();
        if index >= n {
            self.put(buf, bits);
            return Err(Error::IndexOutOfRange);
        }
        let ghost was = bits.view_in(buf@);
        let gone = match bits.get(buf.as_slice(), index) {
            Ok(b) => b,
            Err(_) => false,
        };
        let mut i: usize = index;
        while i + 1 < n
            invariant
                bits.wf(),
                bits.bitptr().elem() == 0,
                bits.within(buf@.len()),
                buf@.len() == old(self).elements(),
                bits == old(self).slice(),
                bits.bits() == n,
                was == old(self)@,
                index <= i < n,
                forall|k: int| 0 <= k < index ==> #[trigger] bits.view_in(buf@)[k] == was[k],
                forall|k: int| index <= k < i ==> #[trigger] bits.view_in(buf@)[k] == was[k + 1],
                forall|k: int| i <= k < n ==> #[trigger] bits.view_in(buf@)[k] == was[k],
            decreases n - i,
        {
            let above = match bits.get(buf.as_slice(), i + 1) {
                Ok(b) => b,
                Err(_) => false,
            };
            let _ = bits.set_with(buf.as_mut_slice(), i, above, Access::Exclusive);
            i = i + 1;
        }
        proof {
            let head = bits.bitptr().head();
            let w = T::width();
            T::lemma_width();
            lemma_width_ops(head + (n - 1) + w - 1, w as int, w);
            lemma_width_ops(head + n + w - 1, w as int, w);
        }
        let shorter = Self::resized(&bits, n - 1, Ghost(buf@.len()));
        proof {
            shorter.lemma_prefix(bits, buf@);
            assert(shorter.view_in(buf@) =~= was.remove(index as int));
        }
        self.put(buf, shorter);
        Ok(gone)
    }

    /// Writes `value` to every live bit.
    pub fn fill(&mut self, value: bool)
        ensures
            final(self).wf(),
            final(self).slice() == old(self).slice(),
            final(self).elements() == old(self).elements(),
            final(self)@ == Seq::new(old(self)@.len(), |i: int| value),
    {
        let (mut buf, bits) = self.take();
        bits.fill(buf.as_mut_slice(), value);
        self.put(buf, bits);
    }

    /// Makes a vector that owns a copy of the bits of a view. The copy
    /// keeps the view's head, takes whole elements where the view covers
    /// them, and goes through a mask at the two ends; the bits of the new
    /// buffer that are not live are clear.
    pub fn from_bitslice(view: &BitSlice<O, T>, store: &[T]) -> (v: Self)
        requires
            view.within(store@.len()),
        ensures
            v.wf(),
            v@ == view.view_in(store@),
            v.head() == view.bitptr().head(),
            v.elements() == view.bitptr().elems(),
    {
        let from = view.as_bitptr();
        let head = from.first();
        let n = from.len();
        let mut buf: Vec<T> = Vec::new();
        proof {
            from.lemma_fields();
            lemma_room::<T>(head as nat, n as nat, 0);
        }
        lengthen(&mut buf, from.elements());
        match BitPtr::<T>::new(0, head, n) {
            Ok(ptr) => {
                let bits = BitSlice::<O, T>::from_bitptr(ptr);
                proof {
                    ptr.lemma_fields();
                    T::lemma_width();
                    lemma_byte_ops(ptr.elem() as int, (T::width() / 8) as int, T::width());
                }
                bits.copy_from(buf.as_mut_slice(), view, store);
                BitVec { buf, bits }
            },
            Err(_) => Self::new(),
        }
    }
}

impl<O: BitOrder, T: BitStore> BitSlice<O, T> {
    /// Makes a vector that owns a copy of the view's bits, with the view's
    /// head and no spare room.
    pub fn to_bitvec(&self, store: &[T]) -> (v: BitVec<O, T>)
        requires
            self.within(store@.len()),
        ensures
            v.wf(),
            v@ == self.view_in(store@),
            v.head() == self.bitptr().head(),
            v.elements() == self.bitptr().elems(),
    {
        BitVec::from_bitslice(self, store)
    }
}

} // verus!
