//! Storage elements: the unsigned integers that hold the bits.
//!
//! Every element type converts without loss to and from a 64-bit register,
//! and all bit arithmetic is done on registers. An element of width `W`
//! occupies the low `W` bits of its register.

use vstd::prelude::*;

verus! {

/// Whether the bit at physical position `pos` of a register is set.
pub open spec fn bit_of(reg: u64, pos: nat) -> bool {
    (reg >> (pos as u64)) & 1 == 1
}

/// The element widths that can back a bit region.
pub open spec fn supported(width: nat) -> bool {
    width == 8 || width == 16 || width == 32 || width == 64
}

/// The register with the low `width` bits set: the largest value an element
/// of that width can hold.
pub open spec fn max_of(width: nat) -> u64 {
    if width == 8 {
        0xff
    } else if width == 16 {
        0xffff
    } else if width == 32 {
        0xffff_ffff
    } else {
        0xffff_ffff_ffff_ffff
    }
}

/// The register `reg` with the bit at `pos` set to `value`.
pub open spec fn reg_write(reg: u64, pos: nat, value: bool) -> u64 {
    if value {
        reg | (1u64 << (pos as u64))
    } else {
        reg & !(1u64 << (pos as u64))
    }
}

/// The register that takes the bits under `mask` from `src` and all others
/// from `reg`.
pub open spec fn reg_merge(reg: u64, mask: u64, src: u64) -> u64 {
    (reg & !mask) | (src & mask)
}

/// The register with exactly the bits at positions `from..upto` set.
pub open spec fn reg_mask(from: nat, upto: nat) -> u64 {
    if from >= upto {
        0
    } else {
        (0xffff_ffff_ffff_ffffu64 >> ((64 - (upto - from)) as u64)) << (from as u64)
    }
}

proof fn lemma_bv_write(reg: u64, pos: u64, q: u64)
    by (bit_vector)
    requires
        pos < 64,
        q < 64,
    ensures
        ((reg | (1u64 << pos)) >> q) & 1 == 1 <==> (q == pos || (reg >> q) & 1 == 1),
        ((reg & !(1u64 << pos)) >> q) & 1 == 1 <==> (q != pos && (reg >> q) & 1 == 1),
{
}

proof fn lemma_bv_write_bound(reg: u64, pos: u64)
    by (bit_vector)
    ensures
        reg & !(1u64 << pos) <= reg,
        reg <= 0xff && pos < 8 ==> reg | (1u64 << pos) <= 0xff,
        reg <= 0xffff && pos < 16 ==> reg | (1u64 << pos) <= 0xffff,
        reg <= 0xffff_ffff && pos < 32 ==> reg | (1u64 << pos) <= 0xffff_ffff,
{
}

proof fn lemma_bv_merge(reg: u64, mask: u64, src: u64, q: u64)
    by (bit_vector)
    requires
        q < 64,
    ensures
        (((reg & !mask) | (src & mask)) >> q) & 1 == 1 <==> (if (mask >> q) & 1 == 1 {
            (src >> q) & 1 == 1
        } else {
            (reg >> q) & 1 == 1
        }),
{
}

proof fn lemma_bv_merge_bound(reg: u64, mask: u64, src: u64)
    by (bit_vector)
    ensures
        reg <= 0xff && src <= 0xff ==> (reg & !mask) | (src & mask) <= 0xff,
        reg <= 0xffff && src <= 0xffff ==> (reg & !mask) | (src & mask) <= 0xffff,
        reg <= 0xffff_ffff && src <= 0xffff_ffff ==> (reg & !mask) | (src & mask) <= 0xffff_ffff,
{
}

proof fn lemma_bv_mask(from: u64, upto: u64, q: u64)
    by (bit_vector)
    requires
        from < upto,
        upto <= 64,
        q < 64,
    ensures
        (((0xffff_ffff_ffff_ffffu64 >> ((64 - (upto - from)) as u64)) << from) >> q) & 1 == 1 <==> (
        from <= q && q < upto),
{
}

proof fn lemma_bv_mask_bound(from: u64, upto: u64)
    by (bit_vector)
    requires
        from < upto,
        upto <= 64,
    ensures
        upto <= 8 ==> ((0xffff_ffff_ffff_ffffu64 >> ((64 - (upto - from)) as u64)) << from) <= 0xff,
        upto <= 16 ==> ((0xffff_ffff_ffff_ffffu64 >> ((64 - (upto - from)) as u64)) << from)
            <= 0xffff,
        upto <= 32 ==> ((0xffff_ffff_ffff_ffffu64 >> ((64 - (upto - from)) as u64)) << from)
            <= 0xffff_ffff,
{
}

proof fn lemma_bv_or_and(a: u64, b: u64, q: u64)
    by (bit_vector)
    requires
        q < 64,
    ensures
        ((a | b) >> q) & 1 == 1 <==> ((a >> q) & 1 == 1 || (b >> q) & 1 == 1),
        ((a & b) >> q) & 1 == 1 <==> ((a >> q) & 1 == 1 && (b >> q) & 1 == 1),
{
}

proof fn lemma_bv_or_and_bound(a: u64, b: u64)
    by (bit_vector)
    ensures
        a & b <= a,
        a <= 0xff && b <= 0xff ==> a | b <= 0xff,
        a <= 0xffff && b <= 0xffff ==> a | b <= 0xffff,
        a <= 0xffff_ffff && b <= 0xffff_ffff ==> a | b <= 0xffff_ffff,
{
}

proof fn lemma_bv_zero(q: u64)
    by (bit_vector)
    requires
        q < 64,
    ensures
        (0u64 >> q) & 1 == 0,
{
}

proof fn lemma_bv_high(reg: u64, q: u64)
    by (bit_vector)
    requires
        q < 64,
    ensures
        reg <= 0xff && q >= 8 ==> (reg >> q) & 1 == 0,
        reg <= 0xffff && q >= 16 ==> (reg >> q) & 1 == 0,
        reg <= 0xffff_ffff && q >= 32 ==> (reg >> q) & 1 == 0,
{
}

proof fn lemma_bv_ext_top(a: u64, b: u64)
    by (bit_vector)
    requires
        ((a >> 63) & 1 == 1) == ((b >> 63) & 1 == 1),
    ensures
        a >> 63 == b >> 63,
{
}

proof fn lemma_bv_ext_step(a: u64, b: u64, n: u64)
    by (bit_vector)
    requires
        n < 63,
        a >> ((n + 1) as u64) == b >> ((n + 1) as u64),
        ((a >> n) & 1 == 1) == ((b >> n) & 1 == 1),
    ensures
        a >> n == b >> n,
{
}

proof fn lemma_bv_ext_done(a: u64)
    by (bit_vector)
    ensures
        a >> 0 == a,
{
}

proof fn lemma_ext_from(a: u64, b: u64, n: nat)
    requires
        n <= 63,
        forall|q: nat| q < 64 ==> bit_of(a, q) == bit_of(b, q),
    ensures
        a >> (n as u64) == b >> (n as u64),
    decreases 63 - n,
{
    assert(bit_of(a, n) == bit_of(b, n));
    if n == 63 {
        lemma_bv_ext_top(a, b);
    } else {
        lemma_ext_from(a, b, n + 1);
        lemma_bv_ext_step(a, b, n as u64);
    }
}

/// Writing one bit of a register changes that bit and no other.
pub proof fn lemma_reg_write(reg: u64, pos: nat, value: bool, q: nat)
    requires
        pos < 64,
        q < 64,
    ensures
        bit_of(reg_write(reg, pos, value), q) == (if q == pos {
            value
        } else {
            bit_of(reg, q)
        }),
{
    lemma_bv_write(reg, pos as u64, q as u64);
}

/// A write inside an element of `width` bits stays inside that width.
pub proof fn lemma_reg_write_bound(reg: u64, pos: nat, value: bool, width: nat)
    requires
        supported(width),
        pos < width,
        reg <= max_of(width),
    ensures
        reg_write(reg, pos, value) <= max_of(width),
{
    lemma_bv_write_bound(reg, pos as u64);
}

/// A merge takes each bit from the source where the mask is set and keeps
/// it where the mask is clear.
pub proof fn lemma_reg_merge(reg: u64, mask: u64, src: u64, q: nat)
    requires
        q < 64,
    ensures
        bit_of(reg_merge(reg, mask, src), q) == (if bit_of(mask, q) {
            bit_of(src, q)
        } else {
            bit_of(reg, q)
        }),
{
    lemma_bv_merge(reg, mask, src, q as u64);
}

/// A merge of two elements of `width` bits stays inside that width.
pub proof fn lemma_reg_merge_bound(reg: u64, mask: u64, src: u64, width: nat)
    requires
        supported(width),
        reg <= max_of(width),
        src <= max_of(width),
    ensures
        reg_merge(reg, mask, src) <= max_of(width),
{
    lemma_bv_merge_bound(reg, mask, src);
}

/// The union of two registers has a bit set where either has it; their
/// intersection, where both have it.
pub proof fn lemma_reg_or_and(a: u64, b: u64, q: nat)
    requires
        q < 64,
    ensures
        bit_of(a | b, q) == (bit_of(a, q) || bit_of(b, q)),
        bit_of(a & b, q) == (bit_of(a, q) && bit_of(b, q)),
{
    lemma_bv_or_and(a, b, q as u64);
}

/// The union and the intersection of two elements of `width` bits stay
/// inside that width.
pub proof fn lemma_reg_or_and_bound(a: u64, b: u64, width: nat)
    requires
        supported(width),
        a <= max_of(width),
        b <= max_of(width),
    ensures
        a | b <= max_of(width),
        a & b <= max_of(width),
{
    lemma_bv_or_and_bound(a, b);
}

/// A range mask has exactly the bits of its range set.
pub proof fn lemma_reg_mask(from: nat, upto: nat, q: nat)
    requires
        from <= upto <= 64,
        q < 64,
    ensures
        bit_of(reg_mask(from, upto), q) == (from <= q < upto),
{
    if from < upto {
        lemma_bv_mask(from as u64, upto as u64, q as u64);
    } else {
        lemma_bv_zero(q as u64);
    }
}

/// A range mask inside an element of `width` bits stays inside that width.
pub proof fn lemma_reg_mask_bound(from: nat, upto: nat, width: nat)
    requires
        supported(width),
        from <= upto <= width,
    ensures
        reg_mask(from, upto) <= max_of(width),
{
    if from < upto {
        lemma_bv_mask_bound(from as u64, upto as u64);
    }
}

/// Two registers of one width that agree on every bit of that width are the
/// same register.
pub proof fn lemma_reg_ext(a: u64, b: u64, width: nat)
    requires
        supported(width),
        a <= max_of(width),
        b <= max_of(width),
        forall|q: nat| q < width ==> bit_of(a, q) == bit_of(b, q),
    ensures
        a == b,
{
    assert forall|q: nat| q < 64 implies bit_of(a, q) == bit_of(b, q) by {
        if q >= width {
            lemma_bv_high(a, q as u64);
            lemma_bv_high(b, q as u64);
        }
    }
    lemma_ext_from(a, b, 0);
    lemma_bv_ext_done(a);
    lemma_bv_ext_done(b);
}

/// Whether the bit at physical position `pos` of an element is set.
pub open spec fn bit<T: BitStore>(elem: T, pos: nat) -> bool {
    bit_of(elem.value(), pos)
}

/// An unsigned integer type that can back a bit region.
pub trait BitStore: Copy + Sized {
    /// The number of bits in one element.
    spec fn width() -> nat;

    /// The element's bits, in the low `width()` bits of a register.
    spec fn value(self) -> u64;

    /// The width is a supported one.
    proof fn lemma_width()
        ensures
            supported(Self::width()),
    ;

    /// The value fits in the width.
    proof fn lemma_value(self)
        ensures
            self.value() <= max_of(Self::width()),
    ;

    /// The value determines the element.
    proof fn lemma_same(a: Self, b: Self)
        requires
            a.value() == b.value(),
        ensures
            a == b,
    ;

    /// The number of bits in one element.
    fn bits() -> (w: u8)
        ensures
            w == Self::width(),
    ;

    /// Reads the element into a register.
    fn load(self) -> (reg: u64)
        ensures
            reg == self.value(),
    ;

    /// Makes an element from a register that fits its width.
    fn store(reg: u64) -> (elem: Self)
        requires
            reg <= max_of(Self::width()),
        ensures
            elem.value() == reg,
    ;

    /// The number of bytes in one element.
    fn bytes() -> (n: usize)
        ensures
            n * 8 == Self::width(),
    {
        proof {
            Self::lemma_width();
        }
        (Self::bits() / 8) as usize
    }

    /// Tests the bit at physical position `pos`.
    fn test(self, pos: u8) -> (set: bool)
        requires
            pos < Self::width(),
        ensures
            set == bit_of(self.value(), pos as nat),
    {
        proof {
            Self::lemma_width();
        }
        (self.load() >> pos) & 1 == 1
    }

    /// Returns the element with the bit at physical position `pos` set to
    /// `value` and every other bit as it was.
    fn write(self, pos: u8, value: bool) -> (elem: Self)
        requires
            pos < Self::width(),
        ensures
            elem.value() == reg_write(self.value(), pos as nat, value),
            forall|q: nat|
                q < Self::width() ==> #[trigger] bit_of(elem.value(), q) == (if q == pos {
                    value
                } else {
                    bit_of(self.value(), q)
                }),
    {
        proof {
            Self::lemma_width();
        }
        let reg = self.load();
        let next = if value {
            reg | (1u64 << pos)
        } else {
            reg & !(1u64 << pos)
        };
        proof {
            Self::lemma_width();
            self.lemma_value();
            lemma_reg_write_bound(reg, pos as nat, value, Self::width());
            assert forall|q: nat| q < Self::width() implies bit_of(next, q) == (if q == pos {
                value
            } else {
                bit_of(reg, q)
            }) by {
                lemma_reg_write(reg, pos as nat, value, q);
            }
        }
        Self::store(next)
    }

    /// Returns the element with exactly the bits at physical positions
    /// `from..upto` set.
    fn mask_range(from: u8, upto: u8) -> (elem: Self)
        requires
            from <= upto <= Self::width(),
        ensures
            elem.value() == reg_mask(from as nat, upto as nat),
            forall|q: nat| q < Self::width() ==> #[trigger] bit_of(elem.value(), q) == (from <= q < upto),
    {
        proof {
            Self::lemma_width();
        }
        let reg = if from >= upto {
            0u64
        } else {
            (0xffff_ffff_ffff_ffffu64 >> (64 - (upto - from))) << from
        };
        proof {
            lemma_reg_mask_bound(from as nat, upto as nat, Self::width());
            assert forall|q: nat| q < Self::width() implies bit_of(reg, q) == (from <= q < upto) by {
                lemma_reg_mask(from as nat, upto as nat, q);
            }
        }
        Self::store(reg)
    }

    /// Returns the element with every bit set that is set in `self` or in
    /// `other`.
    fn or(self, other: Self) -> (elem: Self)
        ensures
            elem.value() == self.value() | other.value(),
            forall|q: nat|
                q < Self::width() ==> #[trigger] bit_of(elem.value(), q) == (bit_of(
                    self.value(),
                    q,
                ) || bit_of(other.value(), q)),
    {
        let a = self.load();
        let b = other.load();
        let next = a | b;
        proof {
            Self::lemma_width();
            self.lemma_value();
            other.lemma_value();
            lemma_reg_or_and_bound(a, b, Self::width());
            assert forall|q: nat| q < Self::width() implies bit_of(next, q) == (bit_of(a, q)
                || bit_of(b, q)) by {
                lemma_reg_or_and(a, b, q);
            }
        }
        Self::store(next)
    }

    /// Returns the element with every bit set that is set in both `self`
    /// and `other`.
    fn and(self, other: Self) -> (elem: Self)
        ensures
            elem.value() == self.value() & other.value(),
            forall|q: nat|
                q < Self::width() ==> #[trigger] bit_of(elem.value(), q) == (bit_of(
                    self.value(),
                    q,
                ) && bit_of(other.value(), q)),
    {
        let a = self.load();
        let b = other.load();
        let next = a & b;
        proof {
            Self::lemma_width();
            self.lemma_value();
            other.lemma_value();
            lemma_reg_or_and_bound(a, b, Self::width());
            assert forall|q: nat| q < Self::width() implies bit_of(next, q) == (bit_of(a, q)
                && bit_of(b, q)) by {
                lemma_reg_or_and(a, b, q);
            }
        }
        Self::store(next)
    }

    /// Returns the element that takes the bits under `mask` from `src` and
    /// every other bit from `self`.
    fn merge(self, mask: Self, src: Self) -> (elem: Self)
        ensures
            elem.value() == reg_merge(self.value(), mask.value(), src.value()),
            forall|q: nat|
                q < Self::width() ==> #[trigger] bit_of(elem.value(), q) == (if bit_of(mask.value(), q) {
                    bit_of(src.value(), q)
                } else {
                    bit_of(self.value(), q)
                }),
    {
        let reg = self.load();
        let m = mask.load();
        let s = src.load();
        let next = (reg & !m) | (s & m);
        proof {
            Self::lemma_width();
            self.lemma_value();
            src.lemma_value();
            lemma_reg_merge_bound(reg, m, s, Self::width());
            assert forall|q: nat| q < Self::width() implies bit_of(next, q) == (if bit_of(m, q) {
                bit_of(s, q)
            } else {
                bit_of(reg, q)
            }) by {
                lemma_reg_merge(reg, m, s, q);
            }
        }
        Self::store(next)
    }
}

/// Two elements that agree on every bit are the same element.
pub proof fn lemma_elem_ext<T: BitStore>(a: T, b: T)
    requires
        forall|q: nat| q < T::width() ==> bit(a, q) == bit(b, q),
    ensures
        a == b,
{
    T::lemma_width();
    a.lemma_value();
    b.lemma_value();
    assert forall|q: nat| q < T::width() implies bit_of(a.value(), q) == bit_of(b.value(), q) by {
        assert(bit(a, q) == bit(b, q));
    }
    lemma_reg_ext(a.value(), b.value(), T::width());
    T::lemma_same(a, b);
}

/// The element with no bit set.
pub fn zero<T: BitStore>() -> (elem: T)
    ensures
        elem.value() == 0,
        forall|q: nat| q < T::width() ==> !#[trigger] bit(elem, q),
{
    T::mask_range(0, 0)
}

impl BitStore for u8 {
    open spec fn width() -> nat {
        8
    }

    open spec fn value(self) -> u64 {
        self as u64
    }

    proof fn lemma_width() {
    }

    proof fn lemma_value(self) {
    }

    proof fn lemma_same(a: Self, b: Self) {
    }

    fn bits() -> (w: u8) {
        8
    }

    fn load(self) -> (reg: u64) {
        self as u64
    }

    fn store(reg: u64) -> (elem: Self) {
        reg as u8
    }
}

impl BitStore for u16 {
    open spec fn width() -> nat {
        16
    }

    open spec fn value(self) -> u64 {
        self as u64
    }

    proof fn lemma_width() {
    }

    proof fn lemma_value(self) {
    }

    proof fn lemma_same(a: Self, b: Self) {
    }

    fn bits() -> (w: u8) {
        16
    }

    fn load(self) -> (reg: u64) {
        self as u64
    }

    fn store(reg: u64) -> (elem: Self) {
        reg as u16
    }
}

impl BitStore for u32 {
    open spec fn width() -> nat {
        32
    }

    open spec fn value(self) -> u64 {
        self as u64
    }

    proof fn lemma_width() {
    }

    proof fn lemma_value(self) {
    }

    proof fn lemma_same(a: Self, b: Self) {
    }

    fn bits() -> (w: u8) {
        32
    }

    fn load(self) -> (reg: u64) {
        self as u64
    }

    fn store(reg: u64) -> (elem: Self) {
        reg as u32
    }
}

impl BitStore for u64 {
    open spec fn width() -> nat {
        64
    }

    open spec fn value(self) -> u64 {
        self
    }

    proof fn lemma_width() {
    }

    proof fn lemma_value(self) {
    }

    proof fn lemma_same(a: Self, b: Self) {
    }

    fn bits() -> (w: u8) {
        64
    }

    fn load(self) -> (reg: u64) {
        self
    }

    fn store(reg: u64) -> (elem: Self) {
        reg
    }
}

impl BitStore for usize {
    open spec fn width() -> nat {
        usize::BITS as nat
    }

    open spec fn value(self) -> u64 {
        self as u64
    }

    proof fn lemma_width() {
    }

    proof fn lemma_value(self) {
    }

    proof fn lemma_same(a: Self, b: Self) {
    }

    fn bits() -> (w: u8) {
        if usize::BITS == 32 {
            32
        } else {
            64
        }
    }

    fn load(self) -> (reg: u64) {
        self as u64
    }

    fn store(reg: u64) -> (elem: Self) {
        reg as usize
    }
}

} // verus!
