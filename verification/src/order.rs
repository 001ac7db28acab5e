//! Bit orders: where in an element the bit with a given index lives.
//!
//! An order maps an index `0 <= i < W` inside an element of width `W` to a
//! physical position `0 <= p < W`, and back. Every order is a bijection on
//! `[0, W)`: an implementation proves it, so that no two indices share a
//! position and no position is left out.

use vstd::prelude::*;
use crate::store::{bit_of, max_of, supported, lemma_reg_write, lemma_reg_write_bound, reg_write};

verus! {

/// A convention that places the bits of a region inside storage elements.
pub trait BitOrder: Sized {
    /// The physical position of the bit with in-element index `index`.
    spec fn position(width: nat, index: nat) -> nat;

    /// The in-element index of the bit at physical position `pos`.
    spec fn index_of(width: nat, pos: nat) -> nat;

    /// The mapping stays inside the element and `index_of` undoes it, in
    /// both directions.
    proof fn lemma_inverse(width: nat, k: nat)
        requires
            supported(width),
            k < width,
        ensures
            Self::position(width, k) < width,
            Self::index_of(width, k) < width,
            Self::index_of(width, Self::position(width, k)) == k,
            Self::position(width, Self::index_of(width, k)) == k,
    ;

    /// Maps an in-element index to its physical position.
    fn at(width: u8, index: u8) -> (pos: u8)
        requires
            supported(width as nat),
            index < width,
        ensures
            pos == Self::position(width as nat, index as nat),
    ;

    /// Maps a physical position back to its in-element index.
    fn index(width: u8, pos: u8) -> (index: u8)
        requires
            supported(width as nat),
            pos < width,
        ensures
            index == Self::index_of(width as nat, pos as nat),
    ;

    /// The register that has exactly the physical positions of the indices
    /// `from..upto` set.
    fn mask(width: u8, from: u8, upto: u8) -> (reg: u64)
        requires
            supported(width as nat),
            from <= upto <= width,
        ensures
            reg <= max_of(width as nat),
            forall|q: nat|
                q < width ==> (#[trigger] bit_of(reg, q) <==> from <= Self::index_of(
                    width as nat,
                    q,
                ) < upto),
    {
        let mut reg: u64 = 0;
        let mut i: u8 = from;
        proof {
            assert(0u64 <= max_of(width as nat));
            assert forall|q: nat| q < width implies !bit_of(0u64, q) by {
                lemma_zero_bit(q);
            }
        }
        while i < upto
            invariant
                supported(width as nat),
                from <= i <= upto <= width,
                reg <= max_of(width as nat),
                forall|q: nat|
                    q < width ==> (#[trigger] bit_of(reg, q) <==> from <= Self::index_of(
                        width as nat,
                        q,
                    ) < i),
            decreases upto - i,
        {
            let pos = Self::at(width, i);
            proof {
                Self::lemma_inverse(width as nat, i as nat);
            }
            let next = reg | (1u64 << pos);
            proof {
                lemma_reg_write_bound(reg, pos as nat, true, width as nat);
                assert(next == reg_write(reg, pos as nat, true));
                assert forall|q: nat| q < width implies (#[trigger] bit_of(next, q) <==> from
                    <= Self::index_of(width as nat, q) < i + 1) by {
                    lemma_reg_write(reg, pos as nat, true, q);
                    Self::lemma_inverse(width as nat, q);
                }
            }
            reg = next;
            i = i + 1;
        }
        reg
    }
}

proof fn lemma_zero_bit(q: nat)
    requires
        q < 64,
    ensures
        !bit_of(0u64, q),
{
    let s = q as u64;
    assert((0u64 >> s) & 1 == 0) by (bit_vector);
}

/// Least-significant-first: index `i` lives at position `i`.
#[derive(Clone, Copy, Debug)]
pub struct Lsb0;

/// Most-significant-first: index `i` lives at position `W - 1 - i`.
#[derive(Clone, Copy, Debug)]
pub struct Msb0;

impl BitOrder for Lsb0 {
    open spec fn position(width: nat, index: nat) -> nat {
        index
    }

    open spec fn index_of(width: nat, pos: nat) -> nat {
        pos
    }

    proof fn lemma_inverse(width: nat, k: nat) {
    }

    fn at(width: u8, index: u8) -> (pos: u8) {
        index
    }

    fn index(width: u8, pos: u8) -> (index: u8) {
        pos
    }

    fn mask(width: u8, from: u8, upto: u8) -> (reg: u64) {
        let reg = if from >= upto {
            0u64
        } else {
            (0xffff_ffff_ffff_ffffu64 >> (64 - (upto - from))) << from
        };
        proof {
            crate::store::lemma_reg_mask_bound(from as nat, upto as nat, width as nat);
            assert forall|q: nat| q < width implies (#[trigger] bit_of(reg, q) <==> from <= q
                < upto) by {
                crate::store::lemma_reg_mask(from as nat, upto as nat, q);
            }
        }
        reg
    }
}

impl BitOrder for Msb0 {
    open spec fn position(width: nat, index: nat) -> nat {
        (width - 1 - index) as nat
    }

    open spec fn index_of(width: nat, pos: nat) -> nat {
        (width - 1 - pos) as nat
    }

    proof fn lemma_inverse(width: nat, k: nat) {
    }

    fn at(width: u8, index: u8) -> (pos: u8) {
        width - 1 - index
    }

    fn index(width: u8, pos: u8) -> (index: u8) {
        width - 1 - pos
    }

    fn mask(width: u8, from: u8, upto: u8) -> (reg: u64) {
        let lo = width - upto;
        let hi = width - from;
        let reg = if lo >= hi {
            0u64
        } else {
            (0xffff_ffff_ffff_ffffu64 >> (64 - (hi - lo))) << lo
        };
        proof {
            crate::store::lemma_reg_mask_bound(lo as nat, hi as nat, width as nat);
            assert forall|q: nat| q < width implies (#[trigger] bit_of(reg, q) <==> from <= ((width
                - 1 - q) as nat) < upto) by {
                crate::store::lemma_reg_mask(lo as nat, hi as nat, q);
            }
        }
        reg
    }
}

/// Whether some index of an element of the given width lands on position
/// `pos`.
pub open spec fn covered<O: BitOrder>(width: nat, pos: nat) -> bool {
    exists|i: nat| i < width && #[trigger] O::position(width, i) == pos
}

/// Every order is a permutation of `[0, W)`: each index lands inside the
/// element, no two indices land on one position, and every position is the
/// landing place of some index.
pub proof fn lemma_order_is_permutation<O: BitOrder>(width: nat)
    requires
        supported(width),
    ensures
        forall|i: nat| i < width ==> #[trigger] O::position(width, i) < width,
        forall|i: nat, j: nat|
            i < width && j < width && i != j ==> #[trigger] O::position(width, i)
                != #[trigger] O::position(width, j),
        forall|p: nat| p < width ==> #[trigger] covered::<O>(width, p),
{
    assert forall|i: nat| i < width implies #[trigger] O::position(width, i) < width by {
        O::lemma_inverse(width, i);
    }
    assert forall|i: nat, j: nat| i < width && j < width && i != j implies #[trigger] O::position(
        width,
        i,
    ) != #[trigger] O::position(width, j) by {
        O::lemma_inverse(width, i);
        O::lemma_inverse(width, j);
    }
    assert forall|p: nat| p < width implies #[trigger] covered::<O>(width, p) by {
        O::lemma_inverse(width, p);
        let i = O::index_of(width, p);
        assert(i < width && O::position(width, i) == p);
    }
}

/// Runs an order forward and back over every index of an element of the
/// given width and reports whether each index came back as itself. The
/// answer is `true` for every order and every supported width.
pub fn verify_order<O: BitOrder>(width: u8) -> (ok: bool)
    requires
        supported(width as nat),
    ensures
        ok,
{
    let mut i: u8 = 0;
    let mut ok = true;
    while i < width
        invariant
            supported(width as nat),
            i <= width,
            ok,
        decreases width - i,
    {
        let pos = O::at(width, i);
        proof {
            O::lemma_inverse(width as nat, i as nat);
        }
        let back = O::index(width, pos);
        if pos >= width || back != i {
            ok = false;
        }
        i = i + 1;
    }
    ok
}

} // verus!
