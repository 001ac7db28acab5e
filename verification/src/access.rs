//! Single-bit access to an element that several views may share.
//!
//! Two views may describe disjoint bits of one storage element. A write
//! through one of them must leave the other's bits alone, however the
//! writes of the two are interleaved. Every write here is one step on the
//! element: it changes the bits under its mask and no others. A holder of
//! the only view may read, modify and store; a holder of one of several
//! views goes through a fetch-and-set or a fetch-and-clear of a single-bit
//! mask, which touches nothing outside that mask even when steps of other
//! views come in between.

use vstd::prelude::*;
use crate::store::{bit_of, reg_write, BitStore, lemma_reg_ext, lemma_reg_write, lemma_reg_write_bound};

verus! {

/// How the caller holds the element it writes.
#[derive(Clone, Copy, Debug, PartialEq, Eq, Structural)]
pub enum Access {
    /// The caller holds the only live view of the region.
    Exclusive,
    /// The caller holds one of several live views that may share elements.
    Shared,
}

/// Sets in `elem` every bit that is set in `mask`, in one step, and returns
/// the element as it was before.
pub fn fetch_set<T: BitStore>(elem: &mut T, mask: T) -> (prev: T)
    ensures
        prev == *old(elem),
        final(elem).value() == old(elem).value() | mask.value(),
        forall|q: nat|
            q < T::width() ==> #[trigger] bit_of(final(elem).value(), q) == (bit_of(
                old(elem).value(),
                q,
            ) || bit_of(mask.value(), q)),
{
    let prev = *elem;
    *elem = prev.or(mask);
    prev
}

/// Clears in `elem` every bit that is clear in `mask`, in one step, and
/// returns the element as it was before.
pub fn fetch_keep<T: BitStore>(elem: &mut T, mask: T) -> (prev: T)
    ensures
        prev == *old(elem),
        final(elem).value() == old(elem).value() & mask.value(),
        forall|q: nat|
            q < T::width() ==> #[trigger] bit_of(final(elem).value(), q) == (bit_of(
                old(elem).value(),
                q,
            ) && bit_of(mask.value(), q)),
{
    let prev = *elem;
    *elem = prev.and(mask);
    prev
}

/// Reads the bit at physical position `pos` of an element.
pub fn read_bit<T: BitStore>(elem: &T, pos: u8) -> (set: bool)
    requires
        pos < T::width(),
    ensures
        set == bit_of(elem.value(), pos as nat),
{
    elem.test(pos)
}

/// Writes `value` to the bit at physical position `pos` of an element and
/// leaves every other bit as it was, under either kind of access.
pub fn write_bit<T: BitStore>(elem: &mut T, pos: u8, value: bool, access: Access)
    requires
        pos < T::width(),
    ensures
        final(elem).value() == reg_write(old(elem).value(), pos as nat, value),
        forall|q: nat|
            q < T::width() ==> #[trigger] bit_of(final(elem).value(), q) == (if q == pos {
                value
            } else {
                bit_of(old(elem).value(), q)
            }),
{
    let ghost before = elem.value();
    let ghost target = reg_write(before, pos as nat, value);
    proof {
        T::lemma_width();
        elem.lemma_value();
        lemma_reg_write_bound(before, pos as nat, value, T::width());
        assert forall|q: nat| q < T::width() implies bit_of(target, q) == (if q == pos {
            value
        } else {
            bit_of(before, q)
        }) by {
            lemma_reg_write(before, pos as nat, value, q);
        }
    }
    match access {
        Access::Exclusive => {
            let cur = *elem;
            *elem = cur.write(pos, value);
        },
        Access::Shared => {
            if value {
                let one: T = T::mask_range(pos, pos + 1);
                fetch_set(elem, one);
            } else {
                let below: T = T::mask_range(0, pos);
                let above: T = T::mask_range(pos + 1, T::bits());
                fetch_keep(elem, below.or(above));
            }
            proof {
                elem.lemma_value();
                lemma_reg_ext(elem.value(), target, T::width());
            }
        },
    }
}

/// The register after a run of single-bit writes, each given as a position
/// and a value, applied one after the other.
pub open spec fn run(reg: u64, writes: Seq<(nat, bool)>) -> u64
    decreases writes.len(),
{
    if writes.len() == 0 {
        reg
    } else {
        reg_write(run(reg, writes.drop_last()), writes.last().0, writes.last().1)
    }
}

/// Whether every write of a run aims at a position in `from..upto`.
pub open spec fn aims_within(writes: Seq<(nat, bool)>, from: nat, upto: nat) -> bool {
    forall|k: int| 0 <= k < writes.len() ==> from <= (#[trigger] writes[k]).0 < upto
}

/// Whether `merged` is an interleaving of the runs `a` and `b`: it holds
/// the writes of both, each run in its own order.
pub open spec fn interleaves(
    merged: Seq<(nat, bool)>,
    a: Seq<(nat, bool)>,
    b: Seq<(nat, bool)>,
) -> bool
    decreases merged.len(),
{
    if merged.len() == 0 {
        a.len() == 0 && b.len() == 0
    } else {
        ||| (a.len() > 0 && a.last() == merged.last() && interleaves(
            merged.drop_last(),
            a.drop_last(),
            b,
        ))
        ||| (b.len() > 0 && b.last() == merged.last() && interleaves(
            merged.drop_last(),
            a,
            b.drop_last(),
        ))
    }
}

/// A run of writes leaves alone every bit that none of its writes aims at.
pub proof fn lemma_run_frame(reg: u64, writes: Seq<(nat, bool)>, q: nat)
    requires
        q < 64,
        forall|k: int| 0 <= k < writes.len() ==> (#[trigger] writes[k]).0 < 64,
        forall|k: int| 0 <= k < writes.len() ==> (#[trigger] writes[k]).0 != q,
    ensures
        bit_of(run(reg, writes), q) == bit_of(reg, q),
    decreases writes.len(),
{
    if writes.len() > 0 {
        let rest = writes.drop_last();
        assert forall|k: int| 0 <= k < rest.len() implies (#[trigger] rest[k]).0 < 64 && rest[k].0
            != q by {
            assert(rest[k] == writes[k]);
        }
        lemma_run_frame(reg, rest, q);
        lemma_reg_write(run(reg, rest), writes.last().0, writes.last().1, q);
    }
}

/// Two writers that aim at disjoint ranges of one element do not disturb
/// each other, however their writes are interleaved: after the merged run
/// each bit of the first range is what the first writer alone would have
/// left, each bit of the second range is what the second writer alone would
/// have left, and every other bit is as it was.
pub proof fn lemma_interleaved_writes_isolated(
    reg: u64,
    merged: Seq<(nat, bool)>,
    a: Seq<(nat, bool)>,
    b: Seq<(nat, bool)>,
    a_from: nat,
    a_upto: nat,
    b_from: nat,
    b_upto: nat,
    q: nat,
)
    requires
        interleaves(merged, a, b),
        aims_within(a, a_from, a_upto),
        aims_within(b, b_from, b_upto),
        a_upto <= b_from || b_upto <= a_from,
        a_upto <= 64,
        b_upto <= 64,
        q < 64,
    ensures
        bit_of(run(reg, merged), q) == (if a_from <= q < a_upto {
            bit_of(run(reg, a), q)
        } else if b_from <= q < b_upto {
            bit_of(run(reg, b), q)
        } else {
            bit_of(reg, q)
        }),
    decreases merged.len(),
{
    if merged.len() == 0 {
    } else {
        let rest = merged.drop_last();
        let w = merged.last();
        if a.len() > 0 && a.last() == w && interleaves(rest, a.drop_last(), b) {
            let a_rest = a.drop_last();
            assert forall|k: int| 0 <= k < a_rest.len() implies a_from <= (
            #[trigger] a_rest[k]).0 < a_upto by {
                assert(a_rest[k] == a[k]);
            }
            assert(a_from <= a[a.len() - 1].0 < a_upto);
            lemma_interleaved_writes_isolated(
                reg,
                rest,
                a_rest,
                b,
                a_from,
                a_upto,
                b_from,
                b_upto,
                q,
            );
            lemma_reg_write(run(reg, rest), w.0, w.1, q);
            lemma_reg_write(run(reg, a_rest), w.0, w.1, q);
        } else {
            let b_rest = b.drop_last();
            assert forall|k: int| 0 <= k < b_rest.len() implies b_from <= (
            #[trigger] b_rest[k]).0 < b_upto by {
                assert(b_rest[k] == b[k]);
            }
            assert(b_from <= b[b.len() - 1].0 < b_upto);
            lemma_interleaved_writes_isolated(
                reg,
                rest,
                a,
                b_rest,
                a_from,
                a_upto,
                b_from,
                b_upto,
                q,
            );
            lemma_reg_write(run(reg, rest), w.0, w.1, q);
            lemma_reg_write(run(reg, b_rest), w.0, w.1, q);
        }
    }
}

} // verus!
