//! Division, remainder and multiplication by an element's width or by its
//! size in bytes, written out for each supported width.
//!
//! The functions here say nothing new: `quot(x, w)` is `x / w`. They exist
//! because a proof about `x / w` goes through much more readily once the
//! divisor is one of four numbers.

use vstd::prelude::*;
use crate::store::supported;

verus! {

/// `x / w` for a supported width `w`.
pub open spec fn quot(x: int, w: nat) -> int {
    if w == 8 {
        x / 8
    } else if w == 16 {
        x / 16
    } else if w == 32 {
        x / 32
    } else {
        x / 64
    }
}

/// `x % w` for a supported width `w`.
pub open spec fn rem(x: int, w: nat) -> int {
    if w == 8 {
        x % 8
    } else if w == 16 {
        x % 16
    } else if w == 32 {
        x % 32
    } else {
        x % 64
    }
}

/// `x * w` for a supported width `w`.
pub open spec fn times(x: int, w: nat) -> int {
    if w == 8 {
        8 * x
    } else if w == 16 {
        16 * x
    } else if w == 32 {
        32 * x
    } else {
        64 * x
    }
}

/// `x / (w / 8)` for a supported width `w`.
pub open spec fn byte_quot(x: int, w: nat) -> int {
    if w == 8 {
        x
    } else if w == 16 {
        x / 2
    } else if w == 32 {
        x / 4
    } else {
        x / 8
    }
}

/// `x % (w / 8)` for a supported width `w`.
pub open spec fn byte_rem(x: int, w: nat) -> int {
    if w == 8 {
        0
    } else if w == 16 {
        x % 2
    } else if w == 32 {
        x % 4
    } else {
        x % 8
    }
}

/// `x * (w / 8)` for a supported width `w`.
pub open spec fn byte_times(x: int, w: nat) -> int {
    if w == 8 {
        x
    } else if w == 16 {
        2 * x
    } else if w == 32 {
        4 * x
    } else {
        8 * x
    }
}

proof fn lemma_same_divisor(x: int, d: int, k: int)
    by (nonlinear_arith)
    requires
        d == k,
        k > 0,
    ensures
        x / d == x / k,
        x % d == x % k,
        x * d == k * x,
{
}

/// The written-out forms agree with division, remainder and multiplication
/// by the width.
pub proof fn lemma_width_ops(x: int, d: int, w: nat)
    requires
        supported(w),
        d == w,
    ensures
        x / d == quot(x, w),
        x % d == rem(x, w),
        x * d == times(x, w),
        d * x == times(x, w),
{
    if w == 8 {
        lemma_same_divisor(x, d, 8);
    } else if w == 16 {
        lemma_same_divisor(x, d, 16);
    } else if w == 32 {
        lemma_same_divisor(x, d, 32);
    } else {
        lemma_same_divisor(x, d, 64);
    }
    assert(d * x == x * d) by (nonlinear_arith);
}

/// The written-out forms agree with division, remainder and multiplication
/// by the size in bytes.
pub proof fn lemma_byte_ops(x: int, d: int, w: nat)
    requires
        supported(w),
        d * 8 == w,
    ensures
        x / d == byte_quot(x, w),
        x % d == byte_rem(x, w),
        x * d == byte_times(x, w),
        d * x == byte_times(x, w),
{
    if w == 8 {
        lemma_same_divisor(x, d, 1);
    } else if w == 16 {
        lemma_same_divisor(x, d, 2);
    } else if w == 32 {
        lemma_same_divisor(x, d, 4);
    } else {
        lemma_same_divisor(x, d, 8);
    }
    assert(d * x == x * d) by (nonlinear_arith);
}

} // verus!
