//! Facts about the bits of 64-bit integers that radix selection rests on.

use vstd::prelude::*;
use crate::order::lt_u64;
use crate::window::{lemma_split_kept, lemma_window_keep_high, lemma_window_keep_low, window};

verus! {

/// `bit` has exactly one bit set.
pub open spec fn one_bit(bit: u64) -> bool {
    bit != 0 && bit & ((bit - 1) as u64) == 0
}

/// The mask of the bits above the one set in `bit`.
pub open spec fn bits_above(bit: u64) -> u64 {
    !(bit | ((bit - 1) as u64))
}

/// `a` and `b` agree in every bit above the one set in `bit`.
pub open spec fn same_above(bit: u64, a: u64, b: u64) -> bool {
    a & bits_above(bit) == b & bits_above(bit)
}

/// Of two values that agree above `bit`, one with the bit clear is below
/// one with the bit set.
pub proof fn lemma_bit_orders(bit: u64, a: u64, b: u64)
    requires
        one_bit(bit),
        same_above(bit, a, b),
        a & bit == 0,
        b & bit != 0,
    ensures
        a < b,
{
    assert(a < b) by (bit_vector)
        requires
            bit != 0 && bit & ((bit - 1) as u64) == 0,
            a & !(bit | ((bit - 1) as u64)) == b & !(bit | ((bit - 1) as u64)),
            a & bit == 0,
            b & bit != 0,
    ;
}

/// Values that agree above `bit` and in `bit` agree above the next lower bit.
pub proof fn lemma_bit_next(bit: u64, a: u64, b: u64)
    requires
        one_bit(bit),
        bit != 1,
        same_above(bit, a, b),
        a & bit == b & bit,
    ensures
        one_bit(bit >> 1),
        same_above(bit >> 1, a, b),
{
    assert(bit >> 1 != 0 && (bit >> 1) & (((bit >> 1) - 1) as u64) == 0 && a & !((bit >> 1) | (((bit
        >> 1) - 1) as u64)) == b & !((bit >> 1) | (((bit >> 1) - 1) as u64))) by (bit_vector)
        requires
            bit != 0 && bit & ((bit - 1) as u64) == 0,
            bit != 1,
            a & !(bit | ((bit - 1) as u64)) == b & !(bit | ((bit - 1) as u64)),
            a & bit == b & bit,
    ;
}

/// Values that agree above the lowest bit and in it are equal.
pub proof fn lemma_bit_last(a: u64, b: u64)
    requires
        same_above(1, a, b),
        a & 1 == b & 1,
    ensures
        a == b,
{
    assert(a == b) by (bit_vector)
        requires
            a & !(1u64 | ((1u64 - 1) as u64)) == b & !(1u64 | ((1u64 - 1) as u64)),
            a & 1 == b & 1,
    ;
}

/// A set bit of a one-bit mask is the mask itself.
pub proof fn lemma_bit_set(bit: u64, a: u64, b: u64)
    requires
        one_bit(bit),
        a & bit != 0,
        b & bit != 0,
    ensures
        a & bit == b & bit,
{
    assert(a & bit == b & bit) by (bit_vector)
        requires
            bit != 0 && bit & ((bit - 1) as u64) == 0,
            a & bit != 0,
            b & bit != 0,
    ;
}

/// Above the highest bit there is nothing to agree in.
pub proof fn lemma_bit_first(a: u64, b: u64)
    ensures
        one_bit(0x8000_0000_0000_0000),
        same_above(0x8000_0000_0000_0000, a, b),
{
    assert(0x8000_0000_0000_0000u64 & ((0x8000_0000_0000_0000u64 - 1) as u64) == 0) by (bit_vector);
    assert(a & !(0x8000_0000_0000_0000u64 | ((0x8000_0000_0000_0000u64 - 1) as u64)) == b & !(
    0x8000_0000_0000_0000u64 | ((0x8000_0000_0000_0000u64 - 1) as u64))) by (bit_vector);
}

/// One step of radix selection. A window whose items agree above `bit`
/// splits into a front with the bit clear and a back with the bit set:
/// both are windows, the back with a base grown by the length of the
/// front, and within each the items agree in `bit` too.
pub proof fn lemma_bit_partition(
    orig: Seq<u64>,
    w: Seq<u64>,
    front: Seq<u64>,
    back: Seq<u64>,
    bit: u64,
    base: int,
)
    requires
        one_bit(bit),
        window(orig, w, lt_u64(), base),
        w == front + back,
        forall|i: int, j: int|
            0 <= i < w.len() && 0 <= j < w.len() ==> same_above(bit, #[trigger] w[i], #[trigger] w[j]),
        forall|i: int| 0 <= i < front.len() ==> (#[trigger] front[i]) & bit == 0,
        forall|i: int| 0 <= i < back.len() ==> (#[trigger] back[i]) & bit != 0,
    ensures
        window(orig, front, lt_u64(), base),
        window(orig, back, lt_u64(), base + front.len()),
        bit != 1 ==> one_bit(bit >> 1),
        bit != 1 ==> forall|i: int, j: int|
            0 <= i < front.len() && 0 <= j < front.len() ==> same_above(
                bit >> 1,
                #[trigger] front[i],
                #[trigger] front[j],
            ),
        bit != 1 ==> forall|i: int, j: int|
            0 <= i < back.len() && 0 <= j < back.len() ==> same_above(
                bit >> 1,
                #[trigger] back[i],
                #[trigger] back[j],
            ),
        bit == 1 ==> forall|i: int, j: int|
            0 <= i < front.len() && 0 <= j < front.len() ==> #[trigger] front[i] == #[trigger] front[j],
        bit == 1 ==> forall|i: int, j: int|
            0 <= i < back.len() && 0 <= j < back.len() ==> #[trigger] back[i] == #[trigger] back[j],
{
    let lt = lt_u64();
    let keep = |y: u64| y & bit == 0;
    let drop = |y: u64| !keep(y);
    lemma_split_kept(w, front, back, keep);
    assert forall|i: int, j: int|
        0 <= i < w.len() && 0 <= j < w.len() && keep(#[trigger] w[j]) && !lt(
            w[j],
            #[trigger] w[i],
        ) implies keep(w[i]) by {
        if w[i] & bit != 0 {
            lemma_bit_orders(bit, w[j], w[i]);
        }
    }
    lemma_window_keep_low(orig, w, front, lt, base, keep);
    assert forall|i: int, j: int|
        0 <= i < w.len() && 0 <= j < w.len() && drop(#[trigger] w[j]) && !lt(
            #[trigger] w[i],
            w[j],
        ) implies drop(w[i]) by {
        if w[i] & bit == 0 {
            lemma_bit_orders(bit, w[i], w[j]);
        }
    }
    lemma_window_keep_high(orig, w, back, lt, base, drop);
    assert forall|i: int| 0 <= i < front.len() implies front[i] == w[i] by {}
    assert forall|i: int| 0 <= i < back.len() implies back[i] == w[front.len() + i] by {}
    if bit != 1 {
        assert forall|i: int, j: int| 0 <= i < front.len() && 0 <= j < front.len() implies same_above(
            bit >> 1,
            #[trigger] front[i],
            #[trigger] front[j],
        ) by {
            assert(front[i] == w[i] && front[j] == w[j]);
            lemma_bit_next(bit, front[i], front[j]);
        }
        assert forall|i: int, j: int| 0 <= i < back.len() && 0 <= j < back.len() implies same_above(
            bit >> 1,
            #[trigger] back[i],
            #[trigger] back[j],
        ) by {
            assert(back[i] == w[front.len() + i] && back[j] == w[front.len() + j]);
            lemma_bit_set(bit, back[i], back[j]);
            lemma_bit_next(bit, back[i], back[j]);
        }
        lemma_bit_halved(bit);
    } else {
        assert forall|i: int, j: int|
            0 <= i < front.len() && 0 <= j < front.len() implies #[trigger] front[i]
            == #[trigger] front[j] by {
            assert(front[i] == w[i] && front[j] == w[j]);
            lemma_bit_last(front[i], front[j]);
        }
        assert forall|i: int, j: int|
            0 <= i < back.len() && 0 <= j < back.len() implies #[trigger] back[i]
            == #[trigger] back[j] by {
            assert(back[i] == w[front.len() + i] && back[j] == w[front.len() + j]);
            lemma_bit_set(bit, back[i], back[j]);
            lemma_bit_last(back[i], back[j]);
        }
    }
}

/// Half of a single bit other than the lowest is a single bit, and smaller.
pub proof fn lemma_bit_halved(bit: u64)
    requires
        one_bit(bit),
        bit != 1,
    ensures
        one_bit(bit >> 1),
        bit >> 1 < bit,
{
    assert(bit >> 1 != 0 && (bit >> 1) & (((bit >> 1) - 1) as u64) == 0 && bit >> 1 < bit)
        by (bit_vector)
        requires
            bit != 0 && bit & ((bit - 1) as u64) == 0,
            bit != 1,
    ;
}

} // verus!
