//! 64-bit integers as eight bytes, the most significant first, and the
//! order of such byte arrays by the value they stand for.

use vstd::prelude::*;
use core::cmp::Ordering;
use crate::order::verdict;

verus! {

/// The value that eight bytes stand for, the most significant first.
pub open spec fn be_value(b: [u8; 8]) -> int {
    b@[0] * 0x100_0000_0000_0000 + b@[1] * 0x1_0000_0000_0000 + b@[2] * 0x100_0000_0000 + b@[3]
        * 0x1_0000_0000 + b@[4] * 0x100_0000 + b@[5] * 0x1_0000 + b@[6] * 0x100 + b@[7]
}

/// The order of byte arrays by their value.
pub open spec fn lt_be() -> spec_fn([u8; 8], [u8; 8]) -> bool {
    |a: [u8; 8], b: [u8; 8]| be_value(a) < be_value(b)
}

/// The byte at `byteno` of an item, as its key.
pub open spec fn key_byte(byteno: int) -> spec_fn([u8; 8]) -> int {
    |x: [u8; 8]| x@[byteno] as int
}

/// `a` and `b` agree in every byte before `byteno`.
pub open spec fn same_before(a: [u8; 8], b: [u8; 8], byteno: int) -> bool {
    forall|k: int| 0 <= k < byteno ==> #[trigger] a@[k] == b@[k]
}

/// The items of `s` agree in every byte before `byteno`.
pub open spec fn agree_before(s: Seq<[u8; 8]>, byteno: int) -> bool {
    forall|i: int, j: int|
        0 <= i < s.len() && 0 <= j < s.len() ==> same_before(#[trigger] s[i], #[trigger] s[j], byteno)
}

/// The integer that the eight bytes stand for, the most significant first.
pub fn from_be(b: [u8; 8]) -> (v: u64)
    ensures
        v == be_value(b),
{
    let b0 = b[0] as u64;
    let b1 = b[1] as u64;
    let b2 = b[2] as u64;
    let b3 = b[3] as u64;
    let b4 = b[4] as u64;
    let b5 = b[5] as u64;
    let b6 = b[6] as u64;
    let b7 = b[7] as u64;
    proof {
        assert((b0 << 56) | (b1 << 48) | (b2 << 40) | (b3 << 32) | (b4 << 24) | (b5 << 16) | (b6
            << 8) | b7 == b0 * 0x100_0000_0000_0000 + b1 * 0x1_0000_0000_0000 + b2
            * 0x100_0000_0000 + b3 * 0x1_0000_0000 + b4 * 0x100_0000 + b5 * 0x1_0000 + b6 * 0x100
            + b7) by (bit_vector)
            requires
                b0 < 256 && b1 < 256 && b2 < 256 && b3 < 256 && b4 < 256 && b5 < 256 && b6 < 256
                    && b7 < 256,
        ;
    }
    (b0 << 56) | (b1 << 48) | (b2 << 40) | (b3 << 32) | (b4 << 24) | (b5 << 16) | (b6 << 8) | b7
}

/// The eight bytes that stand for the integer, the most significant first.
pub fn to_be(v: u64) -> (b: [u8; 8])
    ensures
        be_value(b) == v,
{
    let b0 = v >> 56;
    let b1 = (v >> 48) & 0xff;
    let b2 = (v >> 40) & 0xff;
    let b3 = (v >> 32) & 0xff;
    let b4 = (v >> 24) & 0xff;
    let b5 = (v >> 16) & 0xff;
    let b6 = (v >> 8) & 0xff;
    let b7 = v & 0xff;
    proof {
        assert(b0 < 256 && b1 < 256 && b2 < 256 && b3 < 256 && b4 < 256 && b5 < 256 && b6 < 256
            && b7 < 256 && v == b0 * 0x100_0000_0000_0000 + b1 * 0x1_0000_0000_0000 + b2
            * 0x100_0000_0000 + b3 * 0x1_0000_0000 + b4 * 0x100_0000 + b5 * 0x1_0000 + b6 * 0x100
            + b7) by (bit_vector)
            requires
                b0 == v >> 56,
                b1 == (v >> 48) & 0xff,
                b2 == (v >> 40) & 0xff,
                b3 == (v >> 32) & 0xff,
                b4 == (v >> 24) & 0xff,
                b5 == (v >> 16) & 0xff,
                b6 == (v >> 8) & 0xff,
                b7 == v & 0xff,
        ;
    }
    [b0 as u8, b1 as u8, b2 as u8, b3 as u8, b4 as u8, b5 as u8, b6 as u8, b7 as u8]
}

/// Compares two byte arrays by the value they stand for.
pub fn by_value(a: &[u8; 8], b: &[u8; 8]) -> (o: Ordering)
    ensures
        o == verdict(lt_be(), *a, *b),
{
    let x = from_be(*a);
    let y = from_be(*b);
    if x < y {
        Ordering::Less
    } else if y < x {
        Ordering::Greater
    } else {
        Ordering::Equal
    }
}

/// Each byte of an array can be read off the value that the array stands for.
pub proof fn lemma_be_value_bytes(a: [u8; 8])
    ensures
        0 <= be_value(a) <= u64::MAX,
        a@[7] == be_value(a) % 0x100,
        a@[6] == (be_value(a) / 0x100) % 0x100,
        a@[5] == (be_value(a) / 0x1_0000) % 0x100,
        a@[4] == (be_value(a) / 0x100_0000) % 0x100,
        a@[3] == (be_value(a) / 0x1_0000_0000) % 0x100,
        a@[2] == (be_value(a) / 0x100_0000_0000) % 0x100,
        a@[1] == (be_value(a) / 0x1_0000_0000_0000) % 0x100,
        a@[0] == be_value(a) / 0x100_0000_0000_0000,
{
    broadcast use vstd::array::group_array_axioms;
    let v = be_value(a);
    let t7 = a@[0] * 0x1_0000_0000_0000 + a@[1] * 0x100_0000_0000 + a@[2] * 0x1_0000_0000 + a@[3]
        * 0x100_0000 + a@[4] * 0x1_0000 + a@[5] * 0x100 + a@[6];
    assert(v == t7 * 0x100 + a@[7]);
    let t6 = a@[0] * 0x100_0000_0000 + a@[1] * 0x1_0000_0000 + a@[2] * 0x100_0000 + a@[3] * 0x1_0000
        + a@[4] * 0x100 + a@[5];
    assert(t7 == t6 * 0x100 + a@[6]);
    let t5 = a@[0] * 0x1_0000_0000 + a@[1] * 0x100_0000 + a@[2] * 0x1_0000 + a@[3] * 0x100 + a@[4];
    assert(t6 == t5 * 0x100 + a@[5]);
    let t4 = a@[0] * 0x100_0000 + a@[1] * 0x1_0000 + a@[2] * 0x100 + a@[3];
    assert(t5 == t4 * 0x100 + a@[4]);
    let t3 = a@[0] * 0x1_0000 + a@[1] * 0x100 + a@[2];
    assert(t4 == t3 * 0x100 + a@[3]);
    let t2 = a@[0] * 0x100 + a@[1];
    assert(t3 == t2 * 0x100 + a@[2]);
    assert(t2 == a@[0] * 0x100 + a@[1]);
    assert(v / 0x100 == t7 && v % 0x100 == a@[7]);
    assert(t7 / 0x100 == t6 && t7 % 0x100 == a@[6]);
    assert(t6 / 0x100 == t5 && t6 % 0x100 == a@[5]);
    assert(t5 / 0x100 == t4 && t5 % 0x100 == a@[4]);
    assert(t4 / 0x100 == t3 && t4 % 0x100 == a@[3]);
    assert(t3 / 0x100 == t2 && t3 % 0x100 == a@[2]);
    assert(t2 / 0x100 == a@[0] && t2 % 0x100 == a@[1]);
    assert(v / 0x1_0000 == t6);
    assert(v / 0x100_0000 == t5);
    assert(v / 0x1_0000_0000 == t4);
    assert(v / 0x100_0000_0000 == t3);
    assert(v / 0x1_0000_0000_0000 == t2);
    assert(v / 0x100_0000_0000_0000 == a@[0]);
}

/// Byte arrays that hold the same bytes stand for the same value, and
/// the other way round.
pub proof fn lemma_be_value_same(a: [u8; 8], b: [u8; 8])
    ensures
        be_value(a) == be_value(b) <==> a@ == b@,
{
    broadcast use vstd::array::group_array_axioms;
    lemma_be_value_bytes(a);
    lemma_be_value_bytes(b);
    if be_value(a) == be_value(b) {
        assert(a@ =~= b@);
    }
}

/// Of two byte arrays that agree before the byte at `k`, the one with the
/// smaller byte at `k` stands for the smaller value.
pub proof fn lemma_byte_orders(a: [u8; 8], b: [u8; 8], k: int)
    requires
        0 <= k < 8,
        same_before(a, b, k),
        a@[k] < b@[k],
    ensures
        be_value(a) < be_value(b),
{
    broadcast use vstd::array::group_array_axioms;
    if k == 0 {
    } else if k == 1 {
        assert(a@[0] == b@[0]);
    } else if k == 2 {
        assert(a@[0] == b@[0] && a@[1] == b@[1]);
    } else if k == 3 {
        assert(a@[0] == b@[0] && a@[1] == b@[1] && a@[2] == b@[2]);
    } else if k == 4 {
        assert(a@[0] == b@[0] && a@[1] == b@[1] && a@[2] == b@[2] && a@[3] == b@[3]);
    } else if k == 5 {
        assert(a@[0] == b@[0] && a@[1] == b@[1] && a@[2] == b@[2] && a@[3] == b@[3] && a@[4]
            == b@[4]);
    } else if k == 6 {
        assert(a@[0] == b@[0] && a@[1] == b@[1] && a@[2] == b@[2] && a@[3] == b@[3] && a@[4]
            == b@[4] && a@[5] == b@[5]);
    } else {
        assert(a@[0] == b@[0] && a@[1] == b@[1] && a@[2] == b@[2] && a@[3] == b@[3] && a@[4]
            == b@[4] && a@[5] == b@[5] && a@[6] == b@[6]);
    }
}

} // verus!
