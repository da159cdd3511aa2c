//! IEEE-754 doubles as their 64-bit patterns: the total order of the
//! patterns, the test for a NaN, and the mapping of the patterns to
//! unsigned integers and back.

use vstd::prelude::*;
use core::cmp::Ordering;
use crate::order::verdict;

verus! {

/// The mask of the sign bit of a double.
pub const FSIGN: u64 = 0x8000_0000_0000_0000;

/// The place of a pattern in the total order of the doubles: the
/// patterns with the sign bit clear ascend from zero, those with the sign
/// bit set descend from minus one.
pub open spec fn total_key(u: u64) -> int {
    if u < 0x8000_0000_0000_0000 {
        u as int
    } else {
        0x7fff_ffff_ffff_ffff - u
    }
}

/// The total order of the doubles, on their patterns: negative NaNs,
/// minus infinity, the negative numbers, minus zero, zero, the positive
/// numbers, infinity, positive NaNs.
pub open spec fn lt_total() -> spec_fn(u64, u64) -> bool {
    |a: u64, b: u64| total_key(a) < total_key(b)
}

/// Compares the patterns of two doubles in the total order of the doubles.
pub fn by_total_order(a: &u64, b: &u64) -> (o: Ordering)
    ensures
        o == verdict(lt_total(), *a, *b),
{
    let x = *a;
    let y = *b;
    if x < FSIGN {
        if y < FSIGN {
            if x < y {
                Ordering::Less
            } else if y < x {
                Ordering::Greater
            } else {
                Ordering::Equal
            }
        } else {
            Ordering::Greater
        }
    } else if y < FSIGN {
        Ordering::Less
    } else if y < x {
        Ordering::Less
    } else if x < y {
        Ordering::Greater
    } else {
        Ordering::Equal
    }
}

/// The pattern is that of a NaN: all exponent bits set, and a fraction that is not zero.
pub open spec fn is_nan_bits(u: u64) -> bool {
    u & 0x7fff_ffff_ffff_ffff > 0x7ff0_0000_0000_0000
}

/// Whether the pattern is that of a NaN.
pub fn is_nan(u: u64) -> (r: bool)
    ensures
        r == is_nan_bits(u),
{
    (u & 0x7fff_ffff_ffff_ffff) > 0x7ff0_0000_0000_0000
}

/// Whether any of the patterns is that of a NaN.
pub fn nans(v: &[u64]) -> (r: bool)
    ensures
        r <==> exists|i: int| 0 <= i < v@.len() && is_nan_bits(#[trigger] v@[i]),
{
    let mut i: usize = 0;
    while i < v.len()
        invariant
            i <= v@.len(),
            forall|j: int| 0 <= j < i ==> !is_nan_bits(#[trigger] v@[j]),
        decreases v@.len() - i,
    {
        if is_nan(v[i]) {
            return true;
        }
        i += 1;
    }
    false
}

/// The patterns that are not those of a NaN.
pub open spec fn not_nan() -> spec_fn(u64) -> bool {
    |u: u64| !is_nan_bits(u)
}

/// Copies the patterns, leaving out those of NaNs.
pub fn scrub_nans(v: &[u64]) -> (r: Vec<u64>)
    ensures
        r@ == v@.filter(not_nan()),
{
    let mut r: Vec<u64> = Vec::new();
    let mut i: usize = 0;
    proof {
        reveal(Seq::filter);
        assert(v@.take(0).filter(not_nan()) =~= Seq::<u64>::empty());
    }
    while i < v.len()
        invariant
            i <= v@.len(),
            r@ == v@.take(i as int).filter(not_nan()),
        decreases v@.len() - i,
    {
        proof {
            reveal(Seq::filter);
            assert(v@.take(i + 1).drop_last() =~= v@.take(i as int));
            assert(v@.take(i + 1).last() == v@[i as int]);
        }
        if !is_nan(v[i]) {
            r.push(v[i]);
        }
        i += 1;
    }
    proof {
        assert(v@.take(v@.len() as int) =~= v@);
    }
    r
}

/// The unsigned integer that stands for the pattern `u` of a double: the
/// pattern with its sign bit cleared where that bit is set, and the
/// complement of the pattern otherwise.
pub open spec fn ordered_of(u: u64) -> u64 {
    if u >> 63 == 1 {
        u ^ 0x8000_0000_0000_0000
    } else {
        !u
    }
}

/// The pattern of the double that the unsigned integer `u` stands for.
pub open spec fn pattern_of(u: u64) -> u64 {
    if u >> 63 == 1 {
        !u
    } else {
        u ^ 0x8000_0000_0000_0000
    }
}

/// Converts the pattern of a double, NaNs and all, to the unsigned
/// integer that stands for it.
pub fn to_u64(f: u64) -> (u: u64)
    ensures
        u == ordered_of(f),
{
    if (f >> 63) == 1 {
        f ^ FSIGN
    } else {
        !f
    }
}

/// Converts an unsigned integer back to the pattern of the double that it
/// stands for: the inverse of `to_u64`.
pub fn to_f64(u: u64) -> (f: u64)
    ensures
        f == pattern_of(u),
{
    if (u >> 63) == 1 {
        !u
    } else {
        u ^ FSIGN
    }
}

/// `to_f64` undoes `to_u64`, and `to_u64` undoes `to_f64`.
pub proof fn lemma_round_trip(u: u64)
    ensures
        pattern_of(ordered_of(u)) == u,
        ordered_of(pattern_of(u)) == u,
{
    assert((if (if u >> 63 == 1 { u ^ 0x8000_0000_0000_0000 } else { !u }) >> 63 == 1 {
        !(if u >> 63 == 1 { u ^ 0x8000_0000_0000_0000 } else { !u })
    } else {
        (if u >> 63 == 1 { u ^ 0x8000_0000_0000_0000 } else { !u }) ^ 0x8000_0000_0000_0000
    }) == u) by (bit_vector);
    assert((if (if u >> 63 == 1 { !u } else { u ^ 0x8000_0000_0000_0000 }) >> 63 == 1 {
        (if u >> 63 == 1 { !u } else { u ^ 0x8000_0000_0000_0000 }) ^ 0x8000_0000_0000_0000
    } else {
        !(if u >> 63 == 1 { !u } else { u ^ 0x8000_0000_0000_0000 })
    }) == u) by (bit_vector);
}

/// What `to_u64` does to the order. A pattern with the sign bit set goes
/// below every pattern with it clear, as in the total order of the doubles.
/// Among patterns of one sign the order is turned round: of two such
/// patterns, the one that is below the other in the total order is mapped
/// to the greater integer.
pub proof fn lemma_to_u64_order(a: u64, b: u64)
    ensures
        (a >= 0x8000_0000_0000_0000 && b < 0x8000_0000_0000_0000) ==> lt_total()(a, b)
            && ordered_of(a) < ordered_of(b),
        (a >= 0x8000_0000_0000_0000) == (b >= 0x8000_0000_0000_0000) ==> (lt_total()(a, b)
            <==> ordered_of(b) < ordered_of(a)),
{
    assert(a >> 63 == 1 <==> a >= 0x8000_0000_0000_0000) by (bit_vector);
    assert(b >> 63 == 1 <==> b >= 0x8000_0000_0000_0000) by (bit_vector);
    assert(a >= 0x8000_0000_0000_0000 ==> a ^ 0x8000_0000_0000_0000 == (a
        - 0x8000_0000_0000_0000) as u64) by (bit_vector);
    assert(b >= 0x8000_0000_0000_0000 ==> b ^ 0x8000_0000_0000_0000 == (b
        - 0x8000_0000_0000_0000) as u64) by (bit_vector);
    assert(!a == (0xffff_ffff_ffff_ffff - a) as u64) by (bit_vector);
    assert(!b == (0xffff_ffff_ffff_ffff - b) as u64) by (bit_vector);
}

/// Converts the patterns of doubles, NaNs and all, to unsigned integers.
pub fn to_u64s(v: &[u64]) -> (r: Vec<u64>)
    ensures
        r@ == v@.map_values(|f: u64| ordered_of(f)),
{
    let mut r: Vec<u64> = Vec::new();
    let mut i: usize = 0;
    while i < v.len()
        invariant
            i <= v@.len(),
            r@ == v@.take(i as int).map_values(|f: u64| ordered_of(f)),
        decreases v@.len() - i,
    {
        proof {
            assert(v@.take(i + 1).map_values(|f: u64| ordered_of(f)) =~= v@.take(
                i as int,
            ).map_values(|f: u64| ordered_of(f)).push(ordered_of(v@[i as int])));
        }
        r.push(to_u64(v[i]));
        i += 1;
    }
    proof {
        assert(v@.take(v@.len() as int) =~= v@);
    }
    r
}

/// Converts unsigned integers back to the patterns of doubles: the inverse of `to_u64s`.
pub fn to_f64s(v: &[u64]) -> (r: Vec<u64>)
    ensures
        r@ == v@.map_values(|u: u64| pattern_of(u)),
{
    let mut r: Vec<u64> = Vec::new();
    let mut i: usize = 0;
    while i < v.len()
        invariant
            i <= v@.len(),
            r@ == v@.take(i as int).map_values(|u: u64| pattern_of(u)),
        decreases v@.len() - i,
    {
        proof {
            assert(v@.take(i + 1).map_values(|u: u64| pattern_of(u)) =~= v@.take(
                i as int,
            ).map_values(|u: u64| pattern_of(u)).push(pattern_of(v@[i as int])));
        }
        r.push(to_f64(v[i]));
        i += 1;
    }
    proof {
        assert(v@.take(v@.len() as int) =~= v@);
    }
    r
}

/// Converts the patterns of doubles to unsigned integers, leaving out the NaNs.
pub fn to_clean_u64s(v: &[u64]) -> (r: Vec<u64>)
    ensures
        r@ == v@.filter(not_nan()).map_values(|f: u64| ordered_of(f)),
{
    let clean = scrub_nans(v);
    to_u64s(clean.as_slice())
}

} // verus!
