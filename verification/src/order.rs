//! The orders by which items are ranked: the order that a type brings with
//! it, and the order that a caller's comparator decides.

use vstd::prelude::*;
use vstd::std_specs::cmp::{PartialEqSpec, PartialOrdIs, PartialOrdSpec};

use core::cmp::Ordering;
use crate::rank::{flipped, is_first_least, strict_weak_order, tied, two_least};

verus! {

/// `a` is less than `b` by the type's own comparison.
pub open spec fn natural_lt<T: PartialOrd>() -> spec_fn(T, T) -> bool {
    |a: T, b: T| a.partial_cmp_spec(&b) == Some(Ordering::Less)
}

/// The type's own comparison orders every two values, agrees with its
/// equality, and `<`, `>` and `==` compute it.
pub open spec fn totally_ordered<T: PartialOrd>() -> bool {
    &&& T::obeys_partial_cmp_spec()
    &&& T::obeys_eq_spec()
    &&& forall|a: T, b: T| (#[trigger] a.partial_cmp_spec(&b)) is Some
    &&& forall|a: T, b: T|
        (#[trigger] a.partial_cmp_spec(&b)) == Some(Ordering::Greater) <==> b.partial_cmp_spec(&a)
            == Some(Ordering::Less)
    &&& forall|a: T, b: T|
        (#[trigger] a.eq_spec(&b)) <==> a.partial_cmp_spec(&b) == Some(Ordering::Equal)
    &&& strict_weak_order(natural_lt::<T>())
}

/// What `<`, `>`, `<=` and `==` compute on two values of a totally
/// ordered type, in terms of its order.
pub proof fn lemma_natural_order<T: PartialOrd>(a: T, b: T)
    requires
        totally_ordered::<T>(),
    ensures
        a.eq_spec(&b) <==> tied(natural_lt::<T>(), a, b),
        a.is_lt(&b) <==> natural_lt::<T>()(a, b),
        a.is_gt(&b) <==> natural_lt::<T>()(b, a),
        a.is_le(&b) <==> !natural_lt::<T>()(b, a),
        a.is_ge(&b) <==> !natural_lt::<T>()(a, b),
        !(natural_lt::<T>()(a, b) && natural_lt::<T>()(b, a)),
{
    let lt = natural_lt::<T>();
    assert(a.partial_cmp_spec(&b) is Some);
    assert(b.partial_cmp_spec(&a) is Some);
    if lt(a, b) && lt(b, a) {
        assert(lt(a, a));
    }
}

/// The 64-bit unsigned integers are totally ordered, by `<`.
pub proof fn lemma_u64_order()
    ensures
        totally_ordered::<u64>(),
        forall|a: u64, b: u64| #[trigger] natural_lt::<u64>()(a, b) <==> a < b,
{
}

/// The bytes are totally ordered, by `<`.
pub proof fn lemma_u8_order()
    ensures
        totally_ordered::<u8>(),
        forall|a: u8, b: u8| #[trigger] natural_lt::<u8>()(a, b) <==> a < b,
{
}

/// The 16-bit unsigned integers are totally ordered, by `<`.
pub proof fn lemma_u16_order()
    ensures
        totally_ordered::<u16>(),
        forall|a: u16, b: u16| #[trigger] natural_lt::<u16>()(a, b) <==> a < b,
{
}

/// What a comparator that decides the order `lt` answers for `a` and `b`.
pub open spec fn verdict<T>(lt: spec_fn(T, T) -> bool, a: T, b: T) -> Ordering {
    if lt(a, b) {
        Ordering::Less
    } else if lt(b, a) {
        Ordering::Greater
    } else {
        Ordering::Equal
    }
}

/// The comparator `c` decides the order `lt`: `lt` is a strict weak order,
/// `c` can be called on every two values, and whatever it answers is the
/// verdict of `lt`.
///
/// A function that takes a comparator states its result for every order
/// that the comparator decides: of a comparator only what follows from an
/// answer is known, so its caller names the order and shows that the
/// comparator decides it.
pub open spec fn decides<T, F: FnMut(&T, &T) -> Ordering>(c: F, lt: spec_fn(T, T) -> bool) -> bool {
    &&& strict_weak_order(lt)
    &&& forall|a: T, b: T| #[trigger] call_requires(c, (&a, &b))
    &&& forall|a: T, b: T, o: Ordering| #[trigger]
        call_ensures(c, (&a, &b), o) ==> o == verdict(lt, a, b)
}

/// `c` decides some strict weak order.
pub open spec fn is_comparator<T, F: FnMut(&T, &T) -> Ordering>(c: F) -> bool {
    exists|lt: spec_fn(T, T) -> bool| decides::<T, F>(c, lt)
}

/// An order on values, as an order on references to them.
pub open spec fn by_ref<'a, T>(lt: spec_fn(T, T) -> bool) -> spec_fn(&'a T, &'a T) -> bool {
    |a: &T, b: &T| lt(*a, *b)
}

/// The order `lt`, or `lt` turned round where `rev` is set.
pub open spec fn directed<T>(lt: spec_fn(T, T) -> bool, rev: bool) -> spec_fn(T, T) -> bool {
    if rev {
        flipped(lt)
    } else {
        lt
    }
}

/// Whether `a` comes before `b`, or `b` before `a` where `rev` is set.
pub fn precedes<T, F: FnMut(&T, &T) -> Ordering>(c: &mut F, a: &T, b: &T, rev: bool) -> (r: bool)
    requires
        is_comparator::<T, F>(*old(c)),
    ensures
        *final(c) == *old(c),
        forall|lt: spec_fn(T, T) -> bool| #[trigger]
            decides::<T, F>(*old(c), lt) ==> r == directed(lt, rev)(*a, *b),
{
    let o = if rev {
        c(b, a)
    } else {
        c(a, b)
    };
    match o {
        Ordering::Less => true,
        _ => false,
    }
}

/// A strict weak order, in either direction, is a strict weak order.
pub proof fn lemma_directed_order<T>(lt: spec_fn(T, T) -> bool, rev: bool)
    requires
        strict_weak_order(lt),
    ensures
        strict_weak_order(directed(lt, rev)),
{
    crate::rank::lemma_flipped_order(lt);
}

/// A strict weak order on values is one on references to them.
pub proof fn lemma_by_ref_order<T>(lt: spec_fn(T, T) -> bool)
    requires
        strict_weak_order(lt),
    ensures
        strict_weak_order(by_ref(lt)),
{
    let r = by_ref(lt);
    assert forall|a: &T, b: &T, c: &T| #[trigger] r(a, b) && #[trigger] r(b, c) implies r(a, c) by {
        assert(lt(*a, *b) && lt(*b, *c));
    }
    assert forall|a: &T, b: &T, c: &T| #[trigger] r(a, c) implies #[trigger] r(a, b) || r(b, c) by {
        assert(lt(*a, *c));
        assert(lt(*a, *b) || lt(*b, *c));
    }
    assert forall|a: &T| !#[trigger] r(a, a) by {
        assert(!lt(*a, *a));
    }
}

/// The order of the 64-bit unsigned integers by size.
pub open spec fn lt_u64() -> spec_fn(u64, u64) -> bool {
    |a: u64, b: u64| a < b
}

/// The order of the bytes by size.
pub open spec fn lt_u8() -> spec_fn(u8, u8) -> bool {
    |a: u8, b: u8| a < b
}

/// The order of the 16-bit unsigned integers by size.
pub open spec fn lt_u16() -> spec_fn(u16, u16) -> bool {
    |a: u16, b: u16| a < b
}

/// Compares two bytes by size.
pub fn by_size_u8(a: &u8, b: &u8) -> (o: Ordering)
    ensures
        o == verdict(lt_u8(), *a, *b),
{
    if *a < *b {
        Ordering::Less
    } else if *b < *a {
        Ordering::Greater
    } else {
        Ordering::Equal
    }
}

/// Compares two integers by size.
pub fn by_size(a: &u64, b: &u64) -> (o: Ordering)
    ensures
        o == verdict(lt_u64(), *a, *b),
{
    if *a < *b {
        Ordering::Less
    } else if *b < *a {
        Ordering::Greater
    } else {
        Ordering::Equal
    }
}

/// `m` is the item at `i` of `w` and, by every order that `c` decides, the
/// first of the least items of `w`; of the greatest, where `rev` is set.
pub open spec fn extreme_at<T, F: FnMut(&T, &T) -> Ordering>(
    c: F,
    w: Seq<T>,
    rev: bool,
    i: int,
    m: T,
) -> bool {
    &&& 0 <= i < w.len()
    &&& m == w[i]
    &&& forall|lt: spec_fn(T, T) -> bool| #[trigger]
        decides::<T, F>(c, lt) ==> is_first_least(w, directed(lt, rev), i)
}

/// `m` is the reference at `i` of `w` and, by every order that `c`
/// decides, the first of the least items of `w`; of the greatest, where
/// `rev` is set.
pub open spec fn extreme_ref_at<'a, T, F: FnMut(&T, &T) -> Ordering>(
    c: F,
    w: Seq<&'a T>,
    rev: bool,
    i: int,
    m: &'a T,
) -> bool {
    &&& 0 <= i < w.len()
    &&& m == w[i]
    &&& forall|lt: spec_fn(T, T) -> bool| #[trigger]
        decides::<T, F>(c, lt) ==> is_first_least(w, directed(by_ref(lt), rev), i)
}

/// `m1` and `m2` are the items at `i` and `j` of `w` and, by every order
/// that `c` decides, its two least items, the least first; its two
/// greatest, the greatest first, where `rev` is set.
pub open spec fn best_two_at<T, F: FnMut(&T, &T) -> Ordering>(
    c: F,
    w: Seq<T>,
    rev: bool,
    i: int,
    j: int,
    m1: T,
    m2: T,
) -> bool {
    &&& 0 <= i < w.len()
    &&& 0 <= j < w.len()
    &&& m1 == w[i]
    &&& m2 == w[j]
    &&& forall|lt: spec_fn(T, T) -> bool| #[trigger]
        decides::<T, F>(c, lt) ==> two_least(w, directed(lt, rev), i, j)
}

/// `m1` and `m2` are the references at `i` and `j` of `w` and, by every
/// order that `c` decides, its two least items, the least first; its two
/// greatest, the greatest first, where `rev` is set.
pub open spec fn best_two_ref_at<'a, T, F: FnMut(&T, &T) -> Ordering>(
    c: F,
    w: Seq<&'a T>,
    rev: bool,
    i: int,
    j: int,
    m1: &'a T,
    m2: &'a T,
) -> bool {
    &&& 0 <= i < w.len()
    &&& 0 <= j < w.len()
    &&& m1 == w[i]
    &&& m2 == w[j]
    &&& forall|lt: spec_fn(T, T) -> bool| #[trigger]
        decides::<T, F>(c, lt) ==> two_least(w, directed(by_ref(lt), rev), i, j)
}

/// The comparator `c` of places decides the order `lt` of places: `lt` is
/// a strict weak order, `c` can be called on every two places, and whatever
/// it answers is the verdict of `lt`.
pub open spec fn decides_places<F: FnMut(usize, usize) -> Ordering>(
    c: F,
    lt: spec_fn(usize, usize) -> bool,
) -> bool {
    &&& strict_weak_order(lt)
    &&& forall|a: usize, b: usize| #[trigger] call_requires(c, (a, b))
    &&& forall|a: usize, b: usize, o: Ordering| #[trigger]
        call_ensures(c, (a, b), o) ==> o == verdict(lt, a, b)
}

/// `c` decides some strict weak order of places.
pub open spec fn is_place_comparator<F: FnMut(usize, usize) -> Ordering>(c: F) -> bool {
    exists|lt: spec_fn(usize, usize) -> bool| decides_places::<F>(c, lt)
}

/// Whether the place `a` comes before the place `b`.
pub fn place_precedes<F: FnMut(usize, usize) -> Ordering>(c: &mut F, a: usize, b: usize) -> (r: bool)
    requires
        is_place_comparator::<F>(*old(c)),
    ensures
        *final(c) == *old(c),
        forall|lt: spec_fn(usize, usize) -> bool| #[trigger]
            decides_places::<F>(*old(c), lt) ==> r == lt(a, b),
{
    match c(a, b) {
        Ordering::Less => true,
        _ => false,
    }
}

/// The one of `a` and `b` that is not below the other; `a` where they tie.
pub open spec fn greater_of<T>(lt: spec_fn(T, T) -> bool, a: T, b: T) -> T {
    if lt(a, b) {
        b
    } else {
        a
    }
}

/// The one of `a` and `b` that is below the other; `b` where they tie.
pub open spec fn lesser_of<T>(lt: spec_fn(T, T) -> bool, a: T, b: T) -> T {
    if lt(a, b) {
        a
    } else {
        b
    }
}

} // verus!
