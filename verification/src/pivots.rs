//! Small selections among three or four items, as pivot estimates.

use vstd::prelude::*;
use core::cmp::Ordering;
use crate::order::{
    by_ref, decides, decides_places, greater_of, is_comparator, is_place_comparator, lesser_of,
    place_precedes, precedes,
};
use crate::rank::is_mid;

verus! {

/// The reference to the middle value out of three, found with at most
/// three comparisons.
pub fn midof3<'a, T>(
    item1: &'a T,
    item2: &'a T,
    item3: &'a T,
    c: &mut impl FnMut(&T, &T) -> Ordering,
) -> (m: &'a T)
    requires
        is_comparator::<T, _>(*old(c)),
    ensures
        *final(c) == *old(c),
        forall|lt: spec_fn(T, T) -> bool| #[trigger]
            decides::<T, _>(*old(c), lt) ==> is_mid(by_ref(lt), item1, item2, item3, m),
{
    let first_less = precedes(c, item2, item1, false);
    let (min, max) = if first_less {
        (item2, item1)
    } else {
        (item1, item2)
    };
    let min_less = precedes(c, min, item3, false);
    if !min_less {
        proof {
            assert forall|lt: spec_fn(T, T) -> bool| #[trigger]
                decides::<T, _>(*c, lt) implies is_mid(by_ref(lt), item1, item2, item3, min) by {
                if lt(*item1, *item2) && lt(*item2, *item1) {
                    assert(lt(*item1, *item1));
                }
            }
        }
        return min;
    }
    let last_less = precedes(c, item3, max, false);
    proof {
        assert forall|lt: spec_fn(T, T) -> bool| #[trigger]
            decides::<T, _>(*c, lt) implies is_mid(
            by_ref(lt),
            item1,
            item2,
            item3,
            if !last_less {
                max
            } else {
                item3
            },
        ) by {
            let a = *item1;
            let b = *item2;
            let d = *item3;
            if lt(a, b) && lt(b, a) {
                assert(lt(a, a));
            }
            if lt(a, d) && lt(d, a) {
                assert(lt(a, a));
            }
            if lt(b, d) && lt(d, b) {
                assert(lt(b, b));
            }
        }
    }
    if !last_less {
        return max;
    }
    item3
}

/// The place of a middling value out of four places, found with three
/// comparisons: the lesser one of the greater of the first two and the
/// greater of the last two.
pub fn middling(
    idx0: usize,
    idx1: usize,
    idx2: usize,
    idx3: usize,
    c: &mut impl FnMut(usize, usize) -> Ordering,
) -> (m: usize)
    requires
        is_place_comparator(*old(c)),
    ensures
        *final(c) == *old(c),
        forall|lt: spec_fn(usize, usize) -> bool| #[trigger]
            decides_places(*old(c), lt) ==> m == lesser_of(
                lt,
                greater_of(lt, idx0, idx1),
                greater_of(lt, idx2, idx3),
            ),
{
    let max1 = if place_precedes(c, idx0, idx1) {
        idx1
    } else {
        idx0
    };
    let max2 = if place_precedes(c, idx2, idx3) {
        idx3
    } else {
        idx2
    };
    if place_precedes(c, max1, max2) {
        max1
    } else {
        max2
    }
}

/// The places of the two middle values out of four places, found with
/// four comparisons: the greater of the two lesser ones, and the lesser of
/// the two greater ones.
pub fn mid2(
    idx0: usize,
    idx1: usize,
    idx2: usize,
    idx3: usize,
    c: &mut impl FnMut(usize, usize) -> Ordering,
) -> (m: (usize, usize))
    requires
        is_place_comparator(*old(c)),
    ensures
        *final(c) == *old(c),
        forall|lt: spec_fn(usize, usize) -> bool| #[trigger]
            decides_places(*old(c), lt) ==> m.0 == greater_of(
                lt,
                lesser_of(lt, idx0, idx1),
                lesser_of(lt, idx2, idx3),
            ) && m.1 == lesser_of(lt, greater_of(lt, idx0, idx1), greater_of(lt, idx2, idx3)),
{
    let (min1, max1) = if place_precedes(c, idx0, idx1) {
        (idx0, idx1)
    } else {
        (idx1, idx0)
    };
    let (min2, max2) = if place_precedes(c, idx2, idx3) {
        (idx2, idx3)
    } else {
        (idx3, idx2)
    };
    let mid1 = if place_precedes(c, min1, min2) {
        min2
    } else {
        min1
    };
    let mid2 = if place_precedes(c, max1, max2) {
        max1
    } else {
        max2
    };
    (mid1, mid2)
}

} // verus!
