//! Two-way partitions of a range of a slice, by the type's own order and
//! by its own equality.

use vstd::prelude::*;
use vstd::std_specs::cmp::PartialEqSpec;
use crate::order::{lemma_natural_order, natural_lt, totally_ordered};
use crate::rank::{span, swapped};
use crate::window::{lemma_swap_span};

verus! {

/// Calls `swap` of std's slices, which exchanges the items at `i` and
/// `j`. Not proved; taken from its documentation.
#[verifier::external_body]
pub(crate) fn swap_items<T>(s: &mut [T], i: usize, j: usize)
    requires
        i < old(s)@.len(),
        j < old(s)@.len(),
    ensures
        final(s)@ == swapped(old(s)@, i, j),
{
    s.swap(i, j)
}

/// Partial pivoting. Reorders `s` within `ltsub..gtsub` so that the items
/// not above the pivot come first, followed by the items not below it.
/// Returns the boundary between the two. Items that tie with the pivot may
/// end up on either side.
pub fn spart<T: PartialOrd>(s: &mut [T], ltsub: usize, gtsub: usize, pivot: &T) -> (r: usize)
    requires
        totally_ordered::<T>(),
        ltsub < gtsub <= old(s)@.len(),
    ensures
        ltsub <= r <= gtsub,
        final(s)@.len() == old(s)@.len(),
        forall|i: int| 0 <= i < ltsub || gtsub <= i < old(s)@.len() ==> final(s)@[i] == old(s)@[i],
        span(final(s)@, ltsub, gtsub).to_multiset() == span(old(s)@, ltsub, gtsub).to_multiset(),
        forall|i: int| ltsub <= i < r ==> !natural_lt::<T>()(*pivot, #[trigger] final(s)@[i]),
        forall|i: int| r <= i < gtsub ==> !natural_lt::<T>()(#[trigger] final(s)@[i], *pivot),
{
    let ghost lt = natural_lt::<T>();
    let mut lo = ltsub;
    // one past the last item not yet looked at from the right
    let mut hi = gtsub;
    loop
        invariant
            totally_ordered::<T>(),
            lt == natural_lt::<T>(),
            ltsub <= lo <= hi <= gtsub <= s@.len(),
            s@.len() == old(s)@.len(),
            forall|i: int| 0 <= i < ltsub || gtsub <= i < s@.len() ==> s@[i] == old(s)@[i],
            span(s@, ltsub, gtsub).to_multiset() == span(old(s)@, ltsub, gtsub).to_multiset(),
            forall|i: int| ltsub <= i < lo ==> !lt(*pivot, #[trigger] s@[i]),
            forall|i: int| hi <= i < gtsub ==> !lt(#[trigger] s@[i], *pivot),
        decreases hi - lo,
    {
        let ghost here = s@;
        while lo < hi && s[lo] <= *pivot
            invariant
                totally_ordered::<T>(),
                lt == natural_lt::<T>(),
                ltsub <= lo <= hi <= gtsub <= s@.len(),
                s@ == here,
                forall|i: int| ltsub <= i < lo ==> !lt(*pivot, #[trigger] s@[i]),
            decreases hi - lo,
        {
            proof {
                lemma_natural_order(s@[lo as int], *pivot);
            }
            lo += 1;
        }
        while lo < hi && s[hi - 1] >= *pivot
            invariant
                totally_ordered::<T>(),
                lt == natural_lt::<T>(),
                ltsub <= lo <= hi <= gtsub <= s@.len(),
                s@ == here,
                forall|i: int| hi <= i < gtsub ==> !lt(#[trigger] s@[i], *pivot),
            decreases hi - lo,
        {
            proof {
                lemma_natural_order(s@[hi - 1], *pivot);
            }
            hi -= 1;
        }
        if lo >= hi {
            return lo;
        }
        proof {
            lemma_natural_order(s@[lo as int], *pivot);
            lemma_natural_order(s@[hi - 1], *pivot);
            lemma_swap_span(here, lo as int, hi - 1, ltsub as int, gtsub as int);
        }
        swap_items(s, lo, hi - 1);
        lo += 1;
        hi -= 1;
    }
}

/// Reorders `s` within `ltsub..gtsub` so that the items equal to the pivot
/// come first. Returns the place of the first item that is not equal to
/// it, or `gtsub` where all are.
pub fn eqpart<T: PartialOrd>(s: &mut [T], ltsub: usize, gtsub: usize, pivot: &T) -> (r: usize)
    requires
        T::obeys_eq_spec(),
        ltsub + 1 < gtsub <= old(s)@.len(),
    ensures
        ltsub <= r <= gtsub,
        final(s)@.len() == old(s)@.len(),
        forall|i: int| 0 <= i < ltsub || gtsub <= i < old(s)@.len() ==> final(s)@[i] == old(s)@[i],
        span(final(s)@, ltsub, gtsub).to_multiset() == span(old(s)@, ltsub, gtsub).to_multiset(),
        forall|i: int| ltsub <= i < r ==> (#[trigger] final(s)@[i]).eq_spec(pivot),
        forall|i: int| r <= i < gtsub ==> !(#[trigger] final(s)@[i]).eq_spec(pivot),
{
    let mut lo = ltsub;
    // one past the last item not yet looked at from the right
    let mut hi = gtsub;
    loop
        invariant
            T::obeys_eq_spec(),
            ltsub <= lo <= hi <= gtsub <= s@.len(),
            s@.len() == old(s)@.len(),
            forall|i: int| 0 <= i < ltsub || gtsub <= i < s@.len() ==> s@[i] == old(s)@[i],
            span(s@, ltsub, gtsub).to_multiset() == span(old(s)@, ltsub, gtsub).to_multiset(),
            forall|i: int| ltsub <= i < lo ==> (#[trigger] s@[i]).eq_spec(pivot),
            forall|i: int| hi <= i < gtsub ==> !(#[trigger] s@[i]).eq_spec(pivot),
        decreases hi - lo,
    {
        let ghost here = s@;
        while lo < hi && s[lo] == *pivot
            invariant
                T::obeys_eq_spec(),
                ltsub <= lo <= hi <= gtsub <= s@.len(),
                s@ == here,
                forall|i: int| ltsub <= i < lo ==> (#[trigger] s@[i]).eq_spec(pivot),
            decreases hi - lo,
        {
            lo += 1;
        }
        while lo < hi && s[hi - 1] != *pivot
            invariant
                T::obeys_eq_spec(),
                ltsub <= lo <= hi <= gtsub <= s@.len(),
                s@ == here,
                forall|i: int| hi <= i < gtsub ==> !(#[trigger] s@[i]).eq_spec(pivot),
            decreases hi - lo,
        {
            hi -= 1;
        }
        if lo >= hi {
            return lo;
        }
        proof {
            lemma_swap_span(here, lo as int, hi - 1, ltsub as int, gtsub as int);
        }
        swap_items(s, lo, hi - 1);
        lo += 1;
        hi -= 1;
    }
}

} // verus!
