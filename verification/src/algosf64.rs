//! Selection on slices of values that are copied and compared by the
//! type's own order.

use vstd::prelude::*;
use core::ops::Range;
use crate::order::{lemma_natural_order, natural_lt, totally_ordered};
use crate::rank::{
    above, below, flipped, is_first_least, is_kth, is_mid, lemma_rank_greatest,
    lemma_rank_least, lemma_rank_two_greatest, lemma_rank_two_least, mid_rank, span, tied,
    two_least,
};
use crate::window::{
    kept, lemma_drop_item, lemma_drop_item_via, lemma_kept_sides, lemma_pivot_windows,
    lemma_swap_span, lemma_window_select, lemma_window_whole, untied, window,
};

verus! {

/// The middle value of three, found with at most three comparisons.
pub fn midof3<T: PartialOrd>(item1: T, item2: T, item3: T) -> (m: T)
    requires
        totally_ordered::<T>(),
    ensures
        is_mid(natural_lt::<T>(), item1, item2, item3, m),
{
    let ghost lt = natural_lt::<T>();
    proof {
        assert(!lt(item1, item1) && !lt(item2, item2) && !lt(item3, item3));
        assert(lt(item1, item2) || !lt(item1, item2));
        assert(lt(item2, item1) || !lt(item2, item1));
        assert(lt(item3, item1) || !lt(item3, item1));
        assert(lt(item3, item2) || !lt(item3, item2));
        assert(lt(item1, item3) || !lt(item1, item3));
        assert(lt(item2, item3) || !lt(item2, item3));
    }
    let (min, max) = if item1 <= item2 {
        (item1, item2)
    } else {
        (item2, item1)
    };
    if item3 <= min {
        return min;
    }
    if item3 <= max {
        return item3;
    }
    max
}

/// The minimum within a range of a slice: the first of its least values.
pub fn min<T: PartialOrd + Copy>(s: &[T], rng: Range<usize>) -> (m: T)
    requires
        totally_ordered::<T>(),
        rng.start < rng.end <= s@.len(),
    ensures
        exists|i: int|
            is_first_least(s@.subrange(rng.start as int, rng.end as int), natural_lt::<T>(), i)
                && m == s@[rng.start + i],
{
    let ghost lt = natural_lt::<T>();
    let ghost w = s@.subrange(rng.start as int, rng.end as int);
    let mut m = s[rng.start];
    let ghost mut mi: int = 0;
    let mut k: usize = rng.start + 1;
    while k < rng.end
        invariant
            totally_ordered::<T>(),
            lt == natural_lt::<T>(),
            rng.start < k <= rng.end <= s@.len(),
            w == s@.subrange(rng.start as int, rng.end as int),
            0 <= mi < k - rng.start,
            m == w[mi],
            forall|t: int| 0 <= t < k - rng.start ==> !lt(#[trigger] w[t], m),
            forall|t: int| 0 <= t < mi ==> lt(m, #[trigger] w[t]),
        decreases rng.end - k,
    {
        let si = s[k];
        if si < m {
            proof {
                assert(si == w[k - rng.start]);
                assert forall|t: int| 0 <= t < k + 1 - rng.start implies !lt(#[trigger] w[t], si) by {
                    if lt(w[t], si) {
                        assert(lt(si, m));
                    }
                }
                assert forall|t: int| 0 <= t < k - rng.start implies lt(si, #[trigger] w[t]) by {
                    assert(lt(si, m));
                    assert(lt(si, w[t]) || lt(w[t], m));
                }
                mi = k - rng.start;
            }
            m = si;
        }
        k += 1;
    }
    proof {
        assert(is_first_least(w, lt, mi));
    }
    m
}

/// The maximum within a range of a slice: the first of its greatest values.
pub fn max<T: PartialOrd + Copy>(s: &[T], rng: Range<usize>) -> (m: T)
    requires
        totally_ordered::<T>(),
        rng.start < rng.end <= s@.len(),
    ensures
        exists|i: int|
            is_first_least(
                s@.subrange(rng.start as int, rng.end as int),
                flipped(natural_lt::<T>()),
                i,
            ) && m == s@[rng.start + i],
{
    let ghost lt = natural_lt::<T>();
    let ghost w = s@.subrange(rng.start as int, rng.end as int);
    let mut m = s[rng.start];
    let ghost mut mi: int = 0;
    let mut k: usize = rng.start + 1;
    while k < rng.end
        invariant
            totally_ordered::<T>(),
            lt == natural_lt::<T>(),
            rng.start < k <= rng.end <= s@.len(),
            w == s@.subrange(rng.start as int, rng.end as int),
            0 <= mi < k - rng.start,
            m == w[mi],
            forall|t: int| 0 <= t < k - rng.start ==> !lt(m, #[trigger] w[t]),
            forall|t: int| 0 <= t < mi ==> lt(#[trigger] w[t], m),
        decreases rng.end - k,
    {
        let si = s[k];
        if si > m {
            proof {
                assert(si == w[k - rng.start]);
                assert(lt(m, si));
                assert forall|t: int| 0 <= t < k + 1 - rng.start implies !lt(si, #[trigger] w[t]) by {
                    if lt(si, w[t]) {
                        assert(lt(m, w[t]));
                    }
                }
                assert forall|t: int| 0 <= t < k - rng.start implies lt(#[trigger] w[t], si) by {
                    assert(lt(m, w[t]) || lt(w[t], si));
                }
                mi = k - rng.start;
            }
            m = si;
        }
        k += 1;
    }
    proof {
        assert(is_first_least(w, flipped(lt), mi));
    }
    m
}

/// The two least values within a range of a slice, the least first.
pub fn min2<T: PartialOrd + Copy>(s: &[T], rng: Range<usize>) -> (m: (T, T))
    requires
        totally_ordered::<T>(),
        rng.start + 2 <= rng.end <= s@.len(),
    ensures
        exists|i: int, j: int|
            two_least(s@.subrange(rng.start as int, rng.end as int), natural_lt::<T>(), i, j)
                && m.0 == s@[rng.start + i] && m.1 == s@[rng.start + j],
{
    let ghost lt = natural_lt::<T>();
    let ghost w = s@.subrange(rng.start as int, rng.end as int);
    let ghost mut i1: int = 0;
    let ghost mut i2: int = 1;
    let (mut min1, mut min2) = if s[rng.start + 1] < s[rng.start] {
        proof {
            i1 = 1;
            i2 = 0;
        }
        (s[rng.start + 1], s[rng.start])
    } else {
        (s[rng.start], s[rng.start + 1])
    };
    let mut k: usize = rng.start + 2;
    proof {
        assert(w[0] == s@[rng.start as int] && w[1] == s@[rng.start + 1]);
        assert(!lt(min1, min1) && !lt(min2, min2));
        assert(lt(min1, min2) ==> !lt(min2, min1)) by {
            if lt(min1, min2) && lt(min2, min1) {
                assert(lt(min1, min1));
            }
        }
    }
    while k < rng.end
        invariant
            totally_ordered::<T>(),
            lt == natural_lt::<T>(),
            rng.start + 2 <= k <= rng.end <= s@.len(),
            w == s@.subrange(rng.start as int, rng.end as int),
            0 <= i1 < k - rng.start,
            0 <= i2 < k - rng.start,
            i1 != i2,
            min1 == w[i1],
            min2 == w[i2],
            !lt(min2, min1),
            forall|t: int| 0 <= t < k - rng.start && t != i1 ==> !lt(#[trigger] w[t], min2),
        decreases rng.end - k,
    {
        let si = s[k];
        proof {
            assert(si == w[k - rng.start]);
        }
        if si < min1 {
            proof {
                assert forall|t: int| 0 <= t < k + 1 - rng.start && t != k - rng.start implies !lt(
                    #[trigger] w[t],
                    min1,
                ) by {
                    if lt(w[t], min1) {
                        assert(lt(w[t], min2) || lt(min2, min1));
                    }
                }
                assert(!lt(min1, si)) by {
                    if lt(min1, si) {
                        assert(lt(si, si));
                    }
                }
                i2 = i1;
                i1 = k - rng.start;
            }
            min2 = min1;
            min1 = si;
        } else if si < min2 {
            proof {
                assert forall|t: int| 0 <= t < k + 1 - rng.start && t != i1 implies !lt(
                    #[trigger] w[t],
                    si,
                ) by {
                    if lt(w[t], si) {
                        assert(lt(w[t], min2));
                    }
                }
                i2 = k - rng.start;
            }
            min2 = si;
        }
        k += 1;
    }
    proof {
        assert(two_least(w, lt, i1, i2));
    }
    (min1, min2)
}

/// The two greatest values within a range of a slice, the greatest last.
pub fn max2<T: PartialOrd + Copy>(s: &[T], rng: Range<usize>) -> (m: (T, T))
    requires
        totally_ordered::<T>(),
        rng.start + 2 <= rng.end <= s@.len(),
    ensures
        exists|i: int, j: int|
            two_least(
                s@.subrange(rng.start as int, rng.end as int),
                flipped(natural_lt::<T>()),
                i,
                j,
            ) && m.1 == s@[rng.start + i] && m.0 == s@[rng.start + j],
{
    let ghost lt = natural_lt::<T>();
    let ghost w = s@.subrange(rng.start as int, rng.end as int);
    let ghost mut i1: int = 0;
    let ghost mut i2: int = 1;
    let (mut max1, mut max2) = if s[rng.start + 1] > s[rng.start] {
        proof {
            i1 = 1;
            i2 = 0;
        }
        (s[rng.start + 1], s[rng.start])
    } else {
        (s[rng.start], s[rng.start + 1])
    };
    let mut k: usize = rng.start + 2;
    proof {
        assert(w[0] == s@[rng.start as int] && w[1] == s@[rng.start + 1]);
        assert(!lt(max1, max1) && !lt(max2, max2));
        assert(lt(max2, max1) ==> !lt(max1, max2)) by {
            if lt(max1, max2) && lt(max2, max1) {
                assert(lt(max1, max1));
            }
        }
    }
    while k < rng.end
        invariant
            totally_ordered::<T>(),
            lt == natural_lt::<T>(),
            rng.start + 2 <= k <= rng.end <= s@.len(),
            w == s@.subrange(rng.start as int, rng.end as int),
            0 <= i1 < k - rng.start,
            0 <= i2 < k - rng.start,
            i1 != i2,
            max1 == w[i1],
            max2 == w[i2],
            !lt(max1, max2),
            forall|t: int| 0 <= t < k - rng.start && t != i1 ==> !lt(max2, #[trigger] w[t]),
        decreases rng.end - k,
    {
        let si = s[k];
        proof {
            assert(si == w[k - rng.start]);
        }
        if si > max1 {
            proof {
                assert(lt(max1, si));
                assert forall|t: int| 0 <= t < k + 1 - rng.start && t != k - rng.start implies !lt(
                    max1,
                    #[trigger] w[t],
                ) by {
                    if lt(max1, w[t]) {
                        assert(lt(max1, max2) || lt(max2, w[t]));
                    }
                }
                assert(!lt(si, max1)) by {
                    if lt(si, max1) {
                        assert(lt(si, si));
                    }
                }
                i2 = i1;
                i1 = k - rng.start;
            }
            max2 = max1;
            max1 = si;
        } else if si > max2 {
            proof {
                assert(lt(max2, si));
                assert forall|t: int| 0 <= t < k + 1 - rng.start && t != i1 implies !lt(
                    si,
                    #[trigger] w[t],
                ) by {
                    if lt(si, w[t]) {
                        assert(lt(max2, w[t]));
                    }
                }
                i2 = k - rng.start;
            }
            max2 = si;
        }
        k += 1;
    }
    proof {
        assert(two_least(w, flipped(lt), i1, i2));
    }
    (max2, max1)
}

/// Partitions `s` within range `rng` by `pivot`, dropping the items that
/// tie with the pivot. Returns `(gtsub, endsub)`: after the call
/// `rng.start..gtsub` holds the items of the range below the pivot and
/// `gtsub..endsub` those above it, each as often as before. What
/// `endsub..rng.end` holds is of no account: its length is the number of
/// items that tie with the pivot.
pub fn part<T: PartialOrd + Copy>(s: &mut [T], pivot: T, rng: &Range<usize>) -> (r: (usize, usize))
    requires
        totally_ordered::<T>(),
        rng.start <= rng.end <= old(s)@.len(),
    ensures
        rng.start <= r.0 <= r.1 <= rng.end,
        final(s)@.len() == old(s)@.len(),
        forall|i: int|
            0 <= i < rng.start || rng.end <= i < old(s)@.len() ==> final(s)@[i] == old(s)@[i],
        kept(
            span(old(s)@, rng.start, rng.end),
            span(final(s)@, rng.start, r.0),
            below(natural_lt::<T>(), pivot),
        ),
        kept(
            span(old(s)@, rng.start, rng.end),
            span(final(s)@, r.0, r.1),
            above(natural_lt::<T>(), pivot),
        ),
{
    let ghost lt = natural_lt::<T>();
    let ghost w = span(s@, rng.start, rng.end);
    let mut ltsub = rng.start;
    let mut endsub = rng.end;
    // one past the last item not yet looked at from the right
    let mut gtsub = rng.end;
    while ltsub < gtsub
        invariant
            totally_ordered::<T>(),
            lt == natural_lt::<T>(),
            rng.start <= ltsub <= gtsub <= endsub <= rng.end <= s@.len(),
            s@.len() == old(s)@.len(),
            w == span(old(s)@, rng.start, rng.end),
            forall|i: int| 0 <= i < rng.start || rng.end <= i < s@.len() ==> s@[i] == old(s)@[i],
            forall|i: int| rng.start <= i < ltsub ==> lt(#[trigger] s@[i], pivot),
            forall|i: int| gtsub <= i < endsub ==> lt(pivot, #[trigger] s@[i]),
            span(s@, rng.start, endsub).to_multiset().filter(untied(lt, pivot))
                == w.to_multiset().filter(untied(lt, pivot)),
        decreases gtsub - ltsub,
    {
        let ghost live = span(s@, rng.start, endsub);
        let g = s[gtsub - 1];
        proof {
            lemma_natural_order(g, pivot);
        }
        if g > pivot {
            gtsub -= 1;
            continue;
        }
        if g == pivot {
            // put the last of the greater items in the place of the tied one
            endsub -= 1;
            let last = s[endsub];
            s[gtsub - 1] = last;
            gtsub -= 1;
            proof {
                assert(!untied(lt, pivot)(live[gtsub - rng.start]));
                lemma_drop_item(live, gtsub - rng.start, untied(lt, pivot));
                assert(span(s@, rng.start, endsub) =~= live.update(
                    gtsub - rng.start,
                    live.last(),
                ).drop_last());
            }
            continue;
        }
        // now `g` is below the pivot: look from the left for an item that is not
        let ghost here = s@;
        proof {
            assert(lt(g, pivot));
        }
        while ltsub + 1 < gtsub && s[ltsub] < pivot
            invariant
                totally_ordered::<T>(),
                lt(g, pivot),
                lt == natural_lt::<T>(),
                rng.start <= ltsub < gtsub <= endsub <= rng.end <= s@.len(),
                s@ == here,
                forall|i: int| rng.start <= i < ltsub ==> lt(#[trigger] s@[i], pivot),
            decreases gtsub - ltsub,
        {
            ltsub += 1;
        }
        if ltsub + 1 == gtsub {
            // `g` itself is the last of the items below the pivot
            ltsub = gtsub;
            continue;
        }
        let l = s[ltsub];
        proof {
            lemma_natural_order(l, pivot);
        }
        if l == pivot {
            // `g` takes the place of the tied item, and the last of the greater ones that of `g`
            s[ltsub] = g;
            endsub -= 1;
            let last = s[endsub];
            s[gtsub - 1] = last;
            proof {
                assert(!untied(lt, pivot)(live[ltsub - rng.start]));
                lemma_drop_item_via(
                    live,
                    ltsub - rng.start,
                    gtsub - 1 - rng.start,
                    untied(lt, pivot),
                );
                assert(span(s@, rng.start, endsub) =~= live.update(
                    ltsub - rng.start,
                    live[gtsub - 1 - rng.start],
                ).update(gtsub - 1 - rng.start, live.last()).drop_last());
            }
        } else {
            s[ltsub] = g;
            s[gtsub - 1] = l;
            proof {
                lemma_swap_span(here, ltsub as int, gtsub - 1, rng.start as int, endsub as int);
                assert(s@ =~= here.update(ltsub as int, here[gtsub - 1]).update(
                    gtsub - 1,
                    here[ltsub as int],
                ));
            }
        }
        ltsub += 1;
        gtsub -= 1;
    }
    proof {
        let live = span(s@, rng.start, endsub);
        let front = span(s@, rng.start, ltsub);
        let back = span(s@, ltsub, endsub);
        assert(live =~= front + back);
        lemma_kept_sides(w, live, front, back, lt, pivot);
    }
    (ltsub, endsub)
}

/// The greatest item of the window `s[lo..hi]`: it holds the last rank of the window.
fn top<T: PartialOrd + Copy>(
    s: &[T],
    lo: usize,
    hi: usize,
    Ghost(orig): Ghost<Seq<T>>,
    Ghost(base): Ghost<int>,
) -> (m: T)
    requires
        totally_ordered::<T>(),
        lo < hi <= s@.len(),
        window(orig, span(s@, lo, hi), natural_lt::<T>(), base),
    ensures
        is_kth(orig, natural_lt::<T>(), base + (hi - lo) - 1, m),
{
    let m = max(s, lo..hi);
    proof {
        let lt = natural_lt::<T>();
        let w = span(s@, lo, hi);
        let i = choose|i: int| is_first_least(w, flipped(lt), i) && m == s@[lo + i];
        lemma_rank_greatest(w, lt, i);
        lemma_window_select(orig, w, lt, base, w.len() - 1, w[i]);
    }
    m
}

/// The two greatest items of the window `s[lo..hi]`, in ascending order:
/// they hold the last two ranks of the window.
fn top2<T: PartialOrd + Copy>(
    s: &[T],
    lo: usize,
    hi: usize,
    Ghost(orig): Ghost<Seq<T>>,
    Ghost(base): Ghost<int>,
) -> (m: (T, T))
    requires
        totally_ordered::<T>(),
        lo + 2 <= hi <= s@.len(),
        window(orig, span(s@, lo, hi), natural_lt::<T>(), base),
    ensures
        is_kth(orig, natural_lt::<T>(), base + (hi - lo) - 2, m.0),
        is_kth(orig, natural_lt::<T>(), base + (hi - lo) - 1, m.1),
{
    let m = max2(s, lo..hi);
    proof {
        let lt = natural_lt::<T>();
        let w = span(s@, lo, hi);
        let (i, j) = choose|i: int, j: int|
            two_least(w, flipped(lt), i, j) && m.1 == s@[lo + i] && m.0 == s@[lo + j];
        lemma_rank_two_greatest(w, lt, i, j);
        lemma_window_select(orig, w, lt, base, w.len() - 1, w[i]);
        lemma_window_select(orig, w, lt, base, w.len() - 2, w[j]);
    }
    m
}

/// The least item of the window `s[lo..hi]`: it holds the first rank of the window.
fn bottom<T: PartialOrd + Copy>(
    s: &[T],
    lo: usize,
    hi: usize,
    Ghost(orig): Ghost<Seq<T>>,
    Ghost(base): Ghost<int>,
) -> (m: T)
    requires
        totally_ordered::<T>(),
        lo < hi <= s@.len(),
        window(orig, span(s@, lo, hi), natural_lt::<T>(), base),
    ensures
        is_kth(orig, natural_lt::<T>(), base, m),
{
    let m = min(s, lo..hi);
    proof {
        let lt = natural_lt::<T>();
        let w = span(s@, lo, hi);
        let i = choose|i: int| is_first_least(w, lt, i) && m == s@[lo + i];
        lemma_rank_least(w, lt, i);
        lemma_window_select(orig, w, lt, base, 0, w[i]);
    }
    m
}

/// The two least items of the window `s[lo..hi]`, in ascending order:
/// they hold the first two ranks of the window.
fn bottom2<T: PartialOrd + Copy>(
    s: &[T],
    lo: usize,
    hi: usize,
    Ghost(orig): Ghost<Seq<T>>,
    Ghost(base): Ghost<int>,
) -> (m: (T, T))
    requires
        totally_ordered::<T>(),
        lo + 2 <= hi <= s@.len(),
        window(orig, span(s@, lo, hi), natural_lt::<T>(), base),
    ensures
        is_kth(orig, natural_lt::<T>(), base, m.0),
        is_kth(orig, natural_lt::<T>(), base + 1, m.1),
{
    let m = min2(s, lo..hi);
    proof {
        let lt = natural_lt::<T>();
        let w = span(s@, lo, hi);
        let (i, j) = choose|i: int, j: int|
            two_least(w, lt, i, j) && m.0 == s@[lo + i] && m.1 == s@[lo + j];
        lemma_rank_two_least(w, lt, i, j);
        lemma_window_select(orig, w, lt, base, 0, w[i]);
        lemma_window_select(orig, w, lt, base, 1, w[j]);
    }
    m
}

/// One step of selection: picks as pivot the middle one of the first, the
/// middle and the last item of the window `rng`, and partitions the window
/// by it. Returns the pivot and the two boundaries of `part`. The items
/// below the pivot and those above it are windows again, and the pivot
/// holds the ranks in between.
fn pivot_step<T: PartialOrd + Copy>(
    s: &mut [T],
    rng: &Range<usize>,
    Ghost(orig): Ghost<Seq<T>>,
    Ghost(base): Ghost<int>,
) -> (r: (T, usize, usize))
    requires
        totally_ordered::<T>(),
        rng.start < rng.end <= old(s)@.len(),
        window(orig, span(old(s)@, rng.start, rng.end), natural_lt::<T>(), base),
    ensures
        final(s)@.len() == old(s)@.len(),
        rng.start <= r.1 <= r.2 < rng.end,
        window(orig, span(final(s)@, rng.start, r.1), natural_lt::<T>(), base),
        window(
            orig,
            span(final(s)@, r.1, r.2),
            natural_lt::<T>(),
            base + (rng.end - rng.start) - (r.2 - r.1),
        ),
        forall|k: int|
            base + (r.1 - rng.start) <= k < base + (rng.end - rng.start) - (r.2 - r.1) ==> is_kth(
                orig,
                natural_lt::<T>(),
                k,
                r.0,
            ),
{
    let pivot = midof3(s[rng.start], s[rng.start + (rng.end - rng.start) / 2], s[rng.end - 1]);
    let ghost before = s@;
    let (gtsub, endsub) = part(s, pivot, rng);
    proof {
        let w = span(before, rng.start, rng.end);
        assert(w[0] == crate::rank::item(before, rng.start));
        assert(w[(rng.end - rng.start) / 2] == before[rng.start + (rng.end - rng.start) / 2]);
        assert(w[rng.end - rng.start - 1] == before[rng.end - 1]);
        assert(w.contains(pivot));
        lemma_pivot_windows(
            orig,
            w,
            span(s@, rng.start, gtsub),
            span(s@, gtsub, endsub),
            natural_lt::<T>(),
            pivot,
            base,
        );
    }
    (pivot, gtsub, endsub)
}

/// The median of `s`, of odd length: the item that holds the middle rank.
/// Reorders and overwrites `s`.
pub fn med_odd<T: PartialOrd + Copy>(s: &mut [T]) -> (m: T)
    requires
        totally_ordered::<T>(),
        old(s)@.len() > 0,
    ensures
        final(s)@.len() == old(s)@.len(),
        is_kth(old(s)@, natural_lt::<T>(), mid_rank(old(s)@), m),
{
    let n = s.len();
    let mut rng = 0..n;
    let mut need = n / 2;
    let ghost orig = s@;
    let ghost lt = natural_lt::<T>();
    let ghost mut off: int = 0;
    proof {
        lemma_window_whole(orig, span(s@, 0, n), lt);
    }
    loop
        invariant
            totally_ordered::<T>(),
            lt == natural_lt::<T>(),
            n == s@.len(),
            orig == old(s)@,
            n == orig.len(),
            rng.start <= need < rng.end <= n,
            need <= n / 2,
            need + off == mid_rank(orig),
            window(orig, span(s@, rng.start, rng.end), lt, rng.start + off),
        decreases rng.end - rng.start,
    {
        let (pivot, gtsub, endsub) = pivot_step(s, &rng, Ghost(orig), Ghost(rng.start + off));
        // well inside the part below the pivot: search it
        if need + 2 < gtsub {
            rng.end = gtsub;
            continue;
        }
        // close to the end of the part below the pivot
        if need + 2 == gtsub {
            return top2(s, rng.start, gtsub, Ghost(orig), Ghost(rng.start + off)).0;
        }
        if need + 1 == gtsub {
            return top(s, rng.start, gtsub, Ghost(orig), Ghost(rng.start + off));
        }
        // among the items that tie with the pivot
        if need < gtsub + (rng.end - endsub) {
            return pivot;
        }
        // past the items that tie with the pivot
        need -= rng.end - endsub;
        proof {
            off = off + (rng.end - endsub);
        }
        // well inside the part above the pivot: search it
        if need > gtsub + 1 {
            rng.start = gtsub;
            rng.end = endsub;
            continue;
        }
        // at the beginning of the part above the pivot
        if need == gtsub {
            return bottom(s, gtsub, endsub, Ghost(orig), Ghost(gtsub + off));
        }
        return bottom2(s, gtsub, endsub, Ghost(orig), Ghost(gtsub + off)).1;
    }
}

/// The two central items of `s`, of even length: those that hold the two
/// middle ranks, in ascending order. Reorders and overwrites `s`.
pub fn med_even<T: PartialOrd + Copy>(s: &mut [T]) -> (m: (T, T))
    requires
        totally_ordered::<T>(),
        old(s)@.len() >= 2,
    ensures
        final(s)@.len() == old(s)@.len(),
        is_kth(old(s)@, natural_lt::<T>(), mid_rank(old(s)@) - 1, m.0),
        is_kth(old(s)@, natural_lt::<T>(), mid_rank(old(s)@), m.1),
{
    let n = s.len();
    let mut rng = 0..n;
    let mut need = n / 2 - 1;
    let ghost orig = s@;
    let ghost lt = natural_lt::<T>();
    let ghost mut off: int = 0;
    proof {
        lemma_window_whole(orig, span(s@, 0, n), lt);
    }
    loop
        invariant
            totally_ordered::<T>(),
            lt == natural_lt::<T>(),
            n == s@.len(),
            orig == old(s)@,
            n == orig.len(),
            rng.start <= need,
            need + 1 < rng.end <= n,
            need <= n / 2,
            need + off == mid_rank(orig) - 1,
            window(orig, span(s@, rng.start, rng.end), lt, rng.start + off),
        decreases rng.end - rng.start,
    {
        let (pivot, gtsub, endsub) = pivot_step(s, &rng, Ghost(orig), Ghost(rng.start + off));
        // well inside the part below the pivot: search it
        if need + 2 < gtsub {
            rng.end = gtsub;
            continue;
        }
        // close to the end of the part below the pivot
        if need + 2 == gtsub {
            return top2(s, rng.start, gtsub, Ghost(orig), Ghost(rng.start + off));
        }
        // an item ties with the pivot, so the pivot follows the part below it
        if need + 1 == gtsub {
            return (top(s, rng.start, gtsub, Ghost(orig), Ghost(rng.start + off)), pivot);
        }
        // both among the items that tie with the pivot
        if need + 1 < gtsub + (rng.end - endsub) {
            return (pivot, pivot);
        }
        // the last of the items that tie with the pivot, and the least above it
        if need + 1 == gtsub + (rng.end - endsub) {
            return (
                pivot,
                bottom(s, gtsub, endsub, Ghost(orig), Ghost(gtsub + off + (rng.end - endsub))),
            );
        }
        // past the items that tie with the pivot
        need -= rng.end - endsub;
        proof {
            off = off + (rng.end - endsub);
        }
        // inside the part above the pivot: search it
        if need > gtsub {
            rng.start = gtsub;
            rng.end = endsub;
            continue;
        }
        // at the beginning of the part above the pivot
        return bottom2(s, gtsub, endsub, Ghost(orig), Ghost(gtsub + off));
    }
}

} // verus!
