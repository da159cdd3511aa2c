//! The selection engines: extremum helpers, pivot estimators, and the
//! searches that narrow a range down to the wanted rank.

use vstd::prelude::*;
use core::cmp::Ordering;
use core::ops::Range;
use indxvec::{Mutops, Vecops};
use crate::bigend::{
    agree_before, be_value, by_value, from_be, key_byte, lemma_be_value_same,
    lemma_byte_orders, lt_be, same_before,
};
use crate::bits::{lemma_bit_first, lemma_bit_halved, lemma_bit_partition, one_bit, same_above};
use crate::histogram::{
    key_is, key_u16, key_u8, lemma_bucket_rank, lemma_bucket_window, lemma_prefix_sum_counts,
    rank_bucket, rank_bucket_base, rank_buckets, tally_byte, tally_u16, tally_u8,
};
use crate::laws::{
    lemma_kth_u16_is_sorted_item, lemma_kth_u64_is_sorted_item, lemma_kth_u8_is_sorted_item,
    sorted_u16, sorted_u64, sorted_u8,
};
use crate::order::{
    best_two_at, best_two_ref_at, by_ref, by_size, decides, directed, extreme_at,
    extreme_ref_at, is_comparator, lemma_by_ref_order, lemma_directed_order, lt_u16, lt_u64,
    lt_u8, precedes, verdict,
};
use crate::kbest::{
    best_so_far, best_with, lemma_best_insert, lemma_best_items, lemma_best_rank,
    lemma_best_skip, lemma_derefs_insert, lemma_search_done, lemma_search_step, rest_with,
    search_bounds,
};
use crate::rank::{
    above, ascending, below, derefs, flipped, is_first_least, is_kth, is_mid, item,
    lemma_first_least_start, lemma_first_least_step, lemma_rank_least, lemma_two_least_start,
    lemma_two_least_step, mid_rank, span, swapped, two_least, usize_of,
};
use crate::window::{
    kept, lemma_count_kept, lemma_filter_kept, lemma_permuted_all, lemma_pivot_step,
    lemma_select_all_equal, lemma_select_greatest, lemma_select_least, lemma_select_mid3,
    lemma_select_two_greatest, lemma_select_two_least, lemma_span_permuted, lemma_span_push,
    lemma_swap_span, lemma_swap_window, lemma_window_permuted, lemma_window_select,
    lemma_window_whole, window, window_at,
};

verus! {

/// The index, out of three, of the item with the middle value, found with
/// at most three comparisons.
pub fn midof3<T>(
    s: &[T],
    indx0: usize,
    indx1: usize,
    indx2: usize,
    c: &mut impl FnMut(&T, &T) -> Ordering,
) -> (m: usize)
    requires
        is_comparator::<T, _>(*old(c)),
        indx0 < s@.len(),
        indx1 < s@.len(),
        indx2 < s@.len(),
    ensures
        *final(c) == *old(c),
        m == indx0 || m == indx1 || m == indx2,
        forall|lt: spec_fn(T, T) -> bool| #[trigger]
            decides::<T, _>(*old(c), lt) ==> is_mid(
                lt,
                item(s@, indx0),
                item(s@, indx1),
                item(s@, indx2),
                item(s@, m),
            ),
{
    let first_less = precedes(c, &s[indx0], &s[indx1], false);
    let (min, max) = if first_less {
        (indx0, indx1)
    } else {
        (indx1, indx0)
    };
    let lastref = &s[indx2];
    let min_less = precedes(c, &s[min], lastref, false);
    if !min_less {
        proof {
            assert forall|lt: spec_fn(T, T) -> bool| #[trigger]
                decides::<T, _>(*c, lt) implies is_mid(
                lt,
                item(s@, indx0),
                item(s@, indx1),
                item(s@, indx2),
                item(s@, min),
            ) by {
                let a = item(s@, indx0);
                let b = item(s@, indx1);
                if lt(a, b) && lt(b, a) {
                    assert(lt(a, a));
                }
            }
        }
        return min;
    }
    let last_less = precedes(c, lastref, &s[max], false);
    proof {
        assert forall|lt: spec_fn(T, T) -> bool| #[trigger]
            decides::<T, _>(*c, lt) implies is_mid(
            lt,
            item(s@, indx0),
            item(s@, indx1),
            item(s@, indx2),
            item(s@, if !last_less { max } else { indx2 }),
        ) by {
            let a = item(s@, indx0);
            let b = item(s@, indx1);
            let d = item(s@, indx2);
            if lt(a, b) && lt(b, a) {
                assert(lt(a, a));
            }
            if lt(a, d) && lt(d, a) {
                assert(lt(a, a));
            }
            if lt(b, d) && lt(d, b) {
                assert(lt(b, b));
            }
        }
    }
    if !last_less {
        return max;
    }
    indx2
}

/// The index, out of three, of the reference to the middle value, found with
/// at most three comparisons.
pub fn midof3_refs<T>(
    s: &[&T],
    indx0: usize,
    indx1: usize,
    indx2: usize,
    c: &mut impl FnMut(&T, &T) -> Ordering,
) -> (m: usize)
    requires
        is_comparator::<T, _>(*old(c)),
        indx0 < s@.len(),
        indx1 < s@.len(),
        indx2 < s@.len(),
    ensures
        *final(c) == *old(c),
        m == indx0 || m == indx1 || m == indx2,
        forall|lt: spec_fn(T, T) -> bool| #[trigger]
            decides::<T, _>(*old(c), lt) ==> is_mid(
                by_ref(lt),
                item(s@, indx0),
                item(s@, indx1),
                item(s@, indx2),
                item(s@, m),
            ),
{
    let first_less = precedes(c, s[indx0], s[indx1], false);
    let (min, max) = if first_less {
        (indx0, indx1)
    } else {
        (indx1, indx0)
    };
    let lastref = s[indx2];
    let min_less = precedes(c, s[min], lastref, false);
    if !min_less {
        proof {
            assert forall|lt: spec_fn(T, T) -> bool| #[trigger]
                decides::<T, _>(*c, lt) implies is_mid(
                by_ref(lt),
                item(s@, indx0),
                item(s@, indx1),
                item(s@, indx2),
                item(s@, min),
            ) by {
                let a = *item(s@, indx0);
                let b = *item(s@, indx1);
                if lt(a, b) && lt(b, a) {
                    assert(lt(a, a));
                }
            }
        }
        return min;
    }
    let last_less = precedes(c, lastref, s[max], false);
    proof {
        assert forall|lt: spec_fn(T, T) -> bool| #[trigger]
            decides::<T, _>(*c, lt) implies is_mid(
            by_ref(lt),
            item(s@, indx0),
            item(s@, indx1),
            item(s@, indx2),
            item(s@, if !last_less { max } else { indx2 }),
        ) by {
            let a = *item(s@, indx0);
            let b = *item(s@, indx1);
            let d = *item(s@, indx2);
            if lt(a, b) && lt(b, a) {
                assert(lt(a, a));
            }
            if lt(a, d) && lt(d, a) {
                assert(lt(a, a));
            }
            if lt(b, d) && lt(d, b) {
                assert(lt(b, b));
            }
        }
    }
    if !last_less {
        return max;
    }
    indx2
}

/// The first of the least items of `s[lo..hi]`, or of its greatest where `rev` is set.
pub fn extreme_of<'a, T, F: FnMut(&T, &T) -> Ordering>(
    s: &'a [T],
    lo: usize,
    hi: usize,
    c: &mut F,
    rev: bool,
) -> (m: &'a T)
    requires
        is_comparator::<T, F>(*old(c)),
        lo < hi <= s@.len(),
    ensures
        *final(c) == *old(c),
        exists|i: int| extreme_at(*old(c), span(s@, lo, hi), rev, i, *m),
{
    let ghost w = span(s@, lo, hi);
    let mut m = &s[lo];
    let ghost mut mi: int = 0;
    let mut k: usize = lo + 1;
    proof {
        assert forall|lt: spec_fn(T, T) -> bool| #[trigger]
            decides::<T, F>(*c, lt) implies is_first_least(w.take(1), directed(lt, rev), 0) by {
            lemma_directed_order(lt, rev);
            lemma_first_least_start(w, directed(lt, rev));
        }
    }
    while k < hi
        invariant
            *c == *old(c),
            is_comparator::<T, F>(*c),
            lo < k <= hi <= s@.len(),
            w == span(s@, lo, hi),
            0 <= mi < k - lo,
            m == &w[mi],
            forall|lt: spec_fn(T, T) -> bool| #[trigger]
                decides::<T, F>(*c, lt) ==> is_first_least(w.take(k - lo), directed(lt, rev), mi),
        decreases hi - k,
    {
        let si = &s[k];
        let p = precedes(c, si, m, rev);
        proof {
            assert(si == &w[k - lo]);
            assert forall|lt: spec_fn(T, T) -> bool| #[trigger]
                decides::<T, F>(*c, lt) implies is_first_least(
                w.take(k + 1 - lo),
                directed(lt, rev),
                if p {
                    k - lo
                } else {
                    mi
                },
            ) by {
                lemma_directed_order(lt, rev);
                lemma_first_least_step(w, directed(lt, rev), k - lo, mi);
            }
        }
        if p {
            m = si;
            proof {
                mi = k - lo;
            }
        }
        k += 1;
    }
    proof {
        assert(w.take(hi - lo) =~= w);
        assert(extreme_at(*old(c), w, rev, mi, *m));
    }
    m
}

/// The two least items of `s[lo..hi]`, the least first, or its two
/// greatest, the greatest first, where `rev` is set.
pub fn best_two_of<'a, T, F: FnMut(&T, &T) -> Ordering>(
    s: &'a [T],
    lo: usize,
    hi: usize,
    c: &mut F,
    rev: bool,
) -> (m: (&'a T, &'a T))
    requires
        is_comparator::<T, F>(*old(c)),
        lo + 2 <= hi <= s@.len(),
    ensures
        *final(c) == *old(c),
        exists|i: int, j: int| best_two_at(*old(c), span(s@, lo, hi), rev, i, j, *m.0, *m.1),
{
    let ghost w = span(s@, lo, hi);
    let ghost mut i1: int = 0;
    let ghost mut i2: int = 1;
    let swapped_pair = precedes(c, &s[lo + 1], &s[lo], rev);
    let (mut m1, mut m2) = if swapped_pair {
        proof {
            i1 = 1;
            i2 = 0;
        }
        (&s[lo + 1], &s[lo])
    } else {
        (&s[lo], &s[lo + 1])
    };
    let mut k: usize = lo + 2;
    proof {
        assert(w[0] == item(s@, lo) && w[1] == s@[lo + 1]);
        assert forall|lt: spec_fn(T, T) -> bool| #[trigger]
            decides::<T, F>(*c, lt) implies two_least(w.take(2), directed(lt, rev), i1, i2) by {
            lemma_directed_order(lt, rev);
            lemma_two_least_start(w, directed(lt, rev));
        }
    }
    while k < hi
        invariant
            *c == *old(c),
            is_comparator::<T, F>(*c),
            lo + 2 <= k <= hi <= s@.len(),
            w == span(s@, lo, hi),
            0 <= i1 < k - lo,
            0 <= i2 < k - lo,
            m1 == &w[i1],
            m2 == &w[i2],
            forall|lt: spec_fn(T, T) -> bool| #[trigger]
                decides::<T, F>(*c, lt) ==> two_least(w.take(k - lo), directed(lt, rev), i1, i2),
        decreases hi - k,
    {
        let si = &s[k];
        let ghost j1 = i1;
        let ghost j2 = i2;
        proof {
            assert(si == &w[k - lo]);
        }
        if precedes(c, si, m2, rev) {
            if precedes(c, si, m1, rev) {
                m2 = m1;
                m1 = si;
                proof {
                    i2 = i1;
                    i1 = k - lo;
                }
            } else {
                m2 = si;
                proof {
                    i2 = k - lo;
                }
            }
        }
        proof {
            assert forall|lt: spec_fn(T, T) -> bool| #[trigger]
                decides::<T, F>(*c, lt) implies two_least(
                w.take(k + 1 - lo),
                directed(lt, rev),
                i1,
                i2,
            ) by {
                lemma_directed_order(lt, rev);
                lemma_two_least_step(w, directed(lt, rev), k - lo, j1, j2);
            }
        }
        k += 1;
    }
    proof {
        assert(w.take(hi - lo) =~= w);
    }
    let m = (m1, m2);
    proof {
        assert(best_two_at(*old(c), span(s@, lo, hi), rev, i1, i2, *m.0, *m.1));
    }
    m
}

/// The minimum within a range of a slice: a reference to the first of its
/// least items by `c`. With a comparator that swaps its arguments, the
/// maximum.
pub fn extremum<'a, T>(
    s: &'a [T],
    rng: Range<usize>,
    c: &mut impl FnMut(&T, &T) -> Ordering,
) -> (m: &'a T)
    requires
        is_comparator::<T, _>(*old(c)),
        rng.start < rng.end <= s@.len(),
    ensures
        *final(c) == *old(c),
        exists|i: int| extreme_at(*old(c), span(s@, rng.start, rng.end), false, i, *m),
{
    extreme_of(s, rng.start, rng.end, c, false)
}

/// The two least items within a range of a slice, by `c`, the least
/// first. With a comparator that swaps its arguments, the two greatest.
pub fn best_two<'a, T>(
    s: &'a [T],
    rng: Range<usize>,
    c: &mut impl FnMut(&T, &T) -> Ordering,
) -> (m: (&'a T, &'a T))
    requires
        is_comparator::<T, _>(*old(c)),
        rng.start + 2 <= rng.end <= s@.len(),
    ensures
        *final(c) == *old(c),
        exists|i: int, j: int|
            best_two_at(*old(c), span(s@, rng.start, rng.end), false, i, j, *m.0, *m.1),
{
    best_two_of(s, rng.start, rng.end, c, false)
}

/// The first of the least referenced items of `s[lo..hi]`, or of its greatest where `rev` is set.
pub fn extreme_refs_of<'a, T, F: FnMut(&T, &T) -> Ordering>(
    s: &[&'a T],
    lo: usize,
    hi: usize,
    c: &mut F,
    rev: bool,
) -> (m: &'a T)
    requires
        is_comparator::<T, F>(*old(c)),
        lo < hi <= s@.len(),
    ensures
        *final(c) == *old(c),
        exists|i: int| extreme_ref_at(*old(c), span(s@, lo, hi), rev, i, m),
{
    let ghost w = span(s@, lo, hi);
    let mut m = s[lo];
    let ghost mut mi: int = 0;
    let mut k: usize = lo + 1;
    proof {
        assert forall|lt: spec_fn(T, T) -> bool| #[trigger]
            decides::<T, F>(*c, lt) implies is_first_least(w.take(1), directed(by_ref(lt), rev), 0) by {
            lemma_by_ref_order(lt);
            lemma_directed_order(by_ref(lt), rev);
            lemma_first_least_start(w, directed(by_ref(lt), rev));
        }
    }
    while k < hi
        invariant
            *c == *old(c),
            is_comparator::<T, F>(*c),
            lo < k <= hi <= s@.len(),
            w == span(s@, lo, hi),
            0 <= mi < k - lo,
            m == w[mi],
            forall|lt: spec_fn(T, T) -> bool| #[trigger]
                decides::<T, F>(*c, lt) ==> is_first_least(
                    w.take(k - lo),
                    directed(by_ref(lt), rev),
                    mi,
                ),
        decreases hi - k,
    {
        let si = s[k];
        let p = precedes(c, si, m, rev);
        proof {
            assert(si == w[k - lo]);
            assert forall|lt: spec_fn(T, T) -> bool| #[trigger]
                decides::<T, F>(*c, lt) implies is_first_least(
                w.take(k + 1 - lo),
                directed(by_ref(lt), rev),
                if p {
                    k - lo
                } else {
                    mi
                },
            ) by {
                lemma_by_ref_order(lt);
            lemma_directed_order(by_ref(lt), rev);
                lemma_first_least_step(w, directed(by_ref(lt), rev), k - lo, mi);
            }
        }
        if p {
            m = si;
            proof {
                mi = k - lo;
            }
        }
        k += 1;
    }
    proof {
        assert(w.take(hi - lo) =~= w);
        assert(extreme_ref_at(*old(c), w, rev, mi, m));
    }
    m
}

/// The two least referenced items of `s[lo..hi]`, the least first, or its two
/// greatest, the greatest first, where `rev` is set.
pub fn best_two_refs_of<'a, T, F: FnMut(&T, &T) -> Ordering>(
    s: &[&'a T],
    lo: usize,
    hi: usize,
    c: &mut F,
    rev: bool,
) -> (m: (&'a T, &'a T))
    requires
        is_comparator::<T, F>(*old(c)),
        lo + 2 <= hi <= s@.len(),
    ensures
        *final(c) == *old(c),
        exists|i: int, j: int| best_two_ref_at(*old(c), span(s@, lo, hi), rev, i, j, m.0, m.1),
{
    let ghost w = span(s@, lo, hi);
    let ghost mut i1: int = 0;
    let ghost mut i2: int = 1;
    let swapped_pair = precedes(c, s[lo + 1], s[lo], rev);
    let (mut m1, mut m2) = if swapped_pair {
        proof {
            i1 = 1;
            i2 = 0;
        }
        (s[lo + 1], s[lo])
    } else {
        (s[lo], s[lo + 1])
    };
    let mut k: usize = lo + 2;
    proof {
        assert(w[0] == item(s@, lo) && w[1] == s@[lo + 1]);
        assert forall|lt: spec_fn(T, T) -> bool| #[trigger]
            decides::<T, F>(*c, lt) implies two_least(w.take(2), directed(by_ref(lt), rev), i1, i2) by {
            lemma_by_ref_order(lt);
            lemma_directed_order(by_ref(lt), rev);
            lemma_two_least_start(w, directed(by_ref(lt), rev));
        }
    }
    while k < hi
        invariant
            *c == *old(c),
            is_comparator::<T, F>(*c),
            lo + 2 <= k <= hi <= s@.len(),
            w == span(s@, lo, hi),
            0 <= i1 < k - lo,
            0 <= i2 < k - lo,
            m1 == w[i1],
            m2 == w[i2],
            forall|lt: spec_fn(T, T) -> bool| #[trigger]
                decides::<T, F>(*c, lt) ==> two_least(w.take(k - lo), directed(by_ref(lt), rev), i1, i2),
        decreases hi - k,
    {
        let si = s[k];
        let ghost j1 = i1;
        let ghost j2 = i2;
        proof {
            assert(si == w[k - lo]);
        }
        if precedes(c, si, m2, rev) {
            if precedes(c, si, m1, rev) {
                m2 = m1;
                m1 = si;
                proof {
                    i2 = i1;
                    i1 = k - lo;
                }
            } else {
                m2 = si;
                proof {
                    i2 = k - lo;
                }
            }
        }
        proof {
            assert forall|lt: spec_fn(T, T) -> bool| #[trigger]
                decides::<T, F>(*c, lt) implies two_least(
                w.take(k + 1 - lo),
                directed(by_ref(lt), rev),
                i1,
                i2,
            ) by {
                lemma_by_ref_order(lt);
            lemma_directed_order(by_ref(lt), rev);
                lemma_two_least_step(w, directed(by_ref(lt), rev), k - lo, j1, j2);
            }
        }
        k += 1;
    }
    proof {
        assert(w.take(hi - lo) =~= w);
    }
    let m = (m1, m2);
    proof {
        assert(best_two_ref_at(*old(c), span(s@, lo, hi), rev, i1, i2, m.0, m.1));
    }
    m
}

/// The minimum within a range of a slice of references: a reference to the first of its
/// least items by `c`. With a comparator that swaps its arguments, the
/// maximum.
pub fn extremum_refs<'a, T>(
    s: &[&'a T],
    rng: Range<usize>,
    c: &mut impl FnMut(&T, &T) -> Ordering,
) -> (m: &'a T)
    requires
        is_comparator::<T, _>(*old(c)),
        rng.start < rng.end <= s@.len(),
    ensures
        *final(c) == *old(c),
        exists|i: int| extreme_ref_at(*old(c), span(s@, rng.start, rng.end), false, i, m),
{
    extreme_refs_of(s, rng.start, rng.end, c, false)
}

/// The two least items within a range of a slice of references, by `c`, the least
/// first. With a comparator that swaps its arguments, the two greatest.
pub fn best_two_refs<'a, T>(
    s: &[&'a T],
    rng: Range<usize>,
    c: &mut impl FnMut(&T, &T) -> Ordering,
) -> (m: (&'a T, &'a T))
    requires
        is_comparator::<T, _>(*old(c)),
        rng.start + 2 <= rng.end <= s@.len(),
    ensures
        *final(c) == *old(c),
        exists|i: int, j: int|
            best_two_ref_at(*old(c), span(s@, rng.start, rng.end), false, i, j, m.0, m.1),
{
    best_two_refs_of(s, rng.start, rng.end, c, false)
}

/// The first of the least integers of `s[lo..hi]`.
pub fn minu64(s: &[u64], lo: usize, hi: usize) -> (m: &u64)
    requires
        lo < hi <= s@.len(),
    ensures
        exists|i: int| is_first_least(span(s@, lo, hi), lt_u64(), i) && *m == span(s@, lo, hi)[i],
{
    let mut c = |a: &u64, b: &u64| -> (o: Ordering)
        ensures
            o == verdict(lt_u64(), *a, *b),
        { by_size(a, b) };
    proof {
        assert(decides::<u64, _>(c, lt_u64()));
    }
    let m = extreme_of(s, lo, hi, &mut c, false);
    proof {
        let i = choose|i: int| extreme_at(c, span(s@, lo, hi), false, i, *m);
        assert(is_first_least(span(s@, lo, hi), lt_u64(), i));
    }
    m
}

/// The first of the greatest integers of `s[lo..hi]`.
pub fn maxu64(s: &[u64], lo: usize, hi: usize) -> (m: &u64)
    requires
        lo < hi <= s@.len(),
    ensures
        exists|i: int|
            is_first_least(span(s@, lo, hi), flipped(lt_u64()), i) && *m == span(s@, lo, hi)[i],
{
    let mut c = |a: &u64, b: &u64| -> (o: Ordering)
        ensures
            o == verdict(lt_u64(), *a, *b),
        { by_size(a, b) };
    proof {
        assert(decides::<u64, _>(c, lt_u64()));
    }
    let m = extreme_of(s, lo, hi, &mut c, true);
    proof {
        let i = choose|i: int| extreme_at(c, span(s@, lo, hi), true, i, *m);
        assert(is_first_least(span(s@, lo, hi), flipped(lt_u64()), i));
    }
    m
}

/// The two least integers of `s[lo..hi]`, the least first.
pub fn min2u64(s: &[u64], lo: usize, hi: usize) -> (m: (&u64, &u64))
    requires
        lo + 2 <= hi <= s@.len(),
    ensures
        exists|i: int, j: int|
            two_least(span(s@, lo, hi), lt_u64(), i, j) && *m.0 == span(s@, lo, hi)[i] && *m.1
                == span(s@, lo, hi)[j],
{
    let mut c = |a: &u64, b: &u64| -> (o: Ordering)
        ensures
            o == verdict(lt_u64(), *a, *b),
        { by_size(a, b) };
    proof {
        assert(decides::<u64, _>(c, lt_u64()));
    }
    let m = best_two_of(s, lo, hi, &mut c, false);
    proof {
        let (i, j) = choose|i: int, j: int| best_two_at(c, span(s@, lo, hi), false, i, j, *m.0, *m.1);
        assert(two_least(span(s@, lo, hi), lt_u64(), i, j));
    }
    m
}

/// The two greatest integers of `s[lo..hi]`, the greatest first.
pub fn max2u64(s: &[u64], lo: usize, hi: usize) -> (m: (&u64, &u64))
    requires
        lo + 2 <= hi <= s@.len(),
    ensures
        exists|i: int, j: int|
            two_least(span(s@, lo, hi), flipped(lt_u64()), i, j) && *m.0 == span(s@, lo, hi)[i]
                && *m.1 == span(s@, lo, hi)[j],
{
    let mut c = |a: &u64, b: &u64| -> (o: Ordering)
        ensures
            o == verdict(lt_u64(), *a, *b),
        { by_size(a, b) };
    proof {
        assert(decides::<u64, _>(c, lt_u64()));
    }
    let m = best_two_of(s, lo, hi, &mut c, true);
    proof {
        let (i, j) = choose|i: int, j: int| best_two_at(c, span(s@, lo, hi), true, i, j, *m.0, *m.1);
        assert(two_least(span(s@, lo, hi), flipped(lt_u64()), i, j));
    }
    m
}

/// Calls `Vecops::ref_vec` of the `indxvec` crate, which collects
/// references to the items of `s[rng]`, in their order.
///
/// Not proved; taken from that function's source, which walks the slice,
/// stops before `rng.end` and skips the first `rng.start` items.
#[verifier::external_body]
pub(crate) fn ref_vec<'a, T>(s: &'a [T], rng: Range<usize>) -> (r: Vec<&'a T>)
    requires
        rng.start <= rng.end <= s@.len(),
    ensures
        r@.len() == rng.end - rng.start,
        forall|i: int| 0 <= i < r@.len() ==> *r@[i] == s@[rng.start + i],
{
    s.ref_vec(rng)
}

/// Calls `Mutops::part` of the `indxvec` crate, which partitions the
/// references in `s[rng]` by the pivot it finds at `s[rng.start]`.
///
/// Not proved; taken from that function's source. It returns `(eq, gt)`
/// with `rng.start <= eq < gt <= rng.end`. After the call `rng.start..eq`
/// holds the references of the range to items below the pivot, each as
/// often as before, and `gt..rng.end` those to items above it. What
/// `eq..gt` holds is not stated: only its length counts, the number of
/// items that tie with the pivot. Outside the range nothing changes.
/// "Below" and "above" are meant by any order that `c` decides.
#[verifier::external_body]
pub(crate) fn part_refs<'a, T, F: FnMut(&T, &T) -> Ordering>(
    s: &mut [&'a T],
    rng: &Range<usize>,
    c: &mut F,
) -> (b: (usize, usize))
    requires
        is_comparator::<T, F>(*old(c)),
        rng.start < rng.end <= old(s)@.len(),
    ensures
        *final(c) == *old(c),
        final(s)@.len() == old(s)@.len(),
        rng.start <= b.0 < b.1 <= rng.end,
        forall|i: int|
            0 <= i < rng.start || rng.end <= i < old(s)@.len() ==> final(s)@[i] == old(s)@[i],
        (forall|lt: spec_fn(T, T) -> bool| #[trigger]
            decides(*old(c), lt) ==> kept(
                span(old(s)@, rng.start, rng.end),
                span(final(s)@, rng.start, b.0),
                below(by_ref(lt), item(old(s)@, rng.start)),
            ) && kept(
                span(old(s)@, rng.start, rng.end),
                span(final(s)@, b.1, rng.end),
                above(by_ref(lt), item(old(s)@, rng.start)),
            )),
{
    <&mut [T]>::part(s, rng, c)
}

/// What one partition of the range `lo..hi` by `pivot` has settled, by the
/// order `lt`: the spans below and above the pivot are windows, and the
/// pivot holds every rank from `eq` up to, but not including, `gt`.
pub open spec fn settled<T>(
    orig: Seq<T>,
    s: Seq<T>,
    lo: usize,
    eq: usize,
    gt: usize,
    hi: usize,
    lt: spec_fn(T, T) -> bool,
    pivot: T,
) -> bool {
    &&& window_at(orig, s, lo, eq, lt)
    &&& window_at(orig, s, gt, hi, lt)
    &&& forall|k: int| eq <= k < gt ==> is_kth(orig, lt, k, pivot)
}

/// What `pivot_of` returns for the range `lo..hi` and the wanted rank
/// `need`, by the order `lt`: in a range of at most 100 items the index of
/// the middle one of the items at `lo`, `need` and `hi - 1`; in a longer
/// range the index of the middle one of three such middles, of those three
/// places and of the two places next to each, inwards.
pub open spec fn is_pivot_of<T>(
    s: Seq<T>,
    lo: usize,
    hi: usize,
    need: usize,
    lt: spec_fn(T, T) -> bool,
    p: usize,
) -> bool {
    if hi - lo <= 100 {
        is_mid(lt, s[lo as int], s[need as int], s[hi - 1], s[p as int])
    } else {
        exists|a: int, b: int, d: int|
            {
                &&& lo <= a < hi && lo <= b < hi && lo <= d < hi
                &&& is_mid(lt, s[lo as int], s[need as int], s[hi - 1], #[trigger] s[a])
                &&& is_mid(lt, s[lo + 1], s[need + 1], s[hi - 2], #[trigger] s[b])
                &&& is_mid(lt, s[lo + 2], s[need + 2], s[hi - 3], #[trigger] s[d])
                &&& is_mid(lt, s[a], s[b], s[d], s[p as int])
            }
    }
}

/// The pivot for the range `rng` of `s`: the index of the middle one of
/// three samples, or, in a range of more than 100 items, of the middle one
/// of three such middles. The samples are the ends of the range and the
/// wanted rank `need`, and their neighbours.
pub fn pivot_of<T>(
    s: &[&T],
    rng: &Range<usize>,
    need: usize,
    c: &mut impl FnMut(&T, &T) -> Ordering,
) -> (p: usize)
    requires
        is_comparator::<T, _>(*old(c)),
        rng.start <= need < rng.end <= s@.len(),
        rng.end - rng.start > 100 ==> need + 2 < rng.end,
    ensures
        *final(c) == *old(c),
        rng.start <= p < rng.end,
        forall|lt: spec_fn(T, T) -> bool| #[trigger]
            decides::<T, _>(*old(c), lt) ==> is_pivot_of(
                s@,
                rng.start,
                rng.end,
                need,
                by_ref(lt),
                p,
            ),
{
    let pivotsub = midof3_refs(s, rng.start, need, rng.end - 1, c);
    if rng.end - rng.start > 100 {
        let pivotsub2 = midof3_refs(s, rng.start + 1, need + 1, rng.end - 2, c);
        let pivotsub3 = midof3_refs(s, rng.start + 2, need + 2, rng.end - 3, c);
        let p = midof3_refs(s, pivotsub, pivotsub2, pivotsub3, c);
        proof {
            assert forall|lt: spec_fn(T, T) -> bool| #[trigger]
                decides::<T, _>(*c, lt) implies is_pivot_of(
                s@,
                rng.start,
                rng.end,
                need,
                by_ref(lt),
                p,
            ) by {
                let r = by_ref(lt);
                assert(is_mid(
                    r,
                    item(s@, rng.start),
                    item(s@, need),
                    s@[rng.end - 1],
                    item(s@, pivotsub),
                ));
                assert(is_mid(
                    r,
                    s@[rng.start + 1],
                    s@[need + 1],
                    s@[rng.end - 2],
                    item(s@, pivotsub2),
                ));
                assert(is_mid(
                    r,
                    s@[rng.start + 2],
                    s@[need + 2],
                    s@[rng.end - 3],
                    item(s@, pivotsub3),
                ));
                assert(is_mid(
                    r,
                    item(s@, pivotsub),
                    item(s@, pivotsub2),
                    item(s@, pivotsub3),
                    item(s@, p),
                ));
            }
        }
        p
    } else {
        pivotsub
    }
}

/// An estimate of the median of the range `rng` of references, as a pivot:
/// the first reference where the range has fewer than three; else the
/// middle one of the first, the middle and the last; and in a range of more
/// than 100 the middle one of three such middles, taken at those places and
/// at the two places next to each, inwards.
pub fn midofmids<'a, T>(
    s: &[&'a T],
    rng: Range<usize>,
    c: &mut impl FnMut(&T, &T) -> Ordering,
) -> (m: &'a T)
    requires
        is_comparator::<T, _>(*old(c)),
        rng.start < rng.end <= s@.len(),
    ensures
        *final(c) == *old(c),
        rng.end - rng.start < 3 ==> m == item(s@, rng.start),
        rng.end - rng.start >= 3 ==> exists|p: usize|
            {
                &&& rng.start <= p < rng.end
                &&& m == #[trigger] item(s@, p)
                &&& forall|lt: spec_fn(T, T) -> bool| #[trigger]
                    decides::<T, _>(*old(c), lt) ==> is_pivot_of(
                        s@,
                        rng.start,
                        rng.end,
                        mid_of(rng.start, rng.end),
                        by_ref(lt),
                        p,
                    )
            },
{
    if rng.end - rng.start < 3 {
        return s[rng.start];
    }
    let mid = rng.start + (rng.end - rng.start) / 2;
    let p = pivot_of(s, &rng, mid, c);
    let m = s[p];
    proof {
        assert(mid == mid_of(rng.start, rng.end));
        assert(m == item(s@, p));
    }
    m
}

/// The middle place of the range `lo..hi`.
pub open spec fn mid_of(lo: usize, hi: usize) -> usize {
    usize_of(lo + (hi - lo) / 2)
}

/// Brings the pivot to the front of the range and partitions the range by it.
/// Returns the pivot and the two boundaries.
fn pivot_and_part<'a, T>(
    s: &mut [&'a T],
    rng: &Range<usize>,
    pivotsub: usize,
    c: &mut impl FnMut(&T, &T) -> Ordering,
    Ghost(orig): Ghost<Seq<&'a T>>,
) -> (r: (&'a T, usize, usize))
    requires
        is_comparator::<T, _>(*old(c)),
        rng.start <= pivotsub < rng.end <= old(s)@.len(),
        forall|lt: spec_fn(T, T) -> bool| #[trigger]
            decides::<T, _>(*old(c), lt) ==> window_at(
                orig,
                old(s)@,
                rng.start,
                rng.end,
                by_ref(lt),
            ),
    ensures
        *final(c) == *old(c),
        final(s)@.len() == old(s)@.len(),
        rng.start <= r.1 < r.2 <= rng.end,
        forall|lt: spec_fn(T, T) -> bool| #[trigger]
            decides::<T, _>(*old(c), lt) ==> settled(
                orig,
                final(s)@,
                rng.start,
                r.1,
                r.2,
                rng.end,
                by_ref(lt),
                r.0,
            ),
{
    if pivotsub != rng.start {
        let ghost pre = s@;
        let a = s[rng.start];
        let b = s[pivotsub];
        s[rng.start] = b;
        s[pivotsub] = a;
        proof {
            assert(s@ =~= swapped(pre, rng.start, pivotsub));
            assert forall|lt: spec_fn(T, T) -> bool| #[trigger]
                decides::<T, _>(*c, lt) implies window_at(
                orig,
                s@,
                rng.start,
                rng.end,
                by_ref(lt),
            ) by {
                lemma_swap_window(
                    orig,
                    pre,
                    rng.start,
                    pivotsub,
                    rng.start,
                    rng.end,
                    by_ref(lt),
                );
            }
        }
    }
    let pivotref = s[rng.start];
    let ghost before = s@;
    let (eqsub, gtsub) = part_refs(s, rng, c);
    proof {
        assert forall|lt: spec_fn(T, T) -> bool| #[trigger]
            decides::<T, _>(*c, lt) implies settled(
            orig,
            s@,
            rng.start,
            eqsub,
            gtsub,
            rng.end,
            by_ref(lt),
            pivotref,
        ) by {
            lemma_by_ref_order(lt);
            assert(span(before, rng.start, rng.end)[0] == pivotref);
            lemma_pivot_step(
                orig,
                before,
                s@,
                rng.start,
                rng.end,
                eqsub,
                gtsub,
                by_ref(lt),
                pivotref,
            );
        }
    }
    (pivotref, eqsub, gtsub)
}

/// The median of the items that `s` refers to, by the comparator `c`, for
/// `s` of odd length: a reference to an item that holds the middle rank.
/// The references in `s` are moved about and overwritten.
pub fn oddmedian_by<'a, T>(s: &mut [&'a T], c: &mut impl FnMut(&T, &T) -> Ordering) -> (m: &'a T)
    requires
        is_comparator::<T, _>(*old(c)),
        old(s)@.len() > 0,
    ensures
        *final(c) == *old(c),
        final(s)@.len() == old(s)@.len(),
        forall|lt: spec_fn(T, T) -> bool| #[trigger]
            decides::<T, _>(*old(c), lt) ==> is_kth(old(s)@, by_ref(lt), mid_rank(old(s)@), m),
{
    let n = s.len();
    let mut rng = 0..n;
    let need = n / 2;
    let ghost orig = s@;
    proof {
        assert forall|lt: spec_fn(T, T) -> bool| #[trigger]
            decides::<T, _>(*c, lt) implies window_at(orig, s@, 0, n, by_ref(lt)) by {
            lemma_window_whole(orig, span(s@, 0, n), by_ref(lt));
        }
    }
    loop
        invariant
            *c == *old(c),
            is_comparator::<T, _>(*c),
            n == s@.len(),
            orig == old(s)@,
            n == orig.len(),
            need == n / 2,
            rng.start <= need < rng.end <= n,
            rng.start == 0 || rng.start + 2 <= need,
            rng.end == n || need + 3 <= rng.end,
            forall|lt: spec_fn(T, T) -> bool| #[trigger]
                decides::<T, _>(*c, lt) ==> window_at(orig, s@, rng.start, rng.end, by_ref(lt)),
        decreases rng.end - rng.start,
    {
        let pivotsub = pivot_of(s, &rng, need, c);
        if rng.end - rng.start == 3 {
            proof {
                assert(need == rng.start + 1);
                assert forall|lt: spec_fn(T, T) -> bool| #[trigger]
                    decides::<T, _>(*c, lt) implies is_kth(
                    orig,
                    by_ref(lt),
                    mid_rank(orig),
                    item(s@, pivotsub),
                ) by {
                    lemma_by_ref_order(lt);
                    lemma_select_mid3(
                        orig,
                        s@,
                        rng.start,
                        rng.end,
                        by_ref(lt),
                        item(s@, pivotsub),
                    );
                }
            }
            return s[pivotsub];
        }
        let (pivotref, eqsub, gtsub) = pivot_and_part(s, &rng, pivotsub, c, Ghost(orig));
        // well inside the part below the pivot: search it
        if need + 2 < eqsub {
            rng.end = eqsub;
            continue;
        }
        // last but one below the pivot: the second greatest there
        if need + 2 == eqsub {
            let pair = best_two_refs_of(s, rng.start, eqsub, c, true);
            proof {
                let (i, j) = choose|i: int, j: int|
                    best_two_ref_at(*c, span(s@, rng.start, eqsub), true, i, j, pair.0, pair.1);
                assert forall|lt: spec_fn(T, T) -> bool| #[trigger]
                    decides::<T, _>(*c, lt) implies is_kth(
                    orig,
                    by_ref(lt),
                    mid_rank(orig),
                    pair.1,
                ) by {
                    lemma_by_ref_order(lt);
                    lemma_select_two_greatest(orig, s@, rng.start, eqsub, by_ref(lt), i, j);
                }
            }
            return pair.1;
        }
        // last below the pivot: the greatest there
        if need + 1 == eqsub {
            let m = extreme_refs_of(s, rng.start, eqsub, c, true);
            proof {
                let i = choose|i: int| extreme_ref_at(*c, span(s@, rng.start, eqsub), true, i, m);
                assert forall|lt: spec_fn(T, T) -> bool| #[trigger]
                    decides::<T, _>(*c, lt) implies is_kth(orig, by_ref(lt), mid_rank(orig), m) by {
                    lemma_by_ref_order(lt);
                    lemma_select_greatest(orig, s@, rng.start, eqsub, by_ref(lt), i);
                }
            }
            return m;
        }
        // among the items that tie with the pivot
        if need < gtsub {
            return pivotref;
        }
        // first above the pivot: the least there
        if need == gtsub {
            let m = extreme_refs_of(s, gtsub, rng.end, c, false);
            proof {
                let i = choose|i: int| extreme_ref_at(*c, span(s@, gtsub, rng.end), false, i, m);
                assert forall|lt: spec_fn(T, T) -> bool| #[trigger]
                    decides::<T, _>(*c, lt) implies is_kth(orig, by_ref(lt), mid_rank(orig), m) by {
                    lemma_select_least(orig, s@, gtsub, rng.end, by_ref(lt), i);
                }
            }
            return m;
        }
        // second above the pivot: the second least there
        if need == gtsub + 1 {
            let pair = best_two_refs_of(s, gtsub, rng.end, c, false);
            proof {
                let (i, j) = choose|i: int, j: int|
                    best_two_ref_at(*c, span(s@, gtsub, rng.end), false, i, j, pair.0, pair.1);
                assert forall|lt: spec_fn(T, T) -> bool| #[trigger]
                    decides::<T, _>(*c, lt) implies is_kth(
                    orig,
                    by_ref(lt),
                    mid_rank(orig),
                    pair.1,
                ) by {
                    lemma_by_ref_order(lt);
                    lemma_select_two_least(orig, s@, gtsub, rng.end, by_ref(lt), i, j);
                }
            }
            return pair.1;
        }
        // well inside the part above the pivot: search it
        rng.start = gtsub;
    }
}

/// The two central items of those that `s` refers to, by the comparator
/// `c`, for `s` of even length: references to items that hold the two
/// middle ranks, in ascending order. The references in `s` are moved about
/// and overwritten.
pub fn evenmedian_by<'a, T>(s: &mut [&'a T], c: &mut impl FnMut(&T, &T) -> Ordering) -> (m: (
    &'a T,
    &'a T,
))
    requires
        is_comparator::<T, _>(*old(c)),
        old(s)@.len() >= 2,
    ensures
        *final(c) == *old(c),
        final(s)@.len() == old(s)@.len(),
        forall|lt: spec_fn(T, T) -> bool| #[trigger]
            decides::<T, _>(*old(c), lt) ==> is_kth(
                old(s)@,
                by_ref(lt),
                mid_rank(old(s)@) - 1,
                m.0,
            ) && is_kth(old(s)@, by_ref(lt), mid_rank(old(s)@), m.1),
{
    let n = s.len();
    let mut rng = 0..n;
    let need = n / 2 - 1;
    let ghost orig = s@;
    proof {
        assert forall|lt: spec_fn(T, T) -> bool| #[trigger]
            decides::<T, _>(*c, lt) implies window_at(orig, s@, 0, n, by_ref(lt)) by {
            lemma_window_whole(orig, span(s@, 0, n), by_ref(lt));
        }
    }
    loop
        invariant
            *c == *old(c),
            is_comparator::<T, _>(*c),
            n == s@.len(),
            orig == old(s)@,
            n == orig.len(),
            need == n / 2 - 1,
            rng.start <= need,
            need + 1 < rng.end <= n,
            rng.end == n || need + 3 <= rng.end,
            forall|lt: spec_fn(T, T) -> bool| #[trigger]
                decides::<T, _>(*c, lt) ==> window_at(orig, s@, rng.start, rng.end, by_ref(lt)),
        decreases rng.end - rng.start,
    {
        let pivotsub = pivot_of(s, &rng, need, c);
        let (pivotref, eqsub, gtsub) = pivot_and_part(s, &rng, pivotsub, c, Ghost(orig));
        // well inside the part below the pivot: search it
        if need + 2 < eqsub {
            rng.end = eqsub;
            continue;
        }
        // last but one below the pivot: the two greatest there
        if need + 2 == eqsub {
            let pair = best_two_refs_of(s, rng.start, eqsub, c, true);
            proof {
                let (i, j) = choose|i: int, j: int|
                    best_two_ref_at(*c, span(s@, rng.start, eqsub), true, i, j, pair.0, pair.1);
                assert forall|lt: spec_fn(T, T) -> bool| #[trigger]
                    decides::<T, _>(*c, lt) implies is_kth(
                    orig,
                    by_ref(lt),
                    mid_rank(orig) - 1,
                    pair.1,
                ) && is_kth(orig, by_ref(lt), mid_rank(orig), pair.0) by {
                    lemma_by_ref_order(lt);
                    lemma_select_two_greatest(orig, s@, rng.start, eqsub, by_ref(lt), i, j);
                }
            }
            return (pair.1, pair.0);
        }
        // last below the pivot: the greatest there, and the pivot
        if need + 1 == eqsub {
            let m = extreme_refs_of(s, rng.start, eqsub, c, true);
            proof {
                let i = choose|i: int| extreme_ref_at(*c, span(s@, rng.start, eqsub), true, i, m);
                assert forall|lt: spec_fn(T, T) -> bool| #[trigger]
                    decides::<T, _>(*c, lt) implies is_kth(
                    orig,
                    by_ref(lt),
                    mid_rank(orig) - 1,
                    m,
                ) && is_kth(orig, by_ref(lt), mid_rank(orig), pivotref) by {
                    lemma_by_ref_order(lt);
                    lemma_select_greatest(orig, s@, rng.start, eqsub, by_ref(lt), i);
                }
            }
            return (m, pivotref);
        }
        // both among the items that tie with the pivot
        if need + 1 < gtsub {
            return (pivotref, pivotref);
        }
        // last of those that tie with the pivot: the pivot, and the least above it
        if need + 1 == gtsub {
            let m = extreme_refs_of(s, gtsub, rng.end, c, false);
            proof {
                let i = choose|i: int| extreme_ref_at(*c, span(s@, gtsub, rng.end), false, i, m);
                assert forall|lt: spec_fn(T, T) -> bool| #[trigger]
                    decides::<T, _>(*c, lt) implies is_kth(
                    orig,
                    by_ref(lt),
                    mid_rank(orig) - 1,
                    pivotref,
                ) && is_kth(orig, by_ref(lt), mid_rank(orig), m) by {
                    lemma_select_least(orig, s@, gtsub, rng.end, by_ref(lt), i);
                }
            }
            return (pivotref, m);
        }
        // first above the pivot: the two least there
        if need == gtsub {
            let pair = best_two_refs_of(s, gtsub, rng.end, c, false);
            proof {
                let (i, j) = choose|i: int, j: int|
                    best_two_ref_at(*c, span(s@, gtsub, rng.end), false, i, j, pair.0, pair.1);
                assert forall|lt: spec_fn(T, T) -> bool| #[trigger]
                    decides::<T, _>(*c, lt) implies is_kth(
                    orig,
                    by_ref(lt),
                    mid_rank(orig) - 1,
                    pair.0,
                ) && is_kth(orig, by_ref(lt), mid_rank(orig), pair.1) by {
                    lemma_by_ref_order(lt);
                    lemma_select_two_least(orig, s@, gtsub, rng.end, by_ref(lt), i, j);
                }
            }
            return pair;
        }
        // inside the part above the pivot: search it
        rng.start = gtsub;
    }
}

/// The item of rank `k - 1` within the range `rng` of `s`, by the
/// comparator `c`: the last of its `k` best items, which are kept in
/// ascending order while the range is walked, each item that belongs to
/// them being put into its place by a binary search.
pub fn best_k<'a, T, F>(s: &'a [T], k: usize, rng: Range<usize>, c: F) -> (m: &'a T) where
    F: Fn(&T, &T) -> Ordering,

    requires
        is_comparator::<T, F>(c),
        rng.start <= rng.end <= s@.len(),
        0 < k <= rng.end - rng.start,
    ensures
        forall|lt: spec_fn(T, T) -> bool| #[trigger]
            decides::<T, F>(c, lt) ==> is_kth(span(s@, rng.start, rng.end), lt, k - 1, *m),
{
    let mut c = c;
    let ghost c0 = c;
    let mut k_sorted: Vec<&T> = Vec::new();
    let ghost mut rest: Seq<T> = Seq::empty();
    let mut i: usize = rng.start;
    proof {
        assert(derefs(k_sorted@) + rest =~= span(s@, rng.start, rng.start));
    }
    while i < rng.end
        invariant
            c == c0,
            is_comparator::<T, F>(c),
            rng.start <= i <= rng.end <= s@.len(),
            0 < k <= rng.end - rng.start,
            k_sorted@.len() <= k,
            k_sorted@.len() <= i - rng.start,
            k_sorted@.len() < k ==> k_sorted@.len() == i - rng.start,
            (derefs(k_sorted@) + rest).to_multiset() == span(s@, rng.start, i).to_multiset(),
            forall|lt: spec_fn(T, T) -> bool| #[trigger]
                decides::<T, F>(c, lt) ==> best_so_far(derefs(k_sorted@), rest, lt, k),
        decreases rng.end - i,
    {
        let si = &s[i];
        let n = k_sorted.len();
        let ghost best = derefs(k_sorted@);
        proof {
            lemma_span_push(s@, rng.start, i);
            assert(best.len() == n);
            if n > 0 {
                assert(best.last() == *item(k_sorted@, usize_of(n - 1)));
            }
        }
        if n < k || precedes(&mut c, si, k_sorted[k - 1], false) {
            let mut lo: usize = 0;
            let mut hi: usize = n;
            while lo < hi
                invariant
                    c == c0,
                    is_comparator::<T, F>(c),
                    best == derefs(k_sorted@),
                    n == best.len(),
                    forall|lt: spec_fn(T, T) -> bool| #[trigger]
                        decides::<T, F>(c, lt) ==> ascending(best, lt) && search_bounds(
                            best,
                            lt,
                            *si,
                            lo,
                            hi,
                        ),
                decreases hi - lo,
            {
                let ghost lt0 = choose|lt: spec_fn(T, T) -> bool| decides::<T, F>(c, lt);
                proof {
                    assert(search_bounds(best, lt0, *si, lo, hi));
                }
                let mid = lo + (hi - lo) / 2;
                let p = precedes(&mut c, si, k_sorted[mid], false);
                proof {
                    assert(*item(k_sorted@, mid) == item(best, mid));
                    assert forall|lt: spec_fn(T, T) -> bool| #[trigger]
                        decides::<T, F>(c, lt) implies search_bounds(
                        best,
                        lt,
                        *si,
                        if p {
                            lo
                        } else {
                            usize_of(mid + 1)
                        },
                        if p {
                            mid
                        } else {
                            hi
                        },
                    ) by {
                        lemma_search_step(best, lt, *si, lo, hi, mid);
                    }
                }
                if p {
                    hi = mid;
                } else {
                    lo = mid + 1;
                }
            }
            proof {
                let lt0 = choose|lt: spec_fn(T, T) -> bool| decides::<T, F>(c, lt);
                lemma_search_done(best, lt0, *si, lo);
                lemma_derefs_insert(k_sorted@, lo, si);
                lemma_best_items(best, rest, k, *si, lo);
                assert forall|lt: spec_fn(T, T) -> bool| #[trigger]
                    decides::<T, F>(c, lt) implies best_so_far(
                    best_with(best, lo, *si, k),
                    rest_with(best, rest, lo, *si, k),
                    lt,
                    k,
                ) by {
                    lemma_search_done(best, lt, *si, lo);
                    lemma_best_insert(best, rest, lt, k, *si, lo);
                }
                rest = rest_with(best, rest, lo, *si, k);
            }
            k_sorted.insert(lo, si);
            if k_sorted.len() > k {
                k_sorted.pop();
            }
            proof {
                assert(derefs(k_sorted@) == best_with(best, lo, *si, k));
            }
        } else {
            proof {
                broadcast use vstd::multiset::group_multiset_axioms;
                assert forall|lt: spec_fn(T, T) -> bool| #[trigger]
                    decides::<T, F>(c, lt) implies best_so_far(best, rest.push(*si), lt, k) by {
                    lemma_best_skip(best, rest, lt, k, *si);
                }
                assert(best + rest.push(*si) =~= (best + rest).push(*si));
                vstd::seq_lib::to_multiset_build(best + rest, *si);
                rest = rest.push(*si);
            }
        }
        i += 1;
    }
    let m = k_sorted[k - 1];
    proof {
        let best = derefs(k_sorted@);
        assert(best.last() == *m);
        assert forall|lt: spec_fn(T, T) -> bool| #[trigger]
            decides::<T, F>(c, lt) implies is_kth(span(s@, rng.start, rng.end), lt, k - 1, *m) by {
            lemma_best_rank(span(s@, rng.start, rng.end), best, rest, lt, k);
        }
    }
    m
}

/// The mask of the highest bit of a `u64`.
pub const FIRST_BIT: u64 = 0x80_00_00_00_00_00_00_00;

/// Partitions `s` within range `rng` by the bits of `bitmask`. Returns the
/// boundary `gtstart`: after the call `rng.start..gtstart` (may be empty)
/// holds the items of the range with none of those bits set, and
/// `gtstart..rng.end` (may be empty) those with some of them set.
pub fn part_binary(s: &mut [u64], rng: &Range<usize>, bitmask: u64) -> (gtstart: usize)
    requires
        rng.start <= rng.end <= old(s)@.len(),
    ensures
        rng.start <= gtstart <= rng.end,
        final(s)@.len() == old(s)@.len(),
        forall|i: int|
            0 <= i < rng.start || rng.end <= i < old(s)@.len() ==> final(s)@[i] == old(s)@[i],
        span(final(s)@, rng.start, rng.end).to_multiset() == span(
            old(s)@,
            rng.start,
            rng.end,
        ).to_multiset(),
        forall|i: int| rng.start <= i < gtstart ==> (#[trigger] final(s)@[i]) & bitmask == 0,
        forall|i: int| gtstart <= i < rng.end ==> (#[trigger] final(s)@[i]) & bitmask != 0,
{
    let mut gtstart = rng.start;
    while gtstart < rng.end && (s[gtstart] & bitmask) == 0
        invariant
            rng.start <= gtstart <= rng.end <= s@.len(),
            s@ == old(s)@,
            forall|i: int| rng.start <= i < gtstart ==> (#[trigger] s@[i]) & bitmask == 0,
        decreases rng.end - gtstart,
    {
        gtstart += 1;
    }
    if gtstart == rng.end {
        return gtstart;
    }
    let mut i: usize = gtstart + 1;
    while i < rng.end
        invariant
            rng.start <= gtstart < i <= rng.end <= s@.len(),
            s@.len() == old(s)@.len(),
            forall|t: int| 0 <= t < rng.start || rng.end <= t < s@.len() ==> s@[t] == old(s)@[t],
            span(s@, rng.start, rng.end).to_multiset() == span(
                old(s)@,
                rng.start,
                rng.end,
            ).to_multiset(),
            forall|t: int| rng.start <= t < gtstart ==> (#[trigger] s@[t]) & bitmask == 0,
            forall|t: int| gtstart <= t < i ==> (#[trigger] s@[t]) & bitmask != 0,
        decreases rng.end - i,
    {
        if (s[i] & bitmask) == 0 {
            let ghost before = s@;
            let a = s[gtstart];
            let b = s[i];
            s[gtstart] = b;
            s[i] = a;
            proof {
                lemma_swap_span(
                    before,
                    gtstart as int,
                    i as int,
                    rng.start as int,
                    rng.end as int,
                );
                assert(s@ =~= before.update(gtstart as int, before[i as int]).update(
                    i as int,
                    before[gtstart as int],
                ));
            }
            gtstart += 1;
        }
        i += 1;
    }
    gtstart
}

/// The items of `s[lo..hi]` agree in every bit above the one set in `bit`.
pub open spec fn agree_above(s: Seq<u64>, lo: usize, hi: usize, bit: u64) -> bool {
    forall|i: int, j: int|
        lo <= i < hi && lo <= j < hi ==> same_above(bit, #[trigger] s[i], #[trigger] s[j])
}

/// The items of `s[lo..hi]` are all equal.
pub open spec fn all_equal(s: Seq<u64>, lo: usize, hi: usize) -> bool {
    forall|i: int, j: int| lo <= i < hi && lo <= j < hi ==> #[trigger] s[i] == #[trigger] s[j]
}

/// One step of radix selection: partitions the window `rng`, whose items
/// agree above `bitval`, by that bit. Both parts are windows again, and
/// within each the items agree in that bit too.
fn part_window(s: &mut [u64], rng: &Range<usize>, bitval: u64, Ghost(orig): Ghost<Seq<u64>>) -> (gtsub:
    usize)
    requires
        rng.start <= rng.end <= old(s)@.len(),
        one_bit(bitval),
        old(s)@.to_multiset() == orig.to_multiset(),
        window_at(orig, old(s)@, rng.start, rng.end, lt_u64()),
        agree_above(old(s)@, rng.start, rng.end, bitval),
    ensures
        rng.start <= gtsub <= rng.end,
        final(s)@.len() == old(s)@.len(),
        final(s)@.to_multiset() == orig.to_multiset(),
        window_at(orig, final(s)@, rng.start, gtsub, lt_u64()),
        window_at(orig, final(s)@, gtsub, rng.end, lt_u64()),
        bitval != 1 ==> one_bit(bitval >> 1) && bitval >> 1 < bitval,
        bitval != 1 ==> agree_above(final(s)@, rng.start, gtsub, bitval >> 1),
        bitval != 1 ==> agree_above(final(s)@, gtsub, rng.end, bitval >> 1),
        bitval == 1 ==> all_equal(final(s)@, rng.start, gtsub),
        bitval == 1 ==> all_equal(final(s)@, gtsub, rng.end),
{
    let ghost before = s@;
    let ghost lt = lt_u64();
    let gtsub = part_binary(s, rng, bitval);
    proof {
        let w0 = span(before, rng.start, rng.end);
        let w = span(s@, rng.start, rng.end);
        let front = span(s@, rng.start, gtsub);
        let back = span(s@, gtsub, rng.end);
        lemma_span_permuted(before, s@, rng.start as int, rng.end as int);
        lemma_window_permuted(orig, w0, w, lt, rng.start as int);
        if w0.len() > 0 {
            let x0 = w0[0];
            let agree = |y: u64| same_above(bitval, y, x0);
            assert forall|i: int| 0 <= i < w0.len() implies agree(#[trigger] w0[i]) by {
                assert(w0[i] == before[rng.start + i] && x0 == before[rng.start as int]);
            }
            lemma_permuted_all(w0, w, agree);
            assert forall|i: int, j: int| 0 <= i < w.len() && 0 <= j < w.len() implies same_above(
                bitval,
                #[trigger] w[i],
                #[trigger] w[j],
            ) by {
                assert(agree(w[i]) && agree(w[j]));
            }
        }
        assert(w =~= front + back);
        lemma_bit_partition(orig, w, front, back, bitval, rng.start as int);
        if bitval != 1 {
            lemma_bit_halved(bitval);
            assert forall|i: int, j: int|
                rng.start <= i < gtsub && rng.start <= j < gtsub implies same_above(
                bitval >> 1,
                #[trigger] s@[i],
                #[trigger] s@[j],
            ) by {
                assert(s@[i] == front[i - rng.start] && s@[j] == front[j - rng.start]);
            }
            assert forall|i: int, j: int|
                gtsub <= i < rng.end && gtsub <= j < rng.end implies same_above(
                bitval >> 1,
                #[trigger] s@[i],
                #[trigger] s@[j],
            ) by {
                assert(s@[i] == back[i - gtsub] && s@[j] == back[j - gtsub]);
            }
        } else {
            assert forall|i: int, j: int|
                rng.start <= i < gtsub && rng.start <= j < gtsub implies #[trigger] s@[i]
                == #[trigger] s@[j] by {
                assert(s@[i] == front[i - rng.start] && s@[j] == front[j - rng.start]);
            }
            assert forall|i: int, j: int|
                gtsub <= i < rng.end && gtsub <= j < rng.end implies #[trigger] s@[i]
                == #[trigger] s@[j] by {
                assert(s@[i] == back[i - gtsub] && s@[j] == back[j - gtsub]);
            }
        }
    }
    gtsub
}

/// The greatest item of the window `lo..hi`: it holds rank `hi - 1`.
fn window_max<'a>(s: &'a [u64], lo: usize, hi: usize, Ghost(orig): Ghost<Seq<u64>>) -> (m: &'a u64)
    requires
        lo < hi <= s@.len(),
        window_at(orig, s@, lo, hi, lt_u64()),
    ensures
        is_kth(orig, lt_u64(), hi - 1, *m),
{
    let m = maxu64(s, lo, hi);
    proof {
        let i = choose|i: int|
            is_first_least(span(s@, lo, hi), flipped(lt_u64()), i) && *m == span(s@, lo, hi)[i];
        lemma_select_greatest(orig, s@, lo, hi, lt_u64(), i);
    }
    m
}

/// The least item of the window `lo..hi`: it holds rank `lo`.
fn window_min<'a>(s: &'a [u64], lo: usize, hi: usize, Ghost(orig): Ghost<Seq<u64>>) -> (m: &'a u64)
    requires
        lo < hi <= s@.len(),
        window_at(orig, s@, lo, hi, lt_u64()),
    ensures
        is_kth(orig, lt_u64(), lo as int, *m),
{
    let m = minu64(s, lo, hi);
    proof {
        let i = choose|i: int|
            is_first_least(span(s@, lo, hi), lt_u64(), i) && *m == span(s@, lo, hi)[i];
        lemma_select_least(orig, s@, lo, hi, lt_u64(), i);
    }
    m
}

/// The two greatest items of the window `lo..hi`, in ascending order: they
/// hold ranks `hi - 2` and `hi - 1`.
fn window_max2<'a>(s: &'a [u64], lo: usize, hi: usize, Ghost(orig): Ghost<Seq<u64>>) -> (m: (
    &'a u64,
    &'a u64,
))
    requires
        lo + 2 <= hi <= s@.len(),
        window_at(orig, s@, lo, hi, lt_u64()),
    ensures
        is_kth(orig, lt_u64(), hi - 2, *m.0),
        is_kth(orig, lt_u64(), hi - 1, *m.1),
{
    let pair = max2u64(s, lo, hi);
    proof {
        let (i, j) = choose|i: int, j: int|
            two_least(span(s@, lo, hi), flipped(lt_u64()), i, j) && *pair.0 == span(s@, lo, hi)[i]
                && *pair.1 == span(s@, lo, hi)[j];
        lemma_select_two_greatest(orig, s@, lo, hi, lt_u64(), i, j);
    }
    (pair.1, pair.0)
}

/// The two least items of the window `lo..hi`, in ascending order: they
/// hold ranks `lo` and `lo + 1`.
fn window_min2<'a>(s: &'a [u64], lo: usize, hi: usize, Ghost(orig): Ghost<Seq<u64>>) -> (m: (
    &'a u64,
    &'a u64,
))
    requires
        lo + 2 <= hi <= s@.len(),
        window_at(orig, s@, lo, hi, lt_u64()),
    ensures
        is_kth(orig, lt_u64(), lo as int, *m.0),
        is_kth(orig, lt_u64(), lo + 1, *m.1),
{
    let pair = min2u64(s, lo, hi);
    proof {
        let (i, j) = choose|i: int, j: int|
            two_least(span(s@, lo, hi), lt_u64(), i, j) && *pair.0 == span(s@, lo, hi)[i]
                && *pair.1 == span(s@, lo, hi)[j];
        lemma_select_two_least(orig, s@, lo, hi, lt_u64(), i, j);
    }
    pair
}

/// The median of `s`, of odd length: the item that holds the middle rank,
/// found by partitioning on one bit after the other. Reorders `s`.
pub fn oddmedianu64(s: &mut [u64]) -> (m: &u64)
    requires
        old(s)@.len() > 0,
    ensures
        final(s)@.to_multiset() == old(s)@.to_multiset(),
        is_kth(old(s)@, lt_u64(), mid_rank(old(s)@), *m),
        *m == sorted_u64(old(s)@)[mid_rank(old(s)@)],
{
    let m = radix_odd(s);
    proof {
        lemma_kth_u64_is_sorted_item(old(s)@, mid_rank(old(s)@), *m);
    }
    m
}

/// The search of `oddmedianu64`.
fn radix_odd(s: &mut [u64]) -> (m: &u64)
    requires
        old(s)@.len() > 0,
    ensures
        final(s)@.to_multiset() == old(s)@.to_multiset(),
        is_kth(old(s)@, lt_u64(), mid_rank(old(s)@), *m),
{
    let n = s.len();
    let mut rng = 0..n;
    let need = n / 2;
    let mut bitval = FIRST_BIT;
    let ghost orig = s@;
    let ghost lt = lt_u64();
    proof {
        lemma_window_whole(orig, span(s@, 0, n), lt);
        assert forall|i: int, j: int| 0 <= i < n && 0 <= j < n implies same_above(
            bitval,
            #[trigger] s@[i],
            #[trigger] s@[j],
        ) by {
            lemma_bit_first(s@[i], s@[j]);
        }
        lemma_bit_first(0, 0);
    }
    loop
        invariant
            n == s@.len(),
            orig == old(s)@,
            n == orig.len(),
            need == n / 2,
            lt == lt_u64(),
            rng.start <= need < rng.end <= n,
            s@.to_multiset() == orig.to_multiset(),
            window_at(orig, s@, rng.start, rng.end, lt),
            one_bit(bitval),
            agree_above(s@, rng.start, rng.end, bitval),
        decreases bitval,
    {
        let gtsub = part_window(s, &rng, bitval, Ghost(orig));
        if bitval == 1 {
            // the last bit: each part holds one value only
            if need < gtsub {
                proof {
                    lemma_select_all_equal(
                        orig,
                        s@,
                        rng.start,
                        gtsub,
                        lt,
                        gtsub - 1,
                        need as int,
                    );
                }
                return &s[gtsub - 1];
            }
            proof {
                lemma_select_all_equal(orig, s@, gtsub, rng.end, lt, gtsub as int, need as int);
            }
            return &s[gtsub];
        }
        // well inside the part with the bit clear: search it
        if need + 2 < gtsub {
            rng.end = gtsub;
            bitval >>= 1;
            continue;
        }
        // well inside the part with the bit set: search it
        if need > gtsub + 1 {
            rng.start = gtsub;
            bitval >>= 1;
            continue;
        }
        // last but one of the part with the bit clear: its second greatest
        if need + 2 == gtsub {
            return window_max2(s, rng.start, gtsub, Ghost(orig)).0;
        }
        // last of the part with the bit clear: its greatest
        if need + 1 == gtsub {
            return window_max(s, rng.start, gtsub, Ghost(orig));
        }
        // first of the part with the bit set: its least
        if need == gtsub {
            return window_min(s, gtsub, rng.end, Ghost(orig));
        }
        // second of the part with the bit set: its second least
        return window_min2(s, gtsub, rng.end, Ghost(orig)).1;
    }
}

/// The two central items of `s`, of even length: those that hold the two
/// middle ranks, in ascending order, found by partitioning on one bit after
/// the other. Reorders `s`.
pub fn evenmedianu64(s: &mut [u64]) -> (m: (&u64, &u64))
    requires
        old(s)@.len() >= 2,
    ensures
        final(s)@.to_multiset() == old(s)@.to_multiset(),
        is_kth(old(s)@, lt_u64(), mid_rank(old(s)@) - 1, *m.0),
        is_kth(old(s)@, lt_u64(), mid_rank(old(s)@), *m.1),
        *m.0 == sorted_u64(old(s)@)[mid_rank(old(s)@) - 1],
        *m.1 == sorted_u64(old(s)@)[mid_rank(old(s)@)],
{
    let m = radix_even(s);
    proof {
        lemma_kth_u64_is_sorted_item(old(s)@, mid_rank(old(s)@) - 1, *m.0);
        lemma_kth_u64_is_sorted_item(old(s)@, mid_rank(old(s)@), *m.1);
    }
    m
}

/// The search of `evenmedianu64`.
fn radix_even(s: &mut [u64]) -> (m: (&u64, &u64))
    requires
        old(s)@.len() >= 2,
    ensures
        final(s)@.to_multiset() == old(s)@.to_multiset(),
        is_kth(old(s)@, lt_u64(), mid_rank(old(s)@) - 1, *m.0),
        is_kth(old(s)@, lt_u64(), mid_rank(old(s)@), *m.1),
{
    let n = s.len();
    let mut rng = 0..n;
    let need = n / 2 - 1;
    let mut bitval = FIRST_BIT;
    let ghost orig = s@;
    let ghost lt = lt_u64();
    proof {
        lemma_window_whole(orig, span(s@, 0, n), lt);
        assert forall|i: int, j: int| 0 <= i < n && 0 <= j < n implies same_above(
            bitval,
            #[trigger] s@[i],
            #[trigger] s@[j],
        ) by {
            lemma_bit_first(s@[i], s@[j]);
        }
        lemma_bit_first(0, 0);
    }
    loop
        invariant
            n == s@.len(),
            orig == old(s)@,
            n == orig.len(),
            need == n / 2 - 1,
            lt == lt_u64(),
            rng.start <= need,
            need + 1 < rng.end <= n,
            s@.to_multiset() == orig.to_multiset(),
            window_at(orig, s@, rng.start, rng.end, lt),
            one_bit(bitval),
            agree_above(s@, rng.start, rng.end, bitval),
        decreases bitval,
    {
        let gtsub = part_window(s, &rng, bitval, Ghost(orig));
        if bitval == 1 {
            // the last bit: each part holds one value only
            if need + 1 < gtsub {
                proof {
                    lemma_select_all_equal(
                        orig,
                        s@,
                        rng.start,
                        gtsub,
                        lt,
                        gtsub - 2,
                        need as int,
                    );
                    lemma_select_all_equal(orig, s@, rng.start, gtsub, lt, gtsub - 1, need + 1);
                }
                return (&s[gtsub - 2], &s[gtsub - 1]);
            }
            if need + 1 == gtsub {
                proof {
                    lemma_select_all_equal(
                        orig,
                        s@,
                        rng.start,
                        gtsub,
                        lt,
                        gtsub - 1,
                        need as int,
                    );
                    lemma_select_all_equal(orig, s@, gtsub, rng.end, lt, gtsub as int, need + 1);
                }
                return (&s[gtsub - 1], &s[gtsub]);
            }
            proof {
                lemma_select_all_equal(orig, s@, gtsub, rng.end, lt, gtsub as int, need as int);
                lemma_select_all_equal(orig, s@, gtsub, rng.end, lt, gtsub + 1, need + 1);
            }
            return (&s[gtsub], &s[gtsub + 1]);
        }
        // well inside the part with the bit clear: search it
        if need + 2 < gtsub {
            rng.end = gtsub;
            bitval >>= 1;
            continue;
        }
        // inside the part with the bit set: search it
        if need > gtsub {
            rng.start = gtsub;
            bitval >>= 1;
            continue;
        }
        // last but one of the part with the bit clear: its two greatest
        if need + 2 == gtsub {
            return window_max2(s, rng.start, gtsub, Ghost(orig));
        }
        // last of the part with the bit clear: its greatest, and the least of the other part
        if need + 1 == gtsub {
            return (
                window_max(s, rng.start, gtsub, Ghost(orig)),
                window_min(s, gtsub, rng.end, Ghost(orig)),
            );
        }
        // first of the part with the bit set: its two least
        return window_min2(s, gtsub, rng.end, Ghost(orig));
    }
}

/// The median of bytes, for data of odd length: the byte that holds the
/// middle rank, found from a histogram of the data.
pub fn oddmedianu8(s: &[u8]) -> (m: u8)
    requires
        s@.len() > 0,
    ensures
        is_kth(s@, lt_u8(), mid_rank(s@), m),
        m == sorted_u8(s@)[mid_rank(s@)],
{
    let need = s.len() / 2;
    let histogram = tally_u8(s);
    proof {
        lemma_prefix_sum_counts(histogram@, s@, key_u8(), 256);
    }
    let b = rank_bucket(histogram.as_slice(), need);
    proof {
        let i = lemma_bucket_rank(histogram@, s@, key_u8(), lt_u8(), b as int, need as int);
        assert(s@[i] == b as u8);
        assert(s@.contains(b as u8));
        lemma_kth_u8_is_sorted_item(s@, need as int, b as u8);
    }
    b as u8
}

/// The two central bytes, for data of even length: the bytes that hold
/// the two middle ranks, in ascending order, found from a histogram of the
/// data.
pub fn evenmedianu8(s: &[u8]) -> (m: (u8, u8))
    requires
        s@.len() >= 2,
    ensures
        is_kth(s@, lt_u8(), mid_rank(s@) - 1, m.0),
        is_kth(s@, lt_u8(), mid_rank(s@), m.1),
        m.0 == sorted_u8(s@)[mid_rank(s@) - 1],
        m.1 == sorted_u8(s@)[mid_rank(s@)],
{
    let need = s.len() / 2;
    let histogram = tally_u8(s);
    proof {
        lemma_prefix_sum_counts(histogram@, s@, key_u8(), 256);
    }
    let (b1, b2) = rank_buckets(histogram.as_slice(), need);
    proof {
        let i = lemma_bucket_rank(histogram@, s@, key_u8(), lt_u8(), b1 as int, need - 1);
        assert(s@[i] == b1 as u8);
        assert(s@.contains(b1 as u8));
        let j = lemma_bucket_rank(histogram@, s@, key_u8(), lt_u8(), b2 as int, need as int);
        assert(s@[j] == b2 as u8);
        assert(s@.contains(b2 as u8));
        lemma_kth_u8_is_sorted_item(s@, need - 1, b1 as u8);
        lemma_kth_u8_is_sorted_item(s@, need as int, b2 as u8);
    }
    (b1 as u8, b2 as u8)
}

/// The median of 16-bit integers, for data of odd length: the value that
/// holds the middle rank, found from a histogram of the data.
pub fn oddmedianu16(s: &[u16]) -> (m: u16)
    requires
        s@.len() > 0,
    ensures
        is_kth(s@, lt_u16(), mid_rank(s@), m),
        m == sorted_u16(s@)[mid_rank(s@)],
{
    let need = s.len() / 2;
    let histogram = tally_u16(s);
    proof {
        lemma_prefix_sum_counts(histogram@, s@, key_u16(), 65536);
    }
    let b = rank_bucket(histogram.as_slice(), need);
    proof {
        let i = lemma_bucket_rank(histogram@, s@, key_u16(), lt_u16(), b as int, need as int);
        assert(s@[i] == b as u16);
        assert(s@.contains(b as u16));
        lemma_kth_u16_is_sorted_item(s@, need as int, b as u16);
    }
    b as u16
}

/// The two central 16-bit integers, for data of even length: the values
/// that hold the two middle ranks, in ascending order, found from a
/// histogram of the data.
pub fn evenmedianu16(s: &[u16]) -> (m: (u16, u16))
    requires
        s@.len() >= 2,
    ensures
        is_kth(s@, lt_u16(), mid_rank(s@) - 1, m.0),
        is_kth(s@, lt_u16(), mid_rank(s@), m.1),
        m.0 == sorted_u16(s@)[mid_rank(s@) - 1],
        m.1 == sorted_u16(s@)[mid_rank(s@)],
{
    let need = s.len() / 2;
    let histogram = tally_u16(s);
    proof {
        lemma_prefix_sum_counts(histogram@, s@, key_u16(), 65536);
    }
    let (b1, b2) = rank_buckets(histogram.as_slice(), need);
    proof {
        let i = lemma_bucket_rank(histogram@, s@, key_u16(), lt_u16(), b1 as int, need - 1);
        assert(s@[i] == b1 as u16);
        assert(s@.contains(b1 as u16));
        let j = lemma_bucket_rank(histogram@, s@, key_u16(), lt_u16(), b2 as int, need as int);
        assert(s@[j] == b2 as u16);
        assert(s@.contains(b2 as u16));
        lemma_kth_u16_is_sorted_item(s@, need - 1, b1 as u16);
        lemma_kth_u16_is_sorted_item(s@, need as int, b2 as u16);
    }
    (b1 as u16, b2 as u16)
}

/// Calls `Vecops::isort_refs` of the `indxvec` crate on the whole slice,
/// with `by_value` as its comparator: an insertion sort that returns
/// references to the items.
///
/// Not proved; taken from that function's source. The references come in
/// ascending order of the values that the items stand for, and they refer to
/// the items of the slice, each as often as it occurs there.
#[verifier::external_body]
pub(crate) fn sorted_refs<'a>(bytes: &'a [[u8; 8]]) -> (r: Vec<&'a [u8; 8]>)
    ensures
        ascending(derefs(r@), lt_be()),
        derefs(r@).to_multiset() == bytes@.to_multiset(),
{
    bytes.isort_refs(0..bytes.len(), |a, b| by_value(a, b))
}

/// The items whose byte at `byteno` is `val`.
pub open spec fn has_byte(byteno: int, val: u8) -> spec_fn([u8; 8]) -> bool {
    |x: [u8; 8]| x@[byteno] == val
}

/// Collects the items whose byte at `byteno` is `val`, in their order.
pub fn select(bytes: &[[u8; 8]], byteno: usize, val: u8) -> (res: Vec<[u8; 8]>)
    requires
        byteno < 8,
    ensures
        res@ == bytes@.filter(has_byte(byteno as int, val)),
{
    let ghost p = has_byte(byteno as int, val);
    let mut res: Vec<[u8; 8]> = Vec::new();
    let mut i: usize = 0;
    proof {
        reveal(Seq::filter);
        assert(bytes@.take(0).filter(p) =~= Seq::<[u8; 8]>::empty());
    }
    while i < bytes.len()
        invariant
            byteno < 8,
            p == has_byte(byteno as int, val),
            i <= bytes@.len(),
            res@ == bytes@.take(i as int).filter(p),
        decreases bytes@.len() - i,
    {
        let item = bytes[i];
        proof {
            reveal(Seq::filter);
            assert(bytes@.take(i + 1).drop_last() =~= bytes@.take(i as int));
            assert(bytes@.take(i + 1).last() == bytes@[i as int]);
        }
        if item[byteno] == val {
            res.push(item);
        }
        i += 1;
    }
    proof {
        assert(bytes@.take(bytes@.len() as int) =~= bytes@);
    }
    res
}

/// `m` is the value of an item of `bytes` that holds rank `k` in the order by value.
pub open spec fn is_kth_value(bytes: Seq<[u8; 8]>, k: int, m: u64) -> bool {
    exists|i: int|
        0 <= i < bytes.len() && m == be_value(#[trigger] bytes[i]) && is_kth(
            bytes,
            lt_be(),
            k,
            bytes[i],
        )
}

/// The value of rank `need` among 64-bit integers given as byte arrays,
/// the most significant byte first, that agree in every byte before `byteno`.
/// Few items are sorted. Otherwise the byte at `byteno` of the wanted item
/// is found from a histogram of that byte, and the search goes on, at the
/// next byte, among the items that have it.
pub fn oddmedu64(bytes: &[[u8; 8]], byteno: usize, need: usize) -> (m: u64)
    requires
        byteno < 8,
        need < bytes@.len(),
        agree_before(bytes@, byteno as int),
    ensures
        is_kth_value(bytes@, need as int, m),
    decreases 8 - byteno,
{
    let ghost lt = lt_be();
    let ghost key = key_byte(byteno as int);
    let n = bytes.len();
    if n == 1 {
        proof {
            lemma_rank_least(bytes@, lt, 0);
        }
        return from_be(bytes[0]);
    }
    if n < 8 {
        // few items are left: sort them
        let idx = sorted_refs(bytes);
        proof {
            let p = derefs(idx@);
            vstd::seq_lib::to_multiset_len(p);
            vstd::seq_lib::to_multiset_len(bytes@);
            crate::laws::lemma_sorted_rank(p, lt, need as int);
            crate::laws::lemma_kth_permuted(p, bytes@, lt, need as int, p[need as int]);
            let i = choose|i: int| 0 <= i < bytes@.len() && bytes@[i] == p[need as int];
            assert(is_kth(bytes@, lt, need as int, bytes@[i]));
        }
        return from_be(*idx[need]);
    }
    let histogram = tally_byte(bytes, byteno);
    proof {
        lemma_prefix_sum_counts(histogram@, bytes@, key, 256);
    }
    let (medianbyte, cummulator) = rank_bucket_base(histogram.as_slice(), need);
    if byteno == 7 {
        // the items differ in their last byte only
        let mut res = bytes[0];
        res[7] = medianbyte as u8;
        proof {
            assert forall|i: int, j: int| 0 <= i < bytes@.len() && 0 <= j < bytes@.len() implies (lt(
                #[trigger] bytes@[i],
                #[trigger] bytes@[j],
            ) <==> key(bytes@[i]) < key(bytes@[j])) by {
                let a = bytes@[i];
                let b = bytes@[j];
                assert(same_before(a, b, 7));
                assert(same_before(b, a, 7));
                if a@[7] < b@[7] {
                    lemma_byte_orders(a, b, 7);
                } else if b@[7] < a@[7] {
                    lemma_byte_orders(b, a, 7);
                } else {
                    assert(a@ =~= b@);
                    lemma_be_value_same(a, b);
                }
            }
            let i = lemma_bucket_rank(
                histogram@,
                bytes@,
                key,
                lt,
                medianbyte as int,
                need as int,
            );
            assert(same_before(bytes@[i], bytes@[0], 7));
            assert(bytes@[i]@ =~= res@);
            lemma_be_value_same(bytes@[i], res);
        }
        return from_be(res);
    }
    let sub = select(bytes, byteno, medianbyte as u8);
    proof {
        broadcast use vstd::multiset::group_multiset_axioms;
        let p = has_byte(byteno as int, medianbyte as u8);
        lemma_filter_kept(bytes@, p);
        assert(bytes@.to_multiset().filter(p) =~= bytes@.to_multiset().filter(
            key_is(key, medianbyte as int),
        ));
        assert forall|i: int, j: int|
            0 <= i < bytes@.len() && 0 <= j < bytes@.len() && key(#[trigger] bytes@[i]) < key(
                #[trigger] bytes@[j],
            ) implies lt(bytes@[i], bytes@[j]) by {
            assert(same_before(bytes@[i], bytes@[j], byteno as int));
            lemma_byte_orders(bytes@[i], bytes@[j], byteno as int);
        }
        lemma_bucket_window(histogram@, bytes@, sub@, key, lt, medianbyte as int);
        lemma_count_kept(bytes@, sub@, key_is(key, medianbyte as int), key_is(key, medianbyte as int));
        assert forall|i: int, j: int| 0 <= i < sub@.len() && 0 <= j < sub@.len() implies same_before(
            #[trigger] sub@[i],
            #[trigger] sub@[j],
            byteno + 1,
        ) by {
            assert(sub@.contains(sub@[i]) && sub@.contains(sub@[j]));
            assert(bytes@.contains(sub@[i]) && bytes@.contains(sub@[j]));
            let a = choose|a: int| 0 <= a < bytes@.len() && bytes@[a] == sub@[i];
            let b = choose|b: int| 0 <= b < bytes@.len() && bytes@[b] == sub@[j];
            assert(same_before(bytes@[a], bytes@[b], byteno as int));
        }
    }
    let m = oddmedu64(sub.as_slice(), byteno + 1, need - cummulator);
    proof {
        let i = choose|i: int|
            0 <= i < sub@.len() && m == be_value(#[trigger] sub@[i]) && is_kth(
                sub@,
                lt,
                need - cummulator,
                sub@[i],
            );
        lemma_window_select(bytes@, sub@, lt, cummulator as int, need - cummulator, sub@[i]);
        let j = choose|j: int| 0 <= j < bytes@.len() && bytes@[j] == sub@[i];
        assert(is_kth(bytes@, lt, need as int, bytes@[j]));
    }
    m
}

} // verus!
