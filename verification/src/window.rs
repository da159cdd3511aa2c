//! Windows: the part of the data that a selection still searches, and
//! how partitions of the data narrow it.

use vstd::prelude::*;
use crate::rank::{
    above, below, count, flipped, is_first_least, is_kth, is_mid, item, lemma_count_above,
    lemma_count_complement, lemma_count_is_filter_len, lemma_count_mono, lemma_count_permuted,
    lemma_count_push, lemma_count_remove, lemma_count_same, lemma_count_split,
    lemma_rank_all_tied, lemma_rank_between, lemma_rank_greatest, lemma_rank_least,
    lemma_rank_two_greatest, lemma_rank_two_least, not_above, span, strict_weak_order, swapped,
    tied, two_least,
};

verus! {

/// The part of a sequence that is still searched. Every item `x` of the
/// window `w` is an item of `s`, and `s` holds exactly `base` more items
/// below `x`, and `base` more items not above `x`, than `w` does: the items
/// of `s` that have left the window are `base` items below all of `w`, and
/// items above all of `w`.
pub open spec fn window<T>(s: Seq<T>, w: Seq<T>, lt: spec_fn(T, T) -> bool, base: int) -> bool {
    forall|x: T| #[trigger]
        w.contains(x) ==> {
            &&& s.contains(x)
            &&& count(s, below(lt, x)) == base + count(w, below(lt, x))
            &&& count(s, not_above(lt, x)) == base + count(w, not_above(lt, x))
        }
}

/// A sequence is a window of itself.
pub proof fn lemma_window_whole<T>(s: Seq<T>, w: Seq<T>, lt: spec_fn(T, T) -> bool)
    requires
        w =~= s,
    ensures
        window(s, w, lt, 0),
{
}

/// An item that holds rank `j` in a window holds rank `base + j` in the whole.
pub proof fn lemma_window_select<T>(
    s: Seq<T>,
    w: Seq<T>,
    lt: spec_fn(T, T) -> bool,
    base: int,
    j: int,
    x: T,
)
    requires
        window(s, w, lt, base),
        is_kth(w, lt, j, x),
    ensures
        is_kth(s, lt, base + j, x),
{
}

/// Reordering a window leaves it a window.
pub proof fn lemma_window_permuted<T>(
    s: Seq<T>,
    w: Seq<T>,
    w2: Seq<T>,
    lt: spec_fn(T, T) -> bool,
    base: int,
)
    requires
        window(s, w, lt, base),
        w.to_multiset() == w2.to_multiset(),
    ensures
        window(s, w2, lt, base),
{
    assert forall|x: T| #[trigger] w2.contains(x) implies {
        &&& s.contains(x)
        &&& count(s, below(lt, x)) == base + count(w2, below(lt, x))
        &&& count(s, not_above(lt, x)) == base + count(w2, not_above(lt, x))
    } by {
        vstd::seq_lib::to_multiset_contains(w, x);
        vstd::seq_lib::to_multiset_contains(w2, x);
        assert(w.contains(x));
        lemma_count_permuted(w, w2, below(lt, x));
        lemma_count_permuted(w, w2, not_above(lt, x));
    }
}

/// What is left of `w` when only the items that satisfy `keep` stay, in any order.
pub open spec fn kept<T>(w: Seq<T>, w2: Seq<T>, keep: spec_fn(T) -> bool) -> bool {
    w2.to_multiset() == w.to_multiset().filter(keep)
}

/// Counting in what was kept is counting the kept items of the whole.
pub proof fn lemma_count_kept<T>(
    w: Seq<T>,
    w2: Seq<T>,
    keep: spec_fn(T) -> bool,
    p: spec_fn(T) -> bool,
)
    requires
        kept(w, w2, keep),
    ensures
        count(w2, p) == count(w, |y: T| keep(y) && p(y)),
        w2.len() == count(w, keep),
        forall|x: T| w2.contains(x) <==> w.contains(x) && keep(x),
{
    broadcast use vstd::multiset::group_multiset_axioms;
    let q = |y: T| keep(y) && p(y);
    lemma_count_is_filter_len(w2, p);
    lemma_count_is_filter_len(w, q);
    assert(w.to_multiset().filter(keep).filter(p) =~= w.to_multiset().filter(q));
    lemma_count_is_filter_len(w, keep);
    vstd::seq_lib::to_multiset_len(w2);
    assert forall|x: T| w2.contains(x) <==> w.contains(x) && keep(x) by {
        vstd::seq_lib::to_multiset_contains(w, x);
        vstd::seq_lib::to_multiset_contains(w2, x);
    }
}

/// A sequence that splits into a front whose items all satisfy `keep` and a
/// back whose items do not: the front is what is kept.
pub proof fn lemma_split_kept<T>(w: Seq<T>, front: Seq<T>, back: Seq<T>, keep: spec_fn(T) -> bool)
    requires
        w.to_multiset() == (front + back).to_multiset(),
        forall|i: int| 0 <= i < front.len() ==> keep(#[trigger] front[i]),
        forall|i: int| 0 <= i < back.len() ==> !keep(#[trigger] back[i]),
    ensures
        kept(w, front, keep),
        kept(w, back, |y: T| !keep(y)),
{
    broadcast use vstd::multiset::group_multiset_axioms;
    vstd::seq_lib::lemma_multiset_commutative(front, back);
    let drop = |y: T| !keep(y);
    assert forall|v: T| front.to_multiset().count(v) == w.to_multiset().filter(keep).count(v)
        && back.to_multiset().count(v) == w.to_multiset().filter(drop).count(v) by {
        vstd::seq_lib::to_multiset_contains(front, v);
        vstd::seq_lib::to_multiset_contains(back, v);
    }
    assert(front.to_multiset() =~= w.to_multiset().filter(keep));
    assert(back.to_multiset() =~= w.to_multiset().filter(drop));
}

/// Narrowing a window to its lower part: where every item of `w` that is
/// not above a kept item is kept too, what is kept is a window with the same
/// base.
pub proof fn lemma_window_keep_low<T>(
    s: Seq<T>,
    w: Seq<T>,
    w2: Seq<T>,
    lt: spec_fn(T, T) -> bool,
    base: int,
    keep: spec_fn(T) -> bool,
)
    requires
        strict_weak_order(lt),
        window(s, w, lt, base),
        kept(w, w2, keep),
        forall|i: int, j: int|
            0 <= i < w.len() && 0 <= j < w.len() && keep(#[trigger] w[j]) && !lt(
                w[j],
                #[trigger] w[i],
            ) ==> keep(w[i]),
    ensures
        window(s, w2, lt, base),
{
    assert forall|x: T| #[trigger] w2.contains(x) implies {
        &&& s.contains(x)
        &&& count(s, below(lt, x)) == base + count(w2, below(lt, x))
        &&& count(s, not_above(lt, x)) == base + count(w2, not_above(lt, x))
    } by {
        lemma_count_kept(w, w2, keep, below(lt, x));
        lemma_count_kept(w, w2, keep, not_above(lt, x));
        assert(w.contains(x) && keep(x));
        let jx = choose|j: int| 0 <= j < w.len() && w[j] == x;
        let qb = |y: T| keep(y) && below(lt, x)(y);
        let qn = |y: T| keep(y) && not_above(lt, x)(y);
        assert forall|i: int| 0 <= i < w.len() implies (qb(#[trigger] w[i]) <==> below(lt, x)(
            w[i],
        )) by {
            if lt(w[i], x) {
                assert(!lt(w[jx], w[i]));
            }
        }
        assert forall|i: int| 0 <= i < w.len() implies (qn(#[trigger] w[i]) <==> not_above(lt, x)(
            w[i],
        )) by {
            if !lt(x, w[i]) {
                assert(!lt(w[jx], w[i]));
            }
        }
        lemma_count_same(w, qb, below(lt, x));
        lemma_count_same(w, qn, not_above(lt, x));
    }
}

/// Narrowing a window to its upper part: where every item of `w` that is
/// not below a kept item is kept too, what is kept is a window whose base
/// has grown by the number of items that left.
pub proof fn lemma_window_keep_high<T>(
    s: Seq<T>,
    w: Seq<T>,
    w2: Seq<T>,
    lt: spec_fn(T, T) -> bool,
    base: int,
    keep: spec_fn(T) -> bool,
)
    requires
        strict_weak_order(lt),
        window(s, w, lt, base),
        kept(w, w2, keep),
        forall|i: int, j: int|
            0 <= i < w.len() && 0 <= j < w.len() && keep(#[trigger] w[j]) && !lt(
                #[trigger] w[i],
                w[j],
            ) ==> keep(w[i]),
    ensures
        window(s, w2, lt, base + w.len() - w2.len()),
{
    assert forall|x: T| #[trigger] w2.contains(x) implies {
        &&& s.contains(x)
        &&& count(s, below(lt, x)) == base + w.len() - w2.len() + count(w2, below(lt, x))
        &&& count(s, not_above(lt, x)) == base + w.len() - w2.len() + count(
            w2,
            not_above(lt, x),
        )
    } by {
        lemma_count_kept(w, w2, keep, below(lt, x));
        lemma_count_kept(w, w2, keep, not_above(lt, x));
        assert(w.contains(x) && keep(x));
        let jx = choose|j: int| 0 <= j < w.len() && w[j] == x;
        let drop = |y: T| !keep(y);
        let qb = |y: T| keep(y) && below(lt, x)(y);
        let qn = |y: T| keep(y) && not_above(lt, x)(y);
        lemma_count_complement(w, keep);
        // every item that left is below x
        lemma_count_split(w, below(lt, x), keep);
        lemma_count_split(w, not_above(lt, x), keep);
        let db = |y: T| below(lt, x)(y) && !keep(y);
        let dn = |y: T| not_above(lt, x)(y) && !keep(y);
        assert forall|i: int| 0 <= i < w.len() implies (db(#[trigger] w[i]) <==> drop(w[i])) by {
            if !keep(w[i]) && !lt(w[i], x) {
                assert(!lt(w[i], w[jx]));
            }
        }
        assert forall|i: int| 0 <= i < w.len() implies (dn(#[trigger] w[i]) <==> drop(w[i])) by {
            if !keep(w[i]) && lt(x, w[i]) {
                assert(lt(x, x) || lt(x, w[i]));
                assert(!lt(w[i], w[jx])) by {
                    if lt(w[i], x) {
                        assert(lt(x, x));
                    }
                }
            }
        }
        lemma_count_same(w, db, drop);
        lemma_count_same(w, dn, drop);
        lemma_count_same(w, |y: T| below(lt, x)(y) && keep(y), qb);
        lemma_count_same(w, |y: T| not_above(lt, x)(y) && keep(y), qn);
    }
}

/// Exchanging two items within a span of a sequence reorders that span.
pub proof fn lemma_swap_span<T>(s: Seq<T>, i: int, j: int, lo: int, hi: int)
    requires
        0 <= lo <= i < hi <= s.len(),
        lo <= j < hi,
    ensures
        s.update(i, s[j]).update(j, s[i]).subrange(lo, hi).to_multiset() == s.subrange(
            lo,
            hi,
        ).to_multiset(),
{
    broadcast use vstd::multiset::group_multiset_axioms;
    let w = s.subrange(lo, hi);
    let w1 = w.update(i - lo, s[j]);
    let w2 = w1.update(j - lo, s[i]);
    assert(s.update(i, s[j]).update(j, s[i]).subrange(lo, hi) =~= w2);
    vstd::seq_lib::to_multiset_update(w, i - lo, s[j]);
    vstd::seq_lib::to_multiset_update(w1, j - lo, s[i]);
    vstd::seq_lib::to_multiset_contains(w, s[i]);
    vstd::seq_lib::to_multiset_contains(w, s[j]);
    assert(w[i - lo] == s[i] && w[j - lo] == s[j]);
    assert(w2.to_multiset() =~= w.to_multiset());
}

/// A sequence of which one span was reordered, and nothing else changed, is reordered.
pub proof fn lemma_span_permuted<T>(s: Seq<T>, s2: Seq<T>, lo: int, hi: int)
    requires
        0 <= lo <= hi <= s.len(),
        s2.len() == s.len(),
        forall|i: int| 0 <= i < lo || hi <= i < s.len() ==> s2[i] == s[i],
        s2.subrange(lo, hi).to_multiset() == s.subrange(lo, hi).to_multiset(),
    ensures
        s2.to_multiset() == s.to_multiset(),
{
    let n = s.len() as int;
    assert(s =~= s.subrange(0, lo) + s.subrange(lo, hi) + s.subrange(hi, n));
    assert(s2 =~= s2.subrange(0, lo) + s2.subrange(lo, hi) + s2.subrange(hi, n));
    assert(s2.subrange(0, lo) =~= s.subrange(0, lo));
    assert(s2.subrange(hi, n) =~= s.subrange(hi, n));
    vstd::seq_lib::lemma_multiset_commutative(s.subrange(0, lo), s.subrange(lo, hi));
    vstd::seq_lib::lemma_multiset_commutative(s.subrange(0, lo) + s.subrange(lo, hi), s.subrange(hi, n));
    vstd::seq_lib::lemma_multiset_commutative(s2.subrange(0, lo), s2.subrange(lo, hi));
    vstd::seq_lib::lemma_multiset_commutative(
        s2.subrange(0, lo) + s2.subrange(lo, hi),
        s2.subrange(hi, n),
    );
}

/// What holds of every item of a sequence holds of every item of a reordering of it.
pub proof fn lemma_permuted_all<T>(w: Seq<T>, w2: Seq<T>, p: spec_fn(T) -> bool)
    requires
        w.to_multiset() == w2.to_multiset(),
        forall|i: int| 0 <= i < w.len() ==> p(#[trigger] w[i]),
    ensures
        forall|i: int| 0 <= i < w2.len() ==> p(#[trigger] w2[i]),
{
    assert forall|i: int| 0 <= i < w2.len() implies p(#[trigger] w2[i]) by {
        vstd::seq_lib::to_multiset_contains(w, w2[i]);
        vstd::seq_lib::to_multiset_contains(w2, w2[i]);
        assert(w2.contains(w2[i]));
        assert(w.contains(w2[i]));
    }
}

/// The span `lo..hi` of `s` is a window of `orig` with base `lo`: rank `k`
/// of `orig`, for `lo <= k < hi`, is held by the item of rank `k - lo` of the span.
pub open spec fn window_at<T>(
    orig: Seq<T>,
    s: Seq<T>,
    lo: usize,
    hi: usize,
    lt: spec_fn(T, T) -> bool,
) -> bool {
    window(orig, span(s, lo, hi), lt, lo as int)
}

/// Exchanging two items of a window leaves it a window.
pub proof fn lemma_swap_window<T>(
    orig: Seq<T>,
    s: Seq<T>,
    i: usize,
    j: usize,
    lo: usize,
    hi: usize,
    lt: spec_fn(T, T) -> bool,
)
    requires
        lo <= i < hi <= s.len(),
        lo <= j < hi,
        window_at(orig, s, lo, hi, lt),
    ensures
        window_at(orig, swapped(s, i, j), lo, hi, lt),
{
    lemma_swap_span(s, i as int, j as int, lo as int, hi as int);
    lemma_window_permuted(
        orig,
        span(s, lo, hi),
        span(s.update(i as int, s[j as int]).update(j as int, s[i as int]), lo, hi),
        lt,
        lo as int,
    );
}

/// One step of selection by a pivot. Of a window `w` that holds `pivot`,
/// `front` holds the items below the pivot and `back` those above it: both
/// are windows, the back with a base grown by the number of items that are
/// not above the pivot, and the pivot holds every rank in between.
pub proof fn lemma_pivot_windows<T>(
    orig: Seq<T>,
    w: Seq<T>,
    front: Seq<T>,
    back: Seq<T>,
    lt: spec_fn(T, T) -> bool,
    pivot: T,
    base: int,
)
    requires
        strict_weak_order(lt),
        window(orig, w, lt, base),
        w.contains(pivot),
        kept(w, front, below(lt, pivot)),
        kept(w, back, above(lt, pivot)),
    ensures
        front.len() + back.len() < w.len(),
        window(orig, front, lt, base),
        window(orig, back, lt, base + w.len() - back.len()),
        forall|k: int|
            base + front.len() <= k < base + w.len() - back.len() ==> is_kth(orig, lt, k, pivot),
{
    assert forall|i: int, j: int|
        0 <= i < w.len() && 0 <= j < w.len() && below(lt, pivot)(#[trigger] w[j]) && !lt(
            w[j],
            #[trigger] w[i],
        ) implies below(lt, pivot)(w[i]) by {
        assert(lt(w[j], w[i]) || lt(w[i], pivot));
    }
    lemma_window_keep_low(orig, w, front, lt, base, below(lt, pivot));
    assert forall|i: int, j: int|
        0 <= i < w.len() && 0 <= j < w.len() && above(lt, pivot)(#[trigger] w[j]) && !lt(
            #[trigger] w[i],
            w[j],
        ) implies above(lt, pivot)(w[i]) by {
        assert(lt(pivot, w[i]) || lt(w[i], w[j]));
    }
    lemma_window_keep_high(orig, w, back, lt, base, above(lt, pivot));
    lemma_count_kept(w, front, below(lt, pivot), below(lt, pivot));
    lemma_count_kept(w, back, above(lt, pivot), above(lt, pivot));
    lemma_count_above(w, lt, pivot);
    let ip = choose|i: int| 0 <= i < w.len() && w[i] == pivot;
    lemma_count_remove(w, ip, below(lt, pivot));
    lemma_count_remove(w, ip, not_above(lt, pivot));
    let rest = w.remove(ip);
    assert forall|i: int| 0 <= i < rest.len() && below(lt, pivot)(#[trigger] rest[i]) implies not_above(
        lt,
        pivot,
    )(rest[i]) by {
        let y = rest[i];
        if lt(y, pivot) && lt(pivot, y) {
            assert(lt(y, y));
        }
    }
    lemma_count_mono(rest, below(lt, pivot), not_above(lt, pivot));
    assert forall|k: int| base + front.len() <= k < base + w.len() - back.len() implies is_kth(
        orig,
        lt,
        k,
        pivot,
    ) by {
        lemma_rank_between(w, lt, pivot, k - base);
        lemma_window_select(orig, w, lt, base, k - base, pivot);
    }
}

/// One step of selection by a pivot, in place. Of a window `lo..hi` that
/// holds `pivot`, the items below the pivot now lie in `lo..eq` and those
/// above it in `gt..hi`: both spans are windows, and the pivot holds every
/// rank from `eq` up to, but not including, `gt`.
pub proof fn lemma_pivot_step<T>(
    orig: Seq<T>,
    before: Seq<T>,
    after: Seq<T>,
    lo: usize,
    hi: usize,
    eq: usize,
    gt: usize,
    lt: spec_fn(T, T) -> bool,
    pivot: T,
)
    requires
        strict_weak_order(lt),
        lo <= eq <= gt <= hi <= before.len(),
        after.len() == before.len(),
        window_at(orig, before, lo, hi, lt),
        span(before, lo, hi).contains(pivot),
        kept(span(before, lo, hi), span(after, lo, eq), below(lt, pivot)),
        kept(span(before, lo, hi), span(after, gt, hi), above(lt, pivot)),
    ensures
        window_at(orig, after, lo, eq, lt),
        window_at(orig, after, gt, hi, lt),
        forall|k: int| eq <= k < gt ==> is_kth(orig, lt, k, pivot),
{
    let w = span(before, lo, hi);
    lemma_pivot_windows(orig, w, span(after, lo, eq), span(after, gt, hi), lt, pivot, lo as int);
}

/// The greatest item of a window `lo..hi` holds rank `hi - 1`.
pub proof fn lemma_select_greatest<T>(
    orig: Seq<T>,
    s: Seq<T>,
    lo: usize,
    hi: usize,
    lt: spec_fn(T, T) -> bool,
    i: int,
)
    requires
        strict_weak_order(lt),
        lo < hi <= s.len(),
        window_at(orig, s, lo, hi, lt),
        is_first_least(span(s, lo, hi), flipped(lt), i),
    ensures
        is_kth(orig, lt, hi - 1, span(s, lo, hi)[i]),
{
    let w = span(s, lo, hi);
    lemma_rank_greatest(w, lt, i);
    lemma_window_select(orig, w, lt, lo as int, w.len() - 1, w[i]);
}

/// The least item of a window `lo..hi` holds rank `lo`.
pub proof fn lemma_select_least<T>(
    orig: Seq<T>,
    s: Seq<T>,
    lo: usize,
    hi: usize,
    lt: spec_fn(T, T) -> bool,
    i: int,
)
    requires
        lo < hi <= s.len(),
        window_at(orig, s, lo, hi, lt),
        is_first_least(span(s, lo, hi), lt, i),
    ensures
        is_kth(orig, lt, lo as int, span(s, lo, hi)[i]),
{
    let w = span(s, lo, hi);
    lemma_rank_least(w, lt, i);
    lemma_window_select(orig, w, lt, lo as int, 0, w[i]);
}

/// The two greatest items of a window `lo..hi` hold ranks `hi - 1` and `hi - 2`.
pub proof fn lemma_select_two_greatest<T>(
    orig: Seq<T>,
    s: Seq<T>,
    lo: usize,
    hi: usize,
    lt: spec_fn(T, T) -> bool,
    i: int,
    j: int,
)
    requires
        strict_weak_order(lt),
        lo + 2 <= hi <= s.len(),
        window_at(orig, s, lo, hi, lt),
        two_least(span(s, lo, hi), flipped(lt), i, j),
    ensures
        is_kth(orig, lt, hi - 1, span(s, lo, hi)[i]),
        is_kth(orig, lt, hi - 2, span(s, lo, hi)[j]),
{
    let w = span(s, lo, hi);
    lemma_rank_two_greatest(w, lt, i, j);
    lemma_window_select(orig, w, lt, lo as int, w.len() - 1, w[i]);
    lemma_window_select(orig, w, lt, lo as int, w.len() - 2, w[j]);
}

/// The two least items of a window `lo..hi` hold ranks `lo` and `lo + 1`.
pub proof fn lemma_select_two_least<T>(
    orig: Seq<T>,
    s: Seq<T>,
    lo: usize,
    hi: usize,
    lt: spec_fn(T, T) -> bool,
    i: int,
    j: int,
)
    requires
        strict_weak_order(lt),
        lo + 2 <= hi <= s.len(),
        window_at(orig, s, lo, hi, lt),
        two_least(span(s, lo, hi), lt, i, j),
    ensures
        is_kth(orig, lt, lo as int, span(s, lo, hi)[i]),
        is_kth(orig, lt, lo + 1, span(s, lo, hi)[j]),
{
    let w = span(s, lo, hi);
    lemma_rank_two_least(w, lt, i, j);
    lemma_window_select(orig, w, lt, lo as int, 0, w[i]);
    lemma_window_select(orig, w, lt, lo as int, 1, w[j]);
}

/// The middle one of the three items of a window `lo..hi` of length 3 holds rank `lo + 1`.
pub proof fn lemma_select_mid3<T>(
    orig: Seq<T>,
    s: Seq<T>,
    lo: usize,
    hi: usize,
    lt: spec_fn(T, T) -> bool,
    m: T,
)
    requires
        strict_weak_order(lt),
        hi == lo + 3,
        hi <= s.len(),
        window_at(orig, s, lo, hi, lt),
        is_mid(lt, s[lo as int], s[lo + 1], s[lo + 2], m),
    ensures
        is_kth(orig, lt, lo + 1, m),
{
    let w = span(s, lo, hi);
    let a = s[lo as int];
    let b = s[lo + 1];
    let c = s[lo + 2];
    assert(w[0] == a && w[1] == b && w[2] == c);
    assert(w =~= seq![a, b, c]);
    let e = Seq::<T>::empty();
    assert(w =~= e.push(a).push(b).push(c));
    lemma_count_push(e.push(a).push(b), c, below(lt, m));
    lemma_count_push(e.push(a), b, below(lt, m));
    lemma_count_push(e, a, below(lt, m));
    lemma_count_push(e.push(a).push(b), c, not_above(lt, m));
    lemma_count_push(e.push(a), b, not_above(lt, m));
    lemma_count_push(e, a, not_above(lt, m));
    assert(!lt(a, a) && !lt(b, b) && !lt(c, c));
    assert(w.contains(m)) by {
        assert(m == w[0] || m == w[1] || m == w[2]);
    }
    lemma_window_select(orig, w, lt, lo as int, 1, m);
}

/// In a window `lo..hi` whose items are all equal, each holds every rank from `lo` up to `hi`.
pub proof fn lemma_select_all_equal<T>(
    orig: Seq<T>,
    s: Seq<T>,
    lo: usize,
    hi: usize,
    lt: spec_fn(T, T) -> bool,
    i: int,
    k: int,
)
    requires
        strict_weak_order(lt),
        lo <= i < hi <= s.len(),
        lo <= k < hi,
        window_at(orig, s, lo, hi, lt),
        forall|a: int, b: int| lo <= a < hi && lo <= b < hi ==> #[trigger] s[a] == #[trigger] s[b],
    ensures
        is_kth(orig, lt, k, s[i]),
{
    let w = span(s, lo, hi);
    assert(w[i - lo] == s[i]);
    assert forall|t: int| 0 <= t < w.len() implies tied(lt, #[trigger] w[t], s[i]) by {
        assert(w[t] == s[lo + t]);
        assert(s[lo + t] == s[i]);
    }
    lemma_rank_all_tied(w, lt, s[i], k - lo);
    lemma_window_select(orig, w, lt, lo as int, k - lo, s[i]);
}

/// Taking one item out of a sequence by putting the last item in its
/// place: the items that satisfy `p` stay as they are, where the item taken
/// out does not satisfy `p`.
pub proof fn lemma_drop_item<T>(w: Seq<T>, i: int, p: spec_fn(T) -> bool)
    requires
        0 <= i < w.len(),
        !p(w[i]),
    ensures
        w.update(i, w.last()).drop_last().to_multiset().filter(p) == w.to_multiset().filter(p),
{
    broadcast use vstd::multiset::group_multiset_axioms;
    let x = w.update(i, w.last());
    vstd::seq_lib::to_multiset_update(w, i, w.last());
    assert(x.drop_last() =~= x.remove(x.len() - 1));
    vstd::seq_lib::to_multiset_remove(x, x.len() - 1);
    vstd::seq_lib::to_multiset_contains(w, w[i]);
    vstd::seq_lib::to_multiset_contains(w, w.last());
    assert(w.last() == w[w.len() - 1]);
    assert(x.drop_last().to_multiset() =~= w.to_multiset().remove(w[i]));
    assert(x.drop_last().to_multiset().filter(p) =~= w.to_multiset().filter(p));
}

/// Taking the item at `a` out of a sequence by putting the item at `b` in
/// its place, and the last item in the place of that one.
pub proof fn lemma_drop_item_via<T>(w: Seq<T>, a: int, b: int, p: spec_fn(T) -> bool)
    requires
        0 <= a < b < w.len(),
        !p(w[a]),
    ensures
        w.update(a, w[b]).update(b, w.last()).drop_last().to_multiset().filter(p)
            == w.to_multiset().filter(p),
{
    broadcast use vstd::multiset::group_multiset_axioms;
    let x = w.update(a, w[b]);
    let y = x.update(b, w.last());
    vstd::seq_lib::to_multiset_update(w, a, w[b]);
    vstd::seq_lib::to_multiset_update(x, b, w.last());
    assert(y.drop_last() =~= y.remove(y.len() - 1));
    vstd::seq_lib::to_multiset_remove(y, y.len() - 1);
    vstd::seq_lib::to_multiset_contains(w, w[a]);
    vstd::seq_lib::to_multiset_contains(w, w[b]);
    vstd::seq_lib::to_multiset_contains(w, w.last());
    assert(w.last() == w[w.len() - 1]);
    assert(y.drop_last().to_multiset() =~= w.to_multiset().remove(w[a]));
    assert(y.drop_last().to_multiset().filter(p) =~= w.to_multiset().filter(p));
}

/// The items that do not tie with `x`.
pub open spec fn untied<T>(lt: spec_fn(T, T) -> bool, x: T) -> spec_fn(T) -> bool {
    |y: T| !tied(lt, y, x)
}

/// A sequence that keeps of `w` the items that do not tie with the pivot,
/// those below the pivot in front and those above it behind, keeps the
/// former in its front and the latter in its back.
pub proof fn lemma_kept_sides<T>(
    w: Seq<T>,
    live: Seq<T>,
    front: Seq<T>,
    back: Seq<T>,
    lt: spec_fn(T, T) -> bool,
    pivot: T,
)
    requires
        strict_weak_order(lt),
        live == front + back,
        live.to_multiset().filter(untied(lt, pivot)) == w.to_multiset().filter(untied(lt, pivot)),
        forall|i: int| 0 <= i < front.len() ==> lt(#[trigger] front[i], pivot),
        forall|i: int| 0 <= i < back.len() ==> lt(pivot, #[trigger] back[i]),
    ensures
        kept(w, front, below(lt, pivot)),
        kept(w, back, above(lt, pivot)),
{
    broadcast use vstd::multiset::group_multiset_axioms;
    let nt = untied(lt, pivot);
    assert forall|i: int| 0 <= i < back.len() implies !below(lt, pivot)(#[trigger] back[i]) by {
        if lt(back[i], pivot) {
            assert(lt(pivot, back[i]));
            assert(lt(pivot, pivot));
        }
    }
    lemma_split_kept(live, front, back, below(lt, pivot));
    assert forall|v: T| #[trigger]
        live.to_multiset().count(v) == live.to_multiset().filter(nt).count(v) by {
        vstd::seq_lib::to_multiset_contains(live, v);
        if live.contains(v) {
            let i = choose|i: int| 0 <= i < live.len() && live[i] == v;
            if i < front.len() {
                assert(live[i] == front[i]);
            } else {
                assert(live[i] == back[i - front.len()]);
            }
        }
    }
    assert(live.to_multiset() =~= live.to_multiset().filter(nt));
    assert forall|v: T| #[trigger]
        front.to_multiset().count(v) == w.to_multiset().filter(below(lt, pivot)).count(v) by {
        assert(front.to_multiset().count(v) == live.to_multiset().filter(below(lt, pivot)).count(v));
        assert(live.to_multiset().count(v) == w.to_multiset().filter(nt).count(v));
    }
    assert(front.to_multiset() =~= w.to_multiset().filter(below(lt, pivot)));
    assert forall|v: T| #[trigger]
        back.to_multiset().count(v) == w.to_multiset().filter(above(lt, pivot)).count(v) by {
        assert(back.to_multiset().count(v) == live.to_multiset().filter(
            |y: T| !below(lt, pivot)(y),
        ).count(v));
        assert(live.to_multiset().count(v) == w.to_multiset().filter(nt).count(v));
        if lt(pivot, v) && lt(v, pivot) {
            assert(lt(pivot, pivot));
        }
    }
    assert(back.to_multiset() =~= w.to_multiset().filter(above(lt, pivot)));
}

/// Narrowing a window to the items that satisfy `keep`, where each of
/// the others is either `low`, and then below every kept item, or else
/// above every kept item: what is kept is a window whose base has grown by
/// the number of low items.
pub proof fn lemma_window_keep_mid<T>(
    s: Seq<T>,
    w: Seq<T>,
    w2: Seq<T>,
    lt: spec_fn(T, T) -> bool,
    base: int,
    keep: spec_fn(T) -> bool,
    low: spec_fn(T) -> bool,
)
    requires
        strict_weak_order(lt),
        window(s, w, lt, base),
        kept(w, w2, keep),
        forall|i: int| 0 <= i < w.len() && low(#[trigger] w[i]) ==> !keep(w[i]),
        forall|i: int, j: int|
            0 <= i < w.len() && 0 <= j < w.len() && keep(#[trigger] w[j]) && low(#[trigger] w[i])
                ==> lt(w[i], w[j]),
        forall|i: int, j: int|
            0 <= i < w.len() && 0 <= j < w.len() && keep(#[trigger] w[j]) && !keep(
                #[trigger] w[i],
            ) && !low(w[i]) ==> lt(w[j], w[i]),
    ensures
        window(s, w2, lt, base + count(w, low)),
{
    assert forall|x: T| #[trigger] w2.contains(x) implies {
        &&& s.contains(x)
        &&& count(s, below(lt, x)) == base + count(w, low) + count(w2, below(lt, x))
        &&& count(s, not_above(lt, x)) == base + count(w, low) + count(w2, not_above(lt, x))
    } by {
        lemma_count_kept(w, w2, keep, below(lt, x));
        lemma_count_kept(w, w2, keep, not_above(lt, x));
        assert(w.contains(x) && keep(x));
        let jx = choose|j: int| 0 <= j < w.len() && w[j] == x;
        let bx = below(lt, x);
        let nx = not_above(lt, x);
        // below x: the low items, and the kept items below x
        lemma_count_split(w, bx, keep);
        lemma_count_same(w, |y: T| bx(y) && keep(y), |y: T| keep(y) && bx(y));
        assert forall|i: int| 0 <= i < w.len() implies ((bx(#[trigger] w[i]) && !keep(w[i]))
            <==> low(w[i])) by {
            if low(w[i]) {
                assert(lt(w[i], w[jx]));
            }
            if !keep(w[i]) && !low(w[i]) {
                assert(lt(w[jx], w[i]));
                if lt(w[i], x) {
                    assert(lt(x, x));
                }
            }
        }
        lemma_count_same(w, |y: T| bx(y) && !keep(y), low);
        // not above x: the low items, and the kept items not above x
        lemma_count_split(w, nx, keep);
        lemma_count_same(w, |y: T| nx(y) && keep(y), |y: T| keep(y) && nx(y));
        assert forall|i: int| 0 <= i < w.len() implies ((nx(#[trigger] w[i]) && !keep(w[i]))
            <==> low(w[i])) by {
            if low(w[i]) {
                assert(lt(w[i], w[jx]));
                if lt(x, w[i]) {
                    assert(lt(x, x));
                }
            }
            if !keep(w[i]) && !low(w[i]) {
                assert(lt(w[jx], w[i]));
            }
        }
        lemma_count_same(w, |y: T| nx(y) && !keep(y), low);
    }
}

/// What a filter leaves of a sequence is what is kept of it.
pub proof fn lemma_filter_kept<T>(s: Seq<T>, p: spec_fn(T) -> bool)
    ensures
        kept(s, s.filter(p), p),
    decreases s.len(),
{
    broadcast use vstd::multiset::group_multiset_axioms;
    reveal(Seq::filter);
    if s.len() == 0 {
        s.to_multiset_ensures();
        assert(s.to_multiset().len() == 0);
        assert(s.filter(p).to_multiset() =~= s.to_multiset().filter(p));
    } else {
        let t = s.drop_last();
        let x = s.last();
        lemma_filter_kept(t, p);
        assert(s =~= t.push(x));
        vstd::seq_lib::to_multiset_build(t, x);
        vstd::seq_lib::to_multiset_build(t.filter(p), x);
        assert(s.filter(p).to_multiset() =~= s.to_multiset().filter(p));
    }
}

/// The items of a span that is one item longer.
pub proof fn lemma_span_push<T>(s: Seq<T>, lo: usize, i: usize)
    requires
        lo <= i < s.len(),
        i < usize::MAX,
    ensures
        span(s, lo, (i + 1) as usize).to_multiset() == span(s, lo, i).to_multiset().insert(
            s[i as int],
        ),
        span(s, lo, lo).len() == 0,
{
    assert(span(s, lo, (i + 1) as usize) =~= span(s, lo, i).push(s[i as int]));
    vstd::seq_lib::to_multiset_build(span(s, lo, i), s[i as int]);
}

} // verus!
