//! The search for the `k` best items of a sequence, kept in ascending
//! order, each new item put into its place by a binary search.

use vstd::prelude::*;
use crate::rank::{
    above, ascending, below, derefs, is_kth, item, lemma_count_all, lemma_count_bound,
    lemma_count_concat, lemma_count_none, lemma_count_permuted, lemma_count_push, not_above,
    strict_weak_order,
};

verus! {

/// The state of a search for the `k` least items: `best` holds the least
/// items found so far, at most `k` of them, in ascending order, and `rest`
/// the other items seen, none of which is below any item of `best`.
pub open spec fn best_so_far<T>(
    best: Seq<T>,
    rest: Seq<T>,
    lt: spec_fn(T, T) -> bool,
    k: usize,
) -> bool {
    &&& ascending(best, lt)
    &&& best.len() <= k
    &&& best.len() < k ==> rest.len() == 0
    &&& best.len() > 0 ==> forall|j: int| 0 <= j < rest.len() ==> !lt(#[trigger] rest[j], best.last())
}

/// `pos` is where `x` goes into `best`: behind the items that are not
/// above it, and before those that are.
pub open spec fn insert_place<T>(best: Seq<T>, lt: spec_fn(T, T) -> bool, x: T, pos: usize) -> bool {
    &&& pos <= best.len()
    &&& forall|j: int| 0 <= j < pos ==> !lt(x, #[trigger] best[j])
    &&& forall|j: int| pos <= j < best.len() ==> lt(x, #[trigger] best[j])
}

/// `best` with `x` put in at `pos`, cut back to `k` items.
pub open spec fn best_with<T>(best: Seq<T>, pos: usize, x: T, k: usize) -> Seq<T> {
    if best.len() < k {
        best.insert(pos as int, x)
    } else {
        best.insert(pos as int, x).drop_last()
    }
}

/// `rest` with the item that left `best` when `x` went in at `pos`.
pub open spec fn rest_with<T>(best: Seq<T>, rest: Seq<T>, pos: usize, x: T, k: usize) -> Seq<T> {
    if best.len() < k {
        rest
    } else {
        rest.push(best.insert(pos as int, x).last())
    }
}

/// Putting an item into its place among the best keeps the state of the
/// search, and the items seen are those seen before and the new one.
pub proof fn lemma_best_insert<T>(
    best: Seq<T>,
    rest: Seq<T>,
    lt: spec_fn(T, T) -> bool,
    k: usize,
    x: T,
    pos: usize,
)
    requires
        strict_weak_order(lt),
        k > 0,
        best_so_far(best, rest, lt, k),
        insert_place(best, lt, x, pos),
        best.len() == k ==> pos < k,
    ensures
        best_so_far(best_with(best, pos, x, k), rest_with(best, rest, pos, x, k), lt, k),
{
    let b2 = best.insert(pos as int, x);
    assert(b2.len() == best.len() + 1);
    assert forall|i: int, j: int| 0 <= i < j < b2.len() implies !lt(
        #[trigger] b2[j],
        #[trigger] b2[i],
    ) by {
        if j == pos {
            assert(b2[i] == best[i]);
            if lt(x, best[i]) && lt(best[i], x) {
                assert(lt(x, x));
            }
        } else if i == pos {
            assert(b2[j] == best[j - 1]);
            if lt(best[j - 1], x) {
                assert(lt(x, x));
            }
        } else {
            let a = if i < pos { i } else { i - 1 };
            let b = if j < pos { j } else { j - 1 };
            assert(b2[i] == best[a] && b2[j] == best[b]);
        }
    }
    if best.len() >= k {
        let b3 = b2.drop_last();
        let out = b2.last();
        assert(out == best.last());
        assert(b3.last() == b2[k - 1]);
        assert forall|j: int| 0 <= j < rest.push(out).len() implies !lt(
            #[trigger] rest.push(out)[j],
            b3.last(),
        ) by {
            let y = rest.push(out)[j];
            assert(!lt(b2[k as int], b2[k - 1]));
            if j < rest.len() {
                assert(!lt(rest[j], best.last()));
                if lt(y, b3.last()) {
                    assert(lt(y, out) || lt(out, b3.last()));
                }
            }
        }
    }
}

/// An item that is not below the last of `k` best items joins the rest.
pub proof fn lemma_best_skip<T>(
    best: Seq<T>,
    rest: Seq<T>,
    lt: spec_fn(T, T) -> bool,
    k: usize,
    x: T,
)
    requires
        k > 0,
        best.len() == k,
        best_so_far(best, rest, lt, k),
        !lt(x, best.last()),
    ensures
        best_so_far(best, rest.push(x), lt, k),
{
}

/// The items seen, after an item went into its place among the best.
pub proof fn lemma_best_items<T>(best: Seq<T>, rest: Seq<T>, k: usize, x: T, pos: usize)
    requires
        pos <= best.len() <= k,
        k > 0,
    ensures
        (best_with(best, pos, x, k) + rest_with(best, rest, pos, x, k)).to_multiset() == (best
            + rest).to_multiset().insert(x),
{
    broadcast use vstd::multiset::group_multiset_axioms;
    let b2 = best.insert(pos as int, x);
    assert(b2.len() == best.len() + 1);
    vstd::seq_lib::to_multiset_insert(best, pos as int, x);
    vstd::seq_lib::lemma_multiset_commutative(best, rest);
    vstd::seq_lib::lemma_multiset_commutative(b2, rest);
    assert(b2.to_multiset() =~= best.to_multiset().insert(x));
    if best.len() < k {
        assert((b2 + rest).to_multiset() =~= (best + rest).to_multiset().insert(x));
    } else {
        let b3 = b2.drop_last();
        let out = b2.last();
        assert(b2 =~= b3.push(out));
        vstd::seq_lib::to_multiset_build(b3, out);
        vstd::seq_lib::to_multiset_build(rest, out);
        vstd::seq_lib::lemma_multiset_commutative(b3, rest.push(out));
        assert(b2.to_multiset() =~= b3.to_multiset().insert(out));
        assert(rest.push(out).to_multiset() =~= rest.to_multiset().insert(out));
        assert((b3 + rest.push(out)).to_multiset() =~= b3.to_multiset().add(
            rest.to_multiset().insert(out),
        ));
        assert((b3 + rest.push(out)).to_multiset() =~= b2.to_multiset().add(rest.to_multiset()));
        assert((b3 + rest.push(out)).to_multiset() =~= (best + rest).to_multiset().insert(x));
    }
}

/// At the end of the search the last of `k` best items holds rank `k - 1`
/// among all items seen.
pub proof fn lemma_best_rank<T>(
    w: Seq<T>,
    best: Seq<T>,
    rest: Seq<T>,
    lt: spec_fn(T, T) -> bool,
    k: usize,
)
    requires
        strict_weak_order(lt),
        k > 0,
        best.len() == k,
        best_so_far(best, rest, lt, k),
        (best + rest).to_multiset() == w.to_multiset(),
    ensures
        is_kth(w, lt, k - 1, best.last()),
{
    let x = best.last();
    let d = best + rest;
    // within `best`
    let head = best.drop_last();
    assert(best =~= head.push(x));
    lemma_count_push(head, x, below(lt, x));
    lemma_count_bound(head, below(lt, x));
    assert forall|i: int| 0 <= i < best.len() implies not_above(lt, x)(#[trigger] best[i]) by {
        if i < k - 1 {
            assert(!lt(best[k - 1], best[i]));
        }
    }
    lemma_count_all(best, not_above(lt, x));
    // within `rest`
    lemma_count_none(rest, below(lt, x));
    lemma_count_concat(best, rest, below(lt, x));
    lemma_count_concat(best, rest, not_above(lt, x));
    assert(d[k - 1] == x);
    assert(d.contains(x));
    lemma_count_permuted(d, w, below(lt, x));
    lemma_count_permuted(d, w, not_above(lt, x));
    vstd::seq_lib::to_multiset_contains(d, x);
    vstd::seq_lib::to_multiset_contains(w, x);
}

/// The state of a binary search for the place of `x` in `best`: the
/// items before `lo` are not above `x`, and those from `hi` on are.
pub open spec fn search_bounds<T>(
    best: Seq<T>,
    lt: spec_fn(T, T) -> bool,
    x: T,
    lo: usize,
    hi: usize,
) -> bool {
    &&& lo <= hi <= best.len()
    &&& forall|j: int| 0 <= j < lo ==> !lt(x, #[trigger] best[j])
    &&& forall|j: int| hi <= j < best.len() ==> lt(x, #[trigger] best[j])
}

/// One step of the binary search: the item at `mid` decides which half is searched on.
pub proof fn lemma_search_step<T>(
    best: Seq<T>,
    lt: spec_fn(T, T) -> bool,
    x: T,
    lo: usize,
    hi: usize,
    mid: usize,
)
    requires
        strict_weak_order(lt),
        ascending(best, lt),
        search_bounds(best, lt, x, lo, hi),
        lo <= mid < hi,
    ensures
        lt(x, best[mid as int]) ==> search_bounds(best, lt, x, lo, mid),
        !lt(x, best[mid as int]) ==> search_bounds(best, lt, x, (mid + 1) as usize, hi),
{
    if lt(x, best[mid as int]) {
        assert forall|j: int| mid <= j < best.len() implies lt(x, #[trigger] best[j]) by {
            if j > mid {
                assert(!lt(best[j], best[mid as int]));
                assert(lt(x, best[j]) || lt(best[j], best[mid as int]));
            }
        }
    } else {
        assert forall|j: int| 0 <= j < mid + 1 implies !lt(x, #[trigger] best[j]) by {
            if j < mid {
                assert(!lt(best[mid as int], best[j]));
                if lt(x, best[j]) {
                    assert(lt(x, best[mid as int]) || lt(best[mid as int], best[j]));
                }
            }
        }
    }
}

/// Where the search ends, the item goes in.
pub proof fn lemma_search_done<T>(best: Seq<T>, lt: spec_fn(T, T) -> bool, x: T, pos: usize)
    requires
        search_bounds(best, lt, x, pos, pos),
    ensures
        insert_place(best, lt, x, pos),
        best.len() > 0 && lt(x, best.last()) ==> pos < best.len(),
{
}

/// The items that references refer to, after a reference went in at `pos`.
pub proof fn lemma_derefs_insert<'a, T>(r: Seq<&'a T>, pos: usize, x: &'a T)
    requires
        pos <= r.len(),
    ensures
        derefs(r.insert(pos as int, x)) == derefs(r).insert(pos as int, *x),
        derefs(r.insert(pos as int, x).drop_last()) == derefs(r).insert(pos as int, *x).drop_last(),
        derefs(r).len() == r.len(),
{
    assert(derefs(r.insert(pos as int, x)) =~= derefs(r).insert(pos as int, *x));
    assert(derefs(r.insert(pos as int, x).drop_last()) =~= derefs(r).insert(
        pos as int,
        *x,
    ).drop_last());
}

} // verus!
