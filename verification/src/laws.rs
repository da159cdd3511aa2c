//! What holds of every selection: a value that holds a rank is the value
//! found at that place when the data is sorted, it does not depend on the
//! order of the data, and no other value holds the rank.

use vstd::prelude::*;
use vstd::relations::{total_ordering};
use crate::order::{lt_u16, lt_u64, lt_u8};
use crate::rank::{
    above, ascending, below, is_kth, lemma_count_all, lemma_count_bound, lemma_count_concat,
    lemma_count_mono, lemma_count_none, lemma_count_permuted, not_above, strict_weak_order,
    tied,
};

verus! {

/// In a sequence in ascending order, the item at place `k` holds rank `k`.
pub proof fn lemma_sorted_rank<T>(p: Seq<T>, lt: spec_fn(T, T) -> bool, k: int)
    requires
        strict_weak_order(lt),
        ascending(p, lt),
        0 <= k < p.len(),
    ensures
        is_kth(p, lt, k, p[k]),
{
    let x = p[k];
    let head = p.take(k);
    let tail = p.skip(k);
    assert(p =~= head + tail);
    // no item from place `k` on is below `x`
    lemma_count_concat(head, tail, below(lt, x));
    lemma_count_bound(head, below(lt, x));
    assert forall|i: int| 0 <= i < tail.len() implies !below(lt, x)(#[trigger] tail[i]) by {
        assert(tail[i] == p[k + i]);
        if i > 0 {
            assert(!lt(p[k + i], p[k]));
        }
    }
    lemma_count_none(tail, below(lt, x));
    // every item up to place `k` is not above `x`
    let upto = p.take(k + 1);
    let rest = p.skip(k + 1);
    assert(p =~= upto + rest);
    lemma_count_concat(upto, rest, not_above(lt, x));
    assert forall|i: int| 0 <= i < upto.len() implies not_above(lt, x)(#[trigger] upto[i]) by {
        assert(upto[i] == p[i]);
        if i < k {
            assert(!lt(p[k], p[i]));
        }
    }
    lemma_count_all(upto, not_above(lt, x));
}

/// Selection does not depend on the order of the data: a value that holds
/// a rank in a sequence holds it in every reordering of the sequence.
pub proof fn lemma_kth_permuted<T>(s: Seq<T>, s2: Seq<T>, lt: spec_fn(T, T) -> bool, k: int, x: T)
    requires
        s.to_multiset() == s2.to_multiset(),
        is_kth(s, lt, k, x),
    ensures
        is_kth(s2, lt, k, x),
{
    lemma_count_permuted(s, s2, below(lt, x));
    lemma_count_permuted(s, s2, not_above(lt, x));
    vstd::seq_lib::to_multiset_contains(s, x);
    vstd::seq_lib::to_multiset_contains(s2, x);
}

/// Selection is determined by the data: two values that hold the same rank
/// in a sequence tie with each other.
pub proof fn lemma_kth_unique<T>(s: Seq<T>, lt: spec_fn(T, T) -> bool, k: int, x: T, y: T)
    requires
        strict_weak_order(lt),
        is_kth(s, lt, k, x),
        is_kth(s, lt, k, y),
    ensures
        tied(lt, x, y),
{
    if lt(x, y) {
        assert forall|i: int| 0 <= i < s.len() && not_above(lt, x)(#[trigger] s[i]) implies below(
            lt,
            y,
        )(s[i]) by {
            assert(lt(x, s[i]) || lt(s[i], y));
        }
        lemma_count_mono(s, not_above(lt, x), below(lt, y));
    }
    if lt(y, x) {
        assert forall|i: int| 0 <= i < s.len() && not_above(lt, y)(#[trigger] s[i]) implies below(
            lt,
            x,
        )(s[i]) by {
            assert(lt(y, s[i]) || lt(s[i], x));
        }
        lemma_count_mono(s, not_above(lt, y), below(lt, x));
    }
}

/// Selection agrees with sorting: a value that holds rank `k` in a
/// sequence ties with the item at place `k` of every reordering of the
/// sequence that is in ascending order.
pub proof fn lemma_kth_in_sorted<T>(
    s: Seq<T>,
    p: Seq<T>,
    lt: spec_fn(T, T) -> bool,
    k: int,
    x: T,
)
    requires
        strict_weak_order(lt),
        ascending(p, lt),
        p.to_multiset() == s.to_multiset(),
        is_kth(s, lt, k, x),
    ensures
        0 <= k < p.len(),
        tied(lt, x, p[k]),
{
    lemma_kth_permuted(s, p, lt, k, x);
    lemma_count_bound(p, not_above(lt, x));
    lemma_sorted_rank(p, lt, k);
    lemma_kth_unique(p, lt, k, x, p[k]);
}

/// Selection from data whose items all tie with each other: whatever
/// holds a rank ties with every item.
pub proof fn lemma_kth_all_tied<T>(s: Seq<T>, lt: spec_fn(T, T) -> bool, k: int, x: T)
    requires
        forall|i: int, j: int|
            0 <= i < s.len() && 0 <= j < s.len() ==> tied(lt, #[trigger] s[i], #[trigger] s[j]),
        is_kth(s, lt, k, x),
    ensures
        forall|i: int| 0 <= i < s.len() ==> tied(lt, x, #[trigger] s[i]),
{
    let ix = choose|i: int| 0 <= i < s.len() && s[i] == x;
    assert forall|i: int| 0 <= i < s.len() implies tied(lt, x, #[trigger] s[i]) by {
        assert(tied(lt, s[ix], s[i]));
    }
}

/// Selection from data of one item: the item holds rank 0, and nothing else does.
pub proof fn lemma_kth_of_one<T>(s: Seq<T>, lt: spec_fn(T, T) -> bool, k: int, x: T)
    requires
        strict_weak_order(lt),
        s.len() == 1,
    ensures
        is_kth(s, lt, 0, s[0]),
        is_kth(s, lt, k, x) ==> k == 0 && x == s[0],
{
    crate::rank::lemma_rank_least(s, lt, 0);
    if is_kth(s, lt, k, x) {
        lemma_count_bound(s, not_above(lt, x));
        let i = choose|i: int| 0 <= i < s.len() && s[i] == x;
    }
}

/// Selection from data of two items: the two central items are the two
/// items, the one that is not above the other first.
pub proof fn lemma_kth_of_two<T>(s: Seq<T>, lt: spec_fn(T, T) -> bool, a: T, b: T)
    requires
        strict_weak_order(lt),
        s.len() == 2,
        is_kth(s, lt, 0, a),
        is_kth(s, lt, 1, b),
    ensures
        !lt(b, a),
        tied(lt, a, s[0]) && tied(lt, b, s[1]) || tied(lt, a, s[1]) && tied(lt, b, s[0]),
{
    let p = if lt(s[1], s[0]) {
        seq![s[1], s[0]]
    } else {
        seq![s[0], s[1]]
    };
    if lt(s[1], s[0]) && lt(s[0], s[1]) {
        assert(lt(s[0], s[0]));
    }
    assert(ascending(p, lt));
    assert(p.to_multiset() =~= s.to_multiset()) by {
        broadcast use vstd::multiset::group_multiset_axioms;
        let e = Seq::<T>::empty();
        assert(s =~= e.push(s[0]).push(s[1]));
        assert(p =~= e.push(p[0]).push(p[1]));
        vstd::seq_lib::to_multiset_build(e, s[0]);
        vstd::seq_lib::to_multiset_build(e.push(s[0]), s[1]);
        vstd::seq_lib::to_multiset_build(e, p[0]);
        vstd::seq_lib::to_multiset_build(e.push(p[0]), p[1]);
    }
    lemma_kth_in_sorted(s, p, lt, 0, a);
    lemma_kth_in_sorted(s, p, lt, 1, b);
    if lt(b, a) {
        assert(lt(b, p[0]) || lt(p[0], a));
        assert(lt(b, p[1]) || lt(p[1], p[0]));
    }
}

/// "Not above" by size.
pub open spec fn le_u64() -> spec_fn(u64, u64) -> bool {
    |a: u64, b: u64| a <= b
}

/// The data in ascending order.
pub open spec fn sorted_u64(s: Seq<u64>) -> Seq<u64> {
    s.sort_by(le_u64())
}

/// Selection of integers agrees with a full sort: the value that holds
/// rank `k` is the item at place `k` of the sorted data.
pub proof fn lemma_kth_u64_is_sorted_item(s: Seq<u64>, k: int, x: u64)
    requires
        is_kth(s, lt_u64(), k, x),
    ensures
        0 <= k < s.len(),
        x == sorted_u64(s)[k],
{
    let p = sorted_u64(s);
    assert(total_ordering(le_u64()));
    s.lemma_sort_by_ensures(le_u64());
    assert(ascending(p, lt_u64())) by {
        assert forall|i: int, j: int| 0 <= i < j < p.len() implies !lt_u64()(
            #[trigger] p[j],
            #[trigger] p[i],
        ) by {
            assert(le_u64()(p[i], p[j]));
        }
    }
    lemma_kth_in_sorted(s, p, lt_u64(), k, x);
    vstd::seq_lib::to_multiset_len(s);
    vstd::seq_lib::to_multiset_len(p);
}

/// "Not above" by size, for bytes.
pub open spec fn le_u8() -> spec_fn(u8, u8) -> bool {
    |a: u8, b: u8| a <= b
}

/// The bytes in ascending order.
pub open spec fn sorted_u8(s: Seq<u8>) -> Seq<u8> {
    s.sort_by(le_u8())
}

/// Selection of bytes agrees with a full sort: the byte that holds rank
/// `k` is the item at place `k` of the sorted data.
pub proof fn lemma_kth_u8_is_sorted_item(s: Seq<u8>, k: int, x: u8)
    requires
        is_kth(s, lt_u8(), k, x),
    ensures
        0 <= k < s.len(),
        x == sorted_u8(s)[k],
{
    let p = sorted_u8(s);
    assert(total_ordering(le_u8()));
    s.lemma_sort_by_ensures(le_u8());
    assert(ascending(p, lt_u8())) by {
        assert forall|i: int, j: int| 0 <= i < j < p.len() implies !lt_u8()(
            #[trigger] p[j],
            #[trigger] p[i],
        ) by {
            assert(le_u8()(p[i], p[j]));
        }
    }
    lemma_kth_in_sorted(s, p, lt_u8(), k, x);
    vstd::seq_lib::to_multiset_len(s);
    vstd::seq_lib::to_multiset_len(p);
}

/// "Not above" by size, for 16-bit integers.
pub open spec fn le_u16() -> spec_fn(u16, u16) -> bool {
    |a: u16, b: u16| a <= b
}

/// The 16-bit integers in ascending order.
pub open spec fn sorted_u16(s: Seq<u16>) -> Seq<u16> {
    s.sort_by(le_u16())
}

/// Selection of 16-bit integers agrees with a full sort: the value that
/// holds rank `k` is the item at place `k` of the sorted data.
pub proof fn lemma_kth_u16_is_sorted_item(s: Seq<u16>, k: int, x: u16)
    requires
        is_kth(s, lt_u16(), k, x),
    ensures
        0 <= k < s.len(),
        x == sorted_u16(s)[k],
{
    let p = sorted_u16(s);
    assert(total_ordering(le_u16()));
    s.lemma_sort_by_ensures(le_u16());
    assert(ascending(p, lt_u16())) by {
        assert forall|i: int, j: int| 0 <= i < j < p.len() implies !lt_u16()(
            #[trigger] p[j],
            #[trigger] p[i],
        ) by {
            assert(le_u16()(p[i], p[j]));
        }
    }
    lemma_kth_in_sorted(s, p, lt_u16(), k, x);
    vstd::seq_lib::to_multiset_len(s);
    vstd::seq_lib::to_multiset_len(p);
}

/// Selection of integers does not depend on the order of the data: data
/// with the same items, each as often, has the same value at every rank.
pub proof fn lemma_kth_u64_permuted(s: Seq<u64>, s2: Seq<u64>, k: int, x: u64, y: u64)
    requires
        s.to_multiset() == s2.to_multiset(),
        is_kth(s, lt_u64(), k, x),
        is_kth(s2, lt_u64(), k, y),
    ensures
        x == y,
{
    lemma_kth_permuted(s, s2, lt_u64(), k, x);
    lemma_kth_unique(s2, lt_u64(), k, x, y);
}

/// Selection from integers that are all equal returns that value.
pub proof fn lemma_kth_u64_all_equal(s: Seq<u64>, v: u64, k: int, x: u64)
    requires
        forall|i: int| 0 <= i < s.len() ==> #[trigger] s[i] == v,
        is_kth(s, lt_u64(), k, x),
    ensures
        x == v,
{
    let i = choose|i: int| 0 <= i < s.len() && s[i] == x;
    assert(s[i] == v);
}

/// The sorted data does not depend on the order of the data: data with
/// the same items, each as often, sorts to the same sequence, and so has
/// the same medians.
pub proof fn lemma_sorted_u64_permuted(s: Seq<u64>, s2: Seq<u64>)
    requires
        s.to_multiset() == s2.to_multiset(),
    ensures
        sorted_u64(s) == sorted_u64(s2),
{
    assert(total_ordering(le_u64()));
    s.lemma_sort_by_ensures(le_u64());
    s2.lemma_sort_by_ensures(le_u64());
    vstd::seq_lib::lemma_sorted_unique(sorted_u64(s), sorted_u64(s2), le_u64());
}

/// The sorted bytes do not depend on the order of the data.
pub proof fn lemma_sorted_u8_permuted(s: Seq<u8>, s2: Seq<u8>)
    requires
        s.to_multiset() == s2.to_multiset(),
    ensures
        sorted_u8(s) == sorted_u8(s2),
{
    assert(total_ordering(le_u8()));
    s.lemma_sort_by_ensures(le_u8());
    s2.lemma_sort_by_ensures(le_u8());
    vstd::seq_lib::lemma_sorted_unique(sorted_u8(s), sorted_u8(s2), le_u8());
}

/// Data whose items are all equal to `v` sorts to itself, so that each
/// of its medians is `v`.
pub proof fn lemma_sorted_u64_all_equal(s: Seq<u64>, v: u64, k: int)
    requires
        forall|i: int| 0 <= i < s.len() ==> #[trigger] s[i] == v,
        0 <= k < s.len(),
    ensures
        sorted_u64(s)[k] == v,
{
    assert(total_ordering(le_u64()));
    s.lemma_sort_by_ensures(le_u64());
    let p = sorted_u64(s);
    vstd::seq_lib::to_multiset_len(s);
    vstd::seq_lib::to_multiset_len(p);
    vstd::seq_lib::to_multiset_contains(s, p[k]);
    vstd::seq_lib::to_multiset_contains(p, p[k]);
    assert(p.contains(p[k]));
    let i = choose|i: int| 0 <= i < s.len() && s[i] == p[k];
    assert(s[i] == v);
}

} // verus!
