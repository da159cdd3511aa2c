//! The mathematical model of selection: counting the items of a sequence
//! that lie below a value, and what it means for a value to hold a given
//! rank in the sorted order of a sequence.

use vstd::prelude::*;
use vstd::multiset::Multiset;

verus! {

/// Number of items of `s` that satisfy `p`.
pub open spec fn count<T>(s: Seq<T>, p: spec_fn(T) -> bool) -> nat
    decreases s.len(),
{
    if s.len() == 0 {
        0
    } else {
        count(s.drop_last(), p) + if p(s.last()) {
            1nat
        } else {
            0nat
        }
    }
}

/// The items strictly below `x`.
pub open spec fn below<T>(lt: spec_fn(T, T) -> bool, x: T) -> spec_fn(T) -> bool {
    |y: T| lt(y, x)
}

/// The items not above `x`: those below it and those that tie with it.
pub open spec fn not_above<T>(lt: spec_fn(T, T) -> bool, x: T) -> spec_fn(T) -> bool {
    |y: T| !lt(x, y)
}

/// The items strictly above `x`.
pub open spec fn above<T>(lt: spec_fn(T, T) -> bool, x: T) -> spec_fn(T) -> bool {
    |y: T| lt(x, y)
}

/// `lt` is a strict weak order: irreflexive, transitive, and such that
/// being unordered (a tie) is transitive too.
pub open spec fn strict_weak_order<T>(lt: spec_fn(T, T) -> bool) -> bool {
    &&& forall|a: T| !#[trigger] lt(a, a)
    &&& forall|a: T, b: T, c: T| #[trigger] lt(a, b) && #[trigger] lt(b, c) ==> lt(a, c)
    &&& forall|a: T, b: T, c: T| #[trigger] lt(a, c) ==> #[trigger] lt(a, b) || lt(b, c)
}

/// `x` is an item of `s` that holds rank `k` (counted from zero) in the
/// ascending order of `s`: at most `k` items are below it, and more than `k`
/// items are not above it.
pub open spec fn is_kth<T>(s: Seq<T>, lt: spec_fn(T, T) -> bool, k: int, x: T) -> bool {
    &&& s.contains(x)
    &&& count(s, below(lt, x)) <= k < count(s, not_above(lt, x))
}

/// `s` is in ascending order: no later item is below an earlier one.
pub open spec fn ascending<T>(s: Seq<T>, lt: spec_fn(T, T) -> bool) -> bool {
    forall|i: int, j: int| 0 <= i < j < s.len() ==> !lt(#[trigger] s[j], #[trigger] s[i])
}

/// Neither of `a` and `b` is below the other.
pub open spec fn tied<T>(lt: spec_fn(T, T) -> bool, a: T, b: T) -> bool {
    !lt(a, b) && !lt(b, a)
}

/// Appending an item raises the count by one exactly when it satisfies `p`.
pub proof fn lemma_count_push<T>(s: Seq<T>, x: T, p: spec_fn(T) -> bool)
    ensures
        count(s.push(x), p) == count(s, p) + if p(x) { 1nat } else { 0nat },
{
    assert(s.push(x).drop_last() =~= s);
}

/// The count in two sequences joined is the sum of their counts.
pub proof fn lemma_count_concat<T>(a: Seq<T>, b: Seq<T>, p: spec_fn(T) -> bool)
    ensures
        count(a + b, p) == count(a, p) + count(b, p),
    decreases b.len(),
{
    if b.len() == 0 {
        assert(a + b =~= a);
    } else {
        lemma_count_concat(a, b.drop_last(), p);
        assert((a + b).drop_last() =~= a + b.drop_last());
    }
}

/// No more items satisfy `p` than there are items.
pub proof fn lemma_count_bound<T>(s: Seq<T>, p: spec_fn(T) -> bool)
    ensures
        count(s, p) <= s.len(),
    decreases s.len(),
{
    if s.len() > 0 {
        lemma_count_bound(s.drop_last(), p);
    }
}

/// Where every item satisfies `p`, the count is the length.
pub proof fn lemma_count_all<T>(s: Seq<T>, p: spec_fn(T) -> bool)
    requires
        forall|i: int| 0 <= i < s.len() ==> p(#[trigger] s[i]),
    ensures
        count(s, p) == s.len(),
    decreases s.len(),
{
    if s.len() > 0 {
        lemma_count_all(s.drop_last(), p);
    }
}

/// Where no item satisfies `p`, the count is zero.
pub proof fn lemma_count_none<T>(s: Seq<T>, p: spec_fn(T) -> bool)
    requires
        forall|i: int| 0 <= i < s.len() ==> !p(#[trigger] s[i]),
    ensures
        count(s, p) == 0,
    decreases s.len(),
{
    if s.len() > 0 {
        lemma_count_none(s.drop_last(), p);
    }
}

/// Where `p` implies `q` on the items of `s`, no more items satisfy `p` than `q`.
pub proof fn lemma_count_mono<T>(s: Seq<T>, p: spec_fn(T) -> bool, q: spec_fn(T) -> bool)
    requires
        forall|i: int| 0 <= i < s.len() ==> (p(#[trigger] s[i]) ==> q(s[i])),
    ensures
        count(s, p) <= count(s, q),
    decreases s.len(),
{
    if s.len() > 0 {
        lemma_count_mono(s.drop_last(), p, q);
    }
}

/// Predicates that agree on the items of `s` count the same.
pub proof fn lemma_count_same<T>(s: Seq<T>, p: spec_fn(T) -> bool, q: spec_fn(T) -> bool)
    requires
        forall|i: int| 0 <= i < s.len() ==> (p(#[trigger] s[i]) <==> q(s[i])),
    ensures
        count(s, p) == count(s, q),
{
    lemma_count_mono(s, p, q);
    lemma_count_mono(s, q, p);
}

/// The items that satisfy `p` and those that do not make up the whole.
pub proof fn lemma_count_complement<T>(s: Seq<T>, p: spec_fn(T) -> bool)
    ensures
        count(s, p) + count(s, |y: T| !p(y)) == s.len(),
    decreases s.len(),
{
    if s.len() > 0 {
        lemma_count_complement(s.drop_last(), p);
    }
}

/// Taking the item at `i` out lowers the count by one exactly when it satisfies `p`.
pub proof fn lemma_count_remove<T>(s: Seq<T>, i: int, p: spec_fn(T) -> bool)
    requires
        0 <= i < s.len(),
    ensures
        count(s, p) == count(s.remove(i), p) + if p(s[i]) { 1nat } else { 0nat },
{
    let a = s.subrange(0, i);
    let b = s.subrange(i + 1, s.len() as int);
    assert(s =~= a.push(s[i]) + b);
    assert(s.remove(i) =~= a + b);
    lemma_count_concat(a.push(s[i]), b, p);
    lemma_count_concat(a, b, p);
    lemma_count_push(a, s[i], p);
}

/// The count is the size of the multiset of the items that satisfy `p`.
pub proof fn lemma_count_is_filter_len<T>(s: Seq<T>, p: spec_fn(T) -> bool)
    ensures
        count(s, p) == s.to_multiset().filter(p).len(),
    decreases s.len(),
{
    broadcast use vstd::multiset::group_multiset_axioms;
    if s.len() == 0 {
        s.to_multiset_ensures();
        assert(s.to_multiset().len() == 0);
        assert(s.to_multiset().filter(p) =~= Multiset::<T>::empty());
    } else {
        let t = s.drop_last();
        let x = s.last();
        lemma_count_is_filter_len(t, p);
        assert(s =~= t.push(x));
        vstd::seq_lib::to_multiset_build(t, x);
        if p(x) {
            assert(s.to_multiset().filter(p) =~= t.to_multiset().filter(p).insert(x));
        } else {
            assert(s.to_multiset().filter(p) =~= t.to_multiset().filter(p));
        }
    }
}

/// Sequences with the same items, each as often, count the same.
pub proof fn lemma_count_permuted<T>(a: Seq<T>, b: Seq<T>, p: spec_fn(T) -> bool)
    requires
        a.to_multiset() == b.to_multiset(),
    ensures
        count(a, p) == count(b, p),
{
    lemma_count_is_filter_len(a, p);
    lemma_count_is_filter_len(b, p);
}

/// The items that satisfy `p` are those that also satisfy `q` and those that do not.
pub proof fn lemma_count_split<T>(s: Seq<T>, p: spec_fn(T) -> bool, q: spec_fn(T) -> bool)
    ensures
        count(s, p) == count(s, |y: T| p(y) && q(y)) + count(s, |y: T| p(y) && !q(y)),
    decreases s.len(),
{
    if s.len() > 0 {
        lemma_count_split(s.drop_last(), p, q);
    }
}

/// The items above `x` are those that are not "not above" it.
pub proof fn lemma_count_above<T>(w: Seq<T>, lt: spec_fn(T, T) -> bool, x: T)
    ensures
        count(w, above(lt, x)) + count(w, not_above(lt, x)) == w.len(),
{
    lemma_count_complement(w, above(lt, x));
    lemma_count_same(w, |y: T| !above(lt, x)(y), not_above(lt, x));
}

/// An item that no item is below holds rank 0.
pub proof fn lemma_rank_least<T>(w: Seq<T>, lt: spec_fn(T, T) -> bool, i: int)
    requires
        0 <= i < w.len(),
        forall|t: int| 0 <= t < w.len() ==> !lt(#[trigger] w[t], w[i]),
    ensures
        is_kth(w, lt, 0, w[i]),
{
    lemma_count_none(w, below(lt, w[i]));
    lemma_count_remove(w, i, not_above(lt, w[i]));
}

/// An item that is below no item holds the last rank.
pub proof fn lemma_rank_greatest<T>(w: Seq<T>, lt: spec_fn(T, T) -> bool, i: int)
    requires
        strict_weak_order(lt),
        0 <= i < w.len(),
        forall|t: int| 0 <= t < w.len() ==> !lt(w[i], #[trigger] w[t]),
    ensures
        is_kth(w, lt, w.len() - 1, w[i]),
{
    lemma_count_all(w, not_above(lt, w[i]));
    lemma_count_remove(w, i, below(lt, w[i]));
    lemma_count_bound(w.remove(i), below(lt, w[i]));
}

/// The two least items, at two places of the sequence, hold ranks 0 and 1.
pub proof fn lemma_rank_two_least<T>(w: Seq<T>, lt: spec_fn(T, T) -> bool, i: int, j: int)
    requires
        strict_weak_order(lt),
        0 <= i < w.len(),
        0 <= j < w.len(),
        i != j,
        !lt(w[j], w[i]),
        forall|t: int| 0 <= t < w.len() && t != i ==> !lt(#[trigger] w[t], w[j]),
    ensures
        is_kth(w, lt, 0, w[i]),
        is_kth(w, lt, 1, w[j]),
{
    assert forall|t: int| 0 <= t < w.len() implies !lt(#[trigger] w[t], w[i]) by {
        if lt(w[t], w[i]) {
            assert(lt(w[t], w[j]) || lt(w[j], w[i]));
        }
    }
    lemma_rank_least(w, lt, i);
    let r = w.remove(i);
    lemma_count_remove(w, i, below(lt, w[j]));
    assert forall|t: int| 0 <= t < r.len() implies !below(lt, w[j])(#[trigger] r[t]) by {
        if t < i {
            assert(r[t] == w[t]);
        } else {
            assert(r[t] == w[t + 1]);
        }
    }
    lemma_count_none(r, below(lt, w[j]));
    lemma_count_remove(w, i, not_above(lt, w[j]));
    let jr = if j < i { j } else { j - 1 };
    assert(r[jr] == w[j]);
    lemma_count_remove(r, jr, not_above(lt, w[j]));
}

/// The two greatest items, at two places of the sequence, hold the last two ranks.
pub proof fn lemma_rank_two_greatest<T>(w: Seq<T>, lt: spec_fn(T, T) -> bool, i: int, j: int)
    requires
        strict_weak_order(lt),
        0 <= i < w.len(),
        0 <= j < w.len(),
        i != j,
        !lt(w[i], w[j]),
        forall|t: int| 0 <= t < w.len() && t != i ==> !lt(w[j], #[trigger] w[t]),
    ensures
        is_kth(w, lt, w.len() - 1, w[i]),
        is_kth(w, lt, w.len() - 2, w[j]),
{
    assert forall|t: int| 0 <= t < w.len() implies !lt(w[i], #[trigger] w[t]) by {
        if lt(w[i], w[t]) {
            assert(lt(w[i], w[j]) || lt(w[j], w[t]));
        }
    }
    lemma_rank_greatest(w, lt, i);
    let r = w.remove(i);
    lemma_count_remove(w, i, not_above(lt, w[j]));
    assert forall|t: int| 0 <= t < r.len() implies not_above(lt, w[j])(#[trigger] r[t]) by {
        if t < i {
            assert(r[t] == w[t]);
        } else {
            assert(r[t] == w[t + 1]);
        }
    }
    lemma_count_all(r, not_above(lt, w[j]));
    lemma_count_remove(w, i, below(lt, w[j]));
    let jr = if j < i { j } else { j - 1 };
    assert(r[jr] == w[j]);
    lemma_count_remove(r, jr, below(lt, w[j]));
    lemma_count_bound(r.remove(jr), below(lt, w[j]));
}

/// In a sequence whose items all tie with `x`, `x` holds every rank.
pub proof fn lemma_rank_all_tied<T>(w: Seq<T>, lt: spec_fn(T, T) -> bool, x: T, j: int)
    requires
        w.contains(x),
        0 <= j < w.len(),
        forall|t: int| 0 <= t < w.len() ==> tied(lt, #[trigger] w[t], x),
    ensures
        is_kth(w, lt, j, x),
{
    lemma_count_none(w, below(lt, x));
    lemma_count_all(w, not_above(lt, x));
}

/// An item with `lo` items below it and `hi` items above it holds every
/// rank from `lo` up to, but not including, `len - hi`.
pub proof fn lemma_rank_between<T>(w: Seq<T>, lt: spec_fn(T, T) -> bool, x: T, j: int)
    requires
        w.contains(x),
        count(w, below(lt, x)) <= j < w.len() - count(w, above(lt, x)),
    ensures
        is_kth(w, lt, j, x),
{
    lemma_count_above(w, lt, x);
}

/// The order `lt` turned round.
pub open spec fn flipped<T>(lt: spec_fn(T, T) -> bool) -> spec_fn(T, T) -> bool {
    |a: T, b: T| lt(b, a)
}

/// The item at `i` is the first of the least items of `w`.
pub open spec fn is_first_least<T>(w: Seq<T>, lt: spec_fn(T, T) -> bool, i: int) -> bool {
    &&& 0 <= i < w.len()
    &&& forall|t: int| 0 <= t < w.len() ==> !lt(#[trigger] w[t], w[i])
    &&& forall|t: int| 0 <= t < i ==> lt(w[i], #[trigger] w[t])
}

/// The items at `i` and `j`, two places of `w`, are its two least, the one at `i` first.
pub open spec fn two_least<T>(w: Seq<T>, lt: spec_fn(T, T) -> bool, i: int, j: int) -> bool {
    &&& 0 <= i < w.len()
    &&& 0 <= j < w.len()
    &&& i != j
    &&& !lt(w[j], w[i])
    &&& forall|t: int| 0 <= t < w.len() && t != i ==> !lt(#[trigger] w[t], w[j])
}

/// A strict weak order turned round is a strict weak order.
pub proof fn lemma_flipped_order<T>(lt: spec_fn(T, T) -> bool)
    requires
        strict_weak_order(lt),
    ensures
        strict_weak_order(flipped(lt)),
{
    let fl = flipped(lt);
    assert forall|a: T, b: T, c: T| #[trigger] fl(a, b) && #[trigger] fl(b, c) implies fl(a, c) by {
        assert(lt(c, b) && lt(b, a));
    }
    assert forall|a: T, b: T, c: T| #[trigger] fl(a, c) implies #[trigger] fl(a, b) || fl(b, c) by {
        assert(lt(c, a));
        if !lt(c, b) {
            assert(lt(c, b) || lt(b, a));
        }
    }
}

/// The items of `s` from `lo` up to, but not including, `hi`.
pub open spec fn span<T>(s: Seq<T>, lo: usize, hi: usize) -> Seq<T> {
    s.subrange(lo as int, hi as int)
}

/// The item of `s` at `i`.
pub open spec fn item<T>(s: Seq<T>, i: usize) -> T {
    s[i as int]
}

/// `m` is the middle one of `a`, `b` and `c`: it is one of them, and the
/// other two lie one on each side of it.
pub open spec fn is_mid<T>(lt: spec_fn(T, T) -> bool, a: T, b: T, c: T, m: T) -> bool {
    ||| m == a && (!lt(a, b) && !lt(c, a) || !lt(a, c) && !lt(b, a))
    ||| m == b && (!lt(b, a) && !lt(c, b) || !lt(b, c) && !lt(a, b))
    ||| m == c && (!lt(c, a) && !lt(b, c) || !lt(c, b) && !lt(a, c))
}

/// The first item of a sequence is the first of the least of its first one.
pub proof fn lemma_first_least_start<T>(w: Seq<T>, d: spec_fn(T, T) -> bool)
    requires
        strict_weak_order(d),
        w.len() >= 1,
    ensures
        is_first_least(w.take(1), d, 0),
{
}

/// Taking one more item into account: the first of the least is the new
/// item where it is below the one so far, and the one so far otherwise.
pub proof fn lemma_first_least_step<T>(w: Seq<T>, d: spec_fn(T, T) -> bool, k: int, mi: int)
    requires
        strict_weak_order(d),
        0 < k < w.len(),
        is_first_least(w.take(k), d, mi),
    ensures
        is_first_least(w.take(k + 1), d, if d(w[k], w[mi]) { k } else { mi }),
{
    let v = w.take(k);
    let u = w.take(k + 1);
    assert(forall|t: int| 0 <= t < k ==> u[t] == v[t]);
    if d(w[k], w[mi]) {
        assert forall|t: int| 0 <= t < u.len() implies !d(#[trigger] u[t], u[k]) by {
            if t < k && d(v[t], w[k]) {
                assert(d(v[t], v[mi]));
            }
        }
        assert forall|t: int| 0 <= t < k implies d(u[k], #[trigger] u[t]) by {
            assert(d(w[k], v[t]) || d(v[t], v[mi]));
        }
    } else {
        assert forall|t: int| 0 <= t < u.len() implies !d(#[trigger] u[t], u[mi]) by {
            if t < k {
                assert(!d(v[t], v[mi]));
            }
        }
        assert forall|t: int| 0 <= t < mi implies d(u[mi], #[trigger] u[t]) by {
            assert(d(v[mi], v[t]));
        }
    }
}

/// The first two items of a sequence, the lesser first, are the two least of its first two.
pub proof fn lemma_two_least_start<T>(w: Seq<T>, d: spec_fn(T, T) -> bool)
    requires
        strict_weak_order(d),
        w.len() >= 2,
    ensures
        two_least(w.take(2), d, if d(w[1], w[0]) { 1 } else { 0 }, if d(w[1], w[0]) { 0 } else { 1 }),
{
    let u = w.take(2);
    assert(u[0] == w[0] && u[1] == w[1]);
    if d(w[1], w[0]) && d(w[0], w[1]) {
        assert(d(w[0], w[0]));
    }
}

/// Taking one more item into account: it becomes the least, or the second
/// least, where it is below the one so far.
pub proof fn lemma_two_least_step<T>(w: Seq<T>, d: spec_fn(T, T) -> bool, k: int, i1: int, i2: int)
    requires
        strict_weak_order(d),
        0 < k < w.len(),
        two_least(w.take(k), d, i1, i2),
    ensures
        two_least(
            w.take(k + 1),
            d,
            if d(w[k], w[i1]) { k } else { i1 },
            if d(w[k], w[i1]) { i1 } else if d(w[k], w[i2]) { k } else { i2 },
        ),
        d(w[k], w[i1]) ==> d(w[k], w[i2]),
{
    let v = w.take(k);
    let u = w.take(k + 1);
    assert(forall|t: int| 0 <= t < k ==> u[t] == v[t]);
    assert(v[i1] == w[i1] && v[i2] == w[i2]);
    if d(w[k], w[i1]) {
        assert(d(w[k], w[i2])) by {
            assert(d(w[k], w[i2]) || d(w[i2], w[i1]));
        }
        assert(!d(w[i1], w[k])) by {
            if d(w[i1], w[k]) {
                assert(d(w[k], w[k]));
            }
        }
        assert forall|t: int| 0 <= t < u.len() && t != k implies !d(#[trigger] u[t], u[i1]) by {
            if d(v[t], v[i1]) {
                assert(d(v[t], v[i2]) || d(v[i2], v[i1]));
            }
        }
    } else if d(w[k], w[i2]) {
        assert forall|t: int| 0 <= t < u.len() && t != i1 implies !d(#[trigger] u[t], u[k]) by {
            if t < k && d(v[t], w[k]) {
                assert(d(v[t], v[i2]));
            }
        }
    } else {
        assert forall|t: int| 0 <= t < u.len() && t != i1 implies !d(#[trigger] u[t], u[i2]) by {
            if t < k {
                assert(!d(v[t], v[i2]));
            }
        }
    }
}

/// The middle rank of a sequence: half its length, rounded down.
pub open spec fn mid_rank<T>(s: Seq<T>) -> int {
    s.len() as int / 2
}

/// The sequence `s` with the items at `i` and `j` exchanged.
pub open spec fn swapped<T>(s: Seq<T>, i: usize, j: usize) -> Seq<T> {
    s.update(i as int, s[j as int]).update(j as int, s[i as int])
}

/// `r` holds references to the items of `s`, in their order.
pub open spec fn refers_to<'a, T>(r: Seq<&'a T>, s: Seq<T>) -> bool {
    r.len() == s.len() && forall|i: int| 0 <= i < r.len() ==> *#[trigger] r[i] == s[i]
}

/// Counting among references is counting among the items they refer to.
pub proof fn lemma_count_refs<'a, T>(
    r: Seq<&'a T>,
    s: Seq<T>,
    p: spec_fn(T) -> bool,
    q: spec_fn(&'a T) -> bool,
)
    requires
        refers_to(r, s),
        forall|y: &T| #[trigger] q(y) == p(*y),
    ensures
        count(r, q) == count(s, p),
    decreases r.len(),
{
    if r.len() > 0 {
        assert(r.last() == r[r.len() - 1]);
        lemma_count_refs(r.drop_last(), s.drop_last(), p, q);
    }
}

/// A reference that holds a rank among references holds it among the
/// items they refer to.
pub proof fn lemma_kth_refs<'a, T>(
    r: Seq<&'a T>,
    s: Seq<T>,
    lt: spec_fn(T, T) -> bool,
    ltr: spec_fn(&'a T, &'a T) -> bool,
    k: int,
    m: &'a T,
)
    requires
        refers_to(r, s),
        forall|a: &T, b: &T| #[trigger] ltr(a, b) == lt(*a, *b),
        is_kth(r, ltr, k, m),
    ensures
        is_kth(s, lt, k, *m),
{
    lemma_count_refs(r, s, below(lt, *m), below(ltr, m));
    lemma_count_refs(r, s, not_above(lt, *m), not_above(ltr, m));
    let i = choose|i: int| 0 <= i < r.len() && r[i] == m;
    assert(s[i] == *m);
}

/// Two sequences whose items correspond place by place count the same,
/// where the predicates agree on corresponding items.
pub proof fn lemma_count_image<A, B>(
    a: Seq<A>,
    b: Seq<B>,
    p: spec_fn(A) -> bool,
    q: spec_fn(B) -> bool,
)
    requires
        a.len() == b.len(),
        forall|i: int| 0 <= i < a.len() ==> p(#[trigger] a[i]) == q(b[i]),
    ensures
        count(a, p) == count(b, q),
    decreases a.len(),
{
    if a.len() > 0 {
        lemma_count_image(a.drop_last(), b.drop_last(), p, q);
    }
}

/// The items that the references of `r` refer to.
pub open spec fn derefs<'a, T>(r: Seq<&'a T>) -> Seq<T> {
    Seq::new(r.len(), |i: int| *r[i])
}

/// The integer `i` as a `usize`.
pub open spec fn usize_of(i: int) -> usize
    recommends
        0 <= i <= usize::MAX,
{
    i as usize
}

} // verus!
