//! Selection from a histogram: one counter for each value that an item can
//! take, walked in ascending order of the values.

use vstd::prelude::*;
use crate::bigend::key_byte;

use crate::rank::{count, is_kth, lemma_count_push, lemma_count_same, lemma_count_split};

verus! {

/// The sum of the first `k` counters of `h`.
pub open spec fn prefix_sum(h: Seq<usize>, k: int) -> int
    decreases k,
{
    if k <= 0 {
        0
    } else {
        prefix_sum(h, k - 1) + h[k - 1]
    }
}

/// The sum grows with the number of counters taken.
pub proof fn lemma_prefix_sum_grows(h: Seq<usize>, j: int, k: int)
    requires
        0 <= j <= k <= h.len(),
    ensures
        prefix_sum(h, j) <= prefix_sum(h, k),
    decreases k - j,
{
    if j < k {
        lemma_prefix_sum_grows(h, j, k - 1);
    }
}

/// The items with key `v`.
pub open spec fn key_is<T>(key: spec_fn(T) -> int, v: int) -> spec_fn(T) -> bool {
    |y: T| key(y) == v
}

/// The items with a key below `k`.
pub open spec fn key_below<T>(key: spec_fn(T) -> int, k: int) -> spec_fn(T) -> bool {
    |y: T| key(y) < k
}

/// `h` is the histogram of `s` by `key`: its counter `v` is the number of
/// items of `s` with key `v`, and every key has a counter.
pub open spec fn is_histogram<T>(h: Seq<usize>, s: Seq<T>, key: spec_fn(T) -> int) -> bool {
    &&& forall|i: int| 0 <= i < s.len() ==> 0 <= #[trigger] key(s[i]) < h.len()
    &&& forall|v: int| 0 <= v < h.len() ==> #[trigger] h[v] == count(s, key_is(key, v))
}

/// The first `k` counters of a histogram add up to the number of items with a key below `k`.
pub proof fn lemma_prefix_sum_counts<T>(h: Seq<usize>, s: Seq<T>, key: spec_fn(T) -> int, k: int)
    requires
        is_histogram(h, s, key),
        0 <= k <= h.len(),
    ensures
        prefix_sum(h, k) == count(s, key_below(key, k)),
        k == h.len() ==> prefix_sum(h, k) == s.len(),
    decreases k,
{
    let below_k = key_below(key, k);
    if k == 0 {
        crate::rank::lemma_count_none(s, below_k);
    } else {
        lemma_prefix_sum_counts(h, s, key, k - 1);
        let below_prev = key_below(key, k - 1);
        lemma_count_split(s, below_k, below_prev);
        lemma_count_same(s, |y: T| below_k(y) && below_prev(y), below_prev);
        lemma_count_same(s, |y: T| below_k(y) && !below_prev(y), key_is(key, k - 1));
    }
    if k == h.len() {
        crate::rank::lemma_count_all(s, below_k);
    }
}

/// An item that satisfies `p` is found wherever the count of such items is not zero.
pub proof fn lemma_count_witness<T>(s: Seq<T>, p: spec_fn(T) -> bool) -> (i: int)
    requires
        count(s, p) > 0,
    ensures
        0 <= i < s.len(),
        p(s[i]),
    decreases s.len(),
{
    if p(s.last()) {
        s.len() - 1
    } else {
        lemma_count_witness(s.drop_last(), p)
    }
}

/// The bucket that holds rank `k`: the one at which the running sum of the
/// counters first exceeds `k`.
pub open spec fn holds_rank(h: Seq<usize>, b: int, k: int) -> bool {
    0 <= b < h.len() && prefix_sum(h, b) <= k < prefix_sum(h, b + 1)
}

/// An item whose key is the bucket that holds rank `k` holds rank `k`
/// in an order that, among the items, is the order of the keys; and there
/// is such an item.
pub proof fn lemma_bucket_rank<T>(
    h: Seq<usize>,
    s: Seq<T>,
    key: spec_fn(T) -> int,
    lt: spec_fn(T, T) -> bool,
    b: int,
    k: int,
) -> (i: int)
    requires
        is_histogram(h, s, key),
        holds_rank(h, b, k),
        forall|i: int, j: int|
            0 <= i < s.len() && 0 <= j < s.len() ==> (lt(#[trigger] s[i], #[trigger] s[j]) <==> key(
                s[i],
            ) < key(s[j])),
    ensures
        0 <= i < s.len(),
        key(s[i]) == b,
        forall|t: int| 0 <= t < s.len() && key(#[trigger] s[t]) == b ==> is_kth(s, lt, k, s[t]),
{
    lemma_prefix_sum_counts(h, s, key, b);
    lemma_prefix_sum_counts(h, s, key, b + 1);
    let i = lemma_count_witness(s, key_is(key, b));
    assert forall|t: int| 0 <= t < s.len() && key(#[trigger] s[t]) == b implies is_kth(
        s,
        lt,
        k,
        s[t],
    ) by {
        let x = s[t];
        assert forall|j: int| 0 <= j < s.len() implies (crate::rank::below(lt, x)(#[trigger] s[j])
            <==> key_below(key, b)(s[j])) by {
            assert(lt(s[j], s[t]) <==> key(s[j]) < key(s[t]));
        }
        lemma_count_same(s, crate::rank::below(lt, x), key_below(key, b));
        assert forall|j: int| 0 <= j < s.len() implies (crate::rank::not_above(lt, x)(
            #[trigger] s[j],
        ) <==> key_below(key, b + 1)(s[j])) by {
            assert(lt(s[t], s[j]) <==> key(s[t]) < key(s[j]));
        }
        lemma_count_same(s, crate::rank::not_above(lt, x), key_below(key, b + 1));
    }
    i
}

/// The items with the key of one bucket are a window, whose base is the
/// number of items with a smaller key, in an order that puts an item with a
/// smaller key below one with a greater key.
pub proof fn lemma_bucket_window<T>(
    h: Seq<usize>,
    s: Seq<T>,
    sub: Seq<T>,
    key: spec_fn(T) -> int,
    lt: spec_fn(T, T) -> bool,
    b: int,
)
    requires
        crate::rank::strict_weak_order(lt),
        is_histogram(h, s, key),
        0 <= b < h.len(),
        crate::window::kept(s, sub, key_is(key, b)),
        forall|i: int, j: int|
            0 <= i < s.len() && 0 <= j < s.len() && key(#[trigger] s[i]) < key(#[trigger] s[j])
                ==> lt(s[i], s[j]),
    ensures
        crate::window::window(s, sub, lt, prefix_sum(h, b)),
{
    lemma_prefix_sum_counts(h, s, key, b);
    crate::window::lemma_window_whole(s, s, lt);
    crate::window::lemma_window_keep_mid(s, s, sub, lt, 0, key_is(key, b), key_below(key, b));
}

/// The bucket of the histogram `hist` that holds rank `need`.
pub fn rank_bucket(hist: &[usize], need: usize) -> (b: usize)
    requires
        need < prefix_sum(hist@, hist@.len() as int) <= usize::MAX,
    ensures
        holds_rank(hist@, b as int, need as int),
{
    let n = hist.len();
    let mut cummulator: usize = 0;
    let mut i: usize = 0;
    while i + 1 < n
        invariant
            n == hist@.len(),
            n > 0,
            i < n,
            cummulator == prefix_sum(hist@, i as int),
            cummulator <= need < prefix_sum(hist@, n as int) <= usize::MAX,
        decreases n - i,
    {
        proof {
            lemma_prefix_sum_grows(hist@, i + 1, n as int);
        }
        cummulator += hist[i];
        if need < cummulator {
            return i;
        }
        i += 1;
    }
    n - 1
}

/// The bucket of the histogram `hist` that holds rank `need`, and the sum
/// of the counters before it.
pub fn rank_bucket_base(hist: &[usize], need: usize) -> (b: (usize, usize))
    requires
        need < prefix_sum(hist@, hist@.len() as int) <= usize::MAX,
    ensures
        holds_rank(hist@, b.0 as int, need as int),
        b.1 == prefix_sum(hist@, b.0 as int),
{
    let n = hist.len();
    let mut cummulator: usize = 0;
    let mut i: usize = 0;
    while i + 1 < n
        invariant
            n == hist@.len(),
            n > 0,
            i < n,
            cummulator == prefix_sum(hist@, i as int),
            cummulator <= need < prefix_sum(hist@, n as int) <= usize::MAX,
        decreases n - i,
    {
        proof {
            lemma_prefix_sum_grows(hist@, i + 1, n as int);
        }
        let h = hist[i];
        if need < cummulator + h {
            return (i, cummulator);
        }
        cummulator += h;
        i += 1;
    }
    (n - 1, cummulator)
}

/// The buckets of the histogram `hist` that hold ranks `need - 1` and `need`.
pub fn rank_buckets(hist: &[usize], need: usize) -> (b: (usize, usize))
    requires
        0 < need < prefix_sum(hist@, hist@.len() as int) <= usize::MAX,
    ensures
        holds_rank(hist@, b.0 as int, need - 1),
        holds_rank(hist@, b.1 as int, need as int),
{
    let n = hist.len();
    let mut cummulator: usize = 0;
    let mut firstres = true;
    let mut res1: usize = n - 1;
    let mut i: usize = 0;
    while i + 1 < n
        invariant
            n == hist@.len(),
            n > 0,
            i < n,
            cummulator == prefix_sum(hist@, i as int),
            0 < need < prefix_sum(hist@, n as int) <= usize::MAX,
            firstres ==> cummulator < need,
            !firstres ==> cummulator == need && holds_rank(hist@, res1 as int, need - 1),
        decreases n - i,
    {
        proof {
            lemma_prefix_sum_grows(hist@, i + 1, n as int);
        }
        let hist_i = hist[i];
        if hist_i != 0 {
            cummulator += hist_i;
            if firstres {
                if cummulator > need {
                    // the sum exceeds the need: both items are in this bucket
                    return (i, i);
                }
                if cummulator == need {
                    // the first item is the last of this bucket
                    res1 = i;
                    firstres = false;
                }
            } else {
                // the second item is in the next bucket that is not empty
                return (res1, i);
            }
        }
        i += 1;
    }
    if firstres {
        (n - 1, n - 1)
    } else {
        (res1, n - 1)
    }
}

/// The key of a byte: its value.
pub open spec fn key_u8() -> spec_fn(u8) -> int {
    |y: u8| y as int
}

/// The key of a 16-bit integer: its value.
pub open spec fn key_u16() -> spec_fn(u16) -> int {
    |y: u16| y as int
}

/// The histogram of bytes: 256 counters.
pub fn tally_u8(s: &[u8]) -> (hist: Vec<usize>)
    ensures
        hist@.len() == 256,
        is_histogram(hist@, s@, key_u8()),
{
    let mut hist: Vec<usize> = vec![0usize; 256];
    let mut i: usize = 0;
    proof {
        assert forall|v: int| 0 <= v < 256 implies #[trigger] hist@[v] == count(
            s@.take(0),
            key_is(key_u8(), v),
        ) by {}
    }
    while i < s.len()
        invariant
            i <= s@.len(),
            hist@.len() == 256,
            forall|v: int|
                0 <= v < 256 ==> #[trigger] hist@[v] == count(s@.take(i as int), key_is(key_u8(), v)),
        decreases s@.len() - i,
    {
        let u = s[i] as usize;
        proof {
            let t = s@.take(i as int);
            assert(s@.take(i + 1) =~= t.push(s@[i as int]));
            assert forall|v: int| 0 <= v < 256 implies count(
                s@.take(i + 1),
                key_is(key_u8(), v),
            ) == count(t, key_is(key_u8(), v)) + if v == u { 1nat } else { 0nat } by {
                lemma_count_push(t, s@[i as int], key_is(key_u8(), v));
            }
            crate::rank::lemma_count_bound(t, key_is(key_u8(), u as int));
        }
        let c = hist[u];
        hist[u] = c + 1;
        i += 1;
    }
    proof {
        assert(s@.take(s@.len() as int) =~= s@);
    }
    hist
}

/// The histogram of 16-bit integers: 65536 counters.
pub fn tally_u16(s: &[u16]) -> (hist: Vec<usize>)
    ensures
        hist@.len() == 65536,
        is_histogram(hist@, s@, key_u16()),
{
    let mut hist: Vec<usize> = vec![0usize; 65536];
    let mut i: usize = 0;
    proof {
        assert forall|v: int| 0 <= v < 65536 implies #[trigger] hist@[v] == count(
            s@.take(0),
            key_is(key_u16(), v),
        ) by {}
    }
    while i < s.len()
        invariant
            i <= s@.len(),
            hist@.len() == 65536,
            forall|v: int|
                0 <= v < 65536 ==> #[trigger] hist@[v] == count(
                    s@.take(i as int),
                    key_is(key_u16(), v),
                ),
        decreases s@.len() - i,
    {
        let u = s[i] as usize;
        proof {
            let t = s@.take(i as int);
            assert(s@.take(i + 1) =~= t.push(s@[i as int]));
            assert forall|v: int| 0 <= v < 65536 implies count(
                s@.take(i + 1),
                key_is(key_u16(), v),
            ) == count(t, key_is(key_u16(), v)) + if v == u { 1nat } else { 0nat } by {
                lemma_count_push(t, s@[i as int], key_is(key_u16(), v));
            }
            crate::rank::lemma_count_bound(t, key_is(key_u16(), u as int));
        }
        let c = hist[u];
        hist[u] = c + 1;
        i += 1;
    }
    proof {
        assert(s@.take(s@.len() as int) =~= s@);
    }
    hist
}

/// The histogram of the byte at `byteno` of the items: 256 counters.
pub fn tally_byte(bytes: &[[u8; 8]], byteno: usize) -> (hist: Vec<usize>)
    requires
        byteno < 8,
    ensures
        hist@.len() == 256,
        is_histogram(hist@, bytes@, key_byte(byteno as int)),
{
    let ghost key = key_byte(byteno as int);
    let mut hist: Vec<usize> = vec![0usize; 256];
    let mut i: usize = 0;
    proof {
        assert forall|v: int| 0 <= v < 256 implies #[trigger] hist@[v] == count(
            bytes@.take(0),
            key_is(key, v),
        ) by {}
    }
    while i < bytes.len()
        invariant
            byteno < 8,
            key == key_byte(byteno as int),
            i <= bytes@.len(),
            hist@.len() == 256,
            forall|v: int|
                0 <= v < 256 ==> #[trigger] hist@[v] == count(bytes@.take(i as int), key_is(key, v)),
        decreases bytes@.len() - i,
    {
        let item = bytes[i];
        let u = item[byteno] as usize;
        proof {
            let t = bytes@.take(i as int);
            assert(bytes@.take(i + 1) =~= t.push(bytes@[i as int]));
            assert forall|v: int| 0 <= v < 256 implies count(bytes@.take(i + 1), key_is(key, v))
                == count(t, key_is(key, v)) + if v == u { 1nat } else { 0nat } by {
                lemma_count_push(t, bytes@[i as int], key_is(key, v));
            }
            crate::rank::lemma_count_bound(t, key_is(key, u as int));
        }
        let c = hist[u];
        hist[u] = c + 1;
        i += 1;
    }
    proof {
        assert(bytes@.take(bytes@.len() as int) =~= bytes@);
    }
    hist
}

} // verus!
