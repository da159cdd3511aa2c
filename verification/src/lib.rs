//! Medians and order statistics of one-dimensional data, found without a full sort.

use vstd::prelude::*;

pub mod algos;
pub mod algosf64;
pub mod bigend;
pub mod bits;
pub mod error;
pub mod f64bits;
pub mod heap;
pub mod histogram;
pub mod kbest;
pub mod laws;
pub mod order;
pub mod ordered;
pub mod parts;
pub mod pivots;
pub mod rank;
pub mod window;

pub use crate::error::{Me, MedError, merror};
use core::cmp::Ordering;
use crate::algos::{
    evenmedian_by, evenmedianu64, evenmedianu8, is_kth_value, midof3, oddmedian_by,
    oddmedianu64, oddmedianu8, oddmedu64, ref_vec,
};
use crate::bigend::{be_value, lt_be, to_be};
use crate::error::{error_of_kind, error_view};
use crate::f64bits::{by_total_order, is_nan_bits, lt_total, nans};
use crate::laws::{lemma_kth_u64_is_sorted_item, lemma_kth_u8_is_sorted_item, sorted_u64, sorted_u8};
use crate::order::{
    by_ref, by_size_u8, decides, is_comparator, lt_u64, lt_u8, precedes, verdict,
};
use crate::rank::{below, is_kth, lemma_count_image, lemma_kth_refs, mid_rank, not_above, refers_to};

verus! {

/// The median of data of odd length, or the two central items of data of
/// even length, as references into the data.
pub enum Medians<'a, T> {
    /// The single median of data of odd length.
    Odd(&'a T),
    /// The two central items of data of even length, in ascending order.
    Even((&'a T, &'a T)),
}

/// What `medianu64` returns for the data `data`.
pub open spec fn is_median_of(data: Seq<u64>, r: Result<Medians<u64>, Me>) -> bool {
    if data.len() == 0 {
        r is Err && error_view(r->Err_0) == error_of_kind("size"@, "medu: zero length data"@)
    } else if data.len() % 2 == 1 {
        r matches Ok(Medians::Odd(m)) && *m == sorted_u64(data)[mid_rank(data)]
    } else {
        r matches Ok(Medians::Even((m1, m2))) && *m1 == sorted_u64(data)[mid_rank(data) - 1] && *m2
            == sorted_u64(data)[mid_rank(data)]
    }
}

/// The median of 64-bit unsigned integers, by partitioning on their bits:
/// the item of the middle rank where their number is odd, the two items of
/// the two middle ranks, in ascending order, where it is even. No data is a
/// size error. Reorders the data.
pub fn medianu64(s: &mut [u64]) -> (r: Result<Medians<u64>, Me>)
    ensures
        final(s)@.to_multiset() == old(s)@.to_multiset(),
        is_median_of(old(s)@, r),
{
    let n = s.len();
    if n == 0 {
        return merror("size", "medu: zero length data");
    }
    if n == 1 {
        proof {
            crate::rank::lemma_rank_least(s@, lt_u64(), 0);
            lemma_kth_u64_is_sorted_item(s@, 0, s@[0]);
        }
        return Ok(Medians::Odd(&s[0]));
    }
    if n == 2 {
        proof {
            if s@[1] < s@[0] {
                crate::rank::lemma_rank_two_least(s@, lt_u64(), 1, 0);
                lemma_kth_u64_is_sorted_item(s@, 0, s@[1]);
                lemma_kth_u64_is_sorted_item(s@, 1, s@[0]);
            } else {
                crate::rank::lemma_rank_two_least(s@, lt_u64(), 0, 1);
                lemma_kth_u64_is_sorted_item(s@, 0, s@[0]);
                lemma_kth_u64_is_sorted_item(s@, 1, s@[1]);
            }
        }
        if s[1] < s[0] {
            return Ok(Medians::Even((&s[1], &s[0])));
        }
        return Ok(Medians::Even((&s[0], &s[1])));
    }
    if (n & 1) == 1 {
        proof {
            assert(n & 1 == 1 ==> n % 2 == 1) by (bit_vector);
        }
        Ok(Medians::Odd(oddmedianu64(s)))
    } else {
        proof {
            assert(n & 1 != 1 ==> n % 2 == 0) by (bit_vector);
        }
        Ok(Medians::Even(evenmedianu64(s)))
    }
}

/// What `medianu8` returns for the data `data`.
pub open spec fn is_median_u8(data: Seq<u8>, r: Result<(u8, u8), Me>) -> bool {
    if data.len() == 0 {
        r is Err && error_view(r->Err_0) == error_of_kind("size"@, "median: zero length data"@)
    } else {
        r matches Ok(m) && m.0 == sorted_u8(data)[(data.len() - 1) / 2] && m.1 == sorted_u8(
            data,
        )[mid_rank(data)]
    }
}

/// The median of three bytes.
fn mid_u8(s: &[u8]) -> (m: u8)
    requires
        s@.len() == 3,
    ensures
        is_kth(s@, lt_u8(), 1, m),
{
    let mut c = |a: &u8, b: &u8| -> (o: Ordering)
        ensures
            o == verdict(lt_u8(), *a, *b),
        { by_size_u8(a, b) };
    proof {
        assert(decides::<u8, _>(c, lt_u8()));
    }
    let indx = midof3(s, 0, 1, 2, &mut c);
    proof {
        crate::window::lemma_window_whole(s@, crate::rank::span(s@, 0, 3), lt_u8());
        crate::window::lemma_select_mid3(s@, s@, 0, 3, lt_u8(), crate::rank::item(s@, indx));
    }
    s[indx]
}

/// The median of bytes, from a histogram of the data: the byte of the
/// middle rank, twice, where their number is odd; the two bytes of the two
/// middle ranks, in ascending order, where it is even. No data is a size
/// error.
pub fn medianu8(s: &[u8]) -> (r: Result<(u8, u8), Me>)
    ensures
        is_median_u8(s@, r),
{
    let n = s.len();
    if n == 0 {
        return merror("size", "median: zero length data");
    }
    if (n & 1) == 1 {
        proof {
            assert(n & 1 == 1 ==> n % 2 == 1) by (bit_vector);
        }
        if n == 1 {
            proof {
                crate::rank::lemma_rank_least(s@, lt_u8(), 0);
                lemma_kth_u8_is_sorted_item(s@, 0, s@[0]);
            }
            Ok((s[0], s[0]))
        } else if n == 3 {
            let m = mid_u8(s);
            proof {
                lemma_kth_u8_is_sorted_item(s@, 1, m);
            }
            Ok((m, m))
        } else {
            let m = oddmedianu8(s);
            Ok((m, m))
        }
    } else {
        proof {
            assert(n & 1 != 1 ==> n % 2 == 0) by (bit_vector);
        }
        if n == 2 {
            proof {
                if s@[1] < s@[0] {
                    crate::rank::lemma_rank_two_least(s@, lt_u8(), 1, 0);
                    lemma_kth_u8_is_sorted_item(s@, 0, s@[1]);
                    lemma_kth_u8_is_sorted_item(s@, 1, s@[0]);
                } else {
                    crate::rank::lemma_rank_two_least(s@, lt_u8(), 0, 1);
                    lemma_kth_u8_is_sorted_item(s@, 0, s@[0]);
                    lemma_kth_u8_is_sorted_item(s@, 1, s@[1]);
                }
            }
            if s[1] < s[0] {
                Ok((s[1], s[0]))
            } else {
                Ok((s[0], s[1]))
            }
        } else {
            let (m1, m2) = evenmedianu8(s);
            Ok((m1, m2))
        }
    }
}

/// What `median_by` returns for the data `data`, by an order `lt` that the
/// comparator decides.
pub open spec fn is_median_by<T>(
    data: Seq<T>,
    lt: spec_fn(T, T) -> bool,
    r: Result<Medians<T>, Me>,
) -> bool {
    if data.len() == 0 {
        r is Err && error_view(r->Err_0) == error_of_kind("size"@, "median_ord: zero length data"@)
    } else if data.len() % 2 == 1 {
        r matches Ok(Medians::Odd(m)) && is_kth(data, lt, mid_rank(data), *m)
    } else {
        r matches Ok(Medians::Even((m1, m2))) && is_kth(data, lt, mid_rank(data) - 1, *m1)
            && is_kth(data, lt, mid_rank(data), *m2)
    }
}

/// The median of items of any type, by the comparator `c`: a reference to
/// an item of the middle rank where their number is odd, references to
/// items of the two middle ranks, in ascending order, where it is even. No
/// data is a size error. The data is not changed.
pub fn median_by<'a, T>(s: &'a [T], c: &mut impl FnMut(&T, &T) -> Ordering) -> (r: Result<
    Medians<'a, T>,
    Me,
>)
    requires
        is_comparator::<T, _>(*old(c)),
    ensures
        *final(c) == *old(c),
        forall|lt: spec_fn(T, T) -> bool| #[trigger]
            decides::<T, _>(*old(c), lt) ==> is_median_by(s@, lt, r),
{
    let n = s.len();
    if n == 0 {
        return merror("size", "median_ord: zero length data");
    }
    if n == 1 {
        proof {
            assert forall|lt: spec_fn(T, T) -> bool| #[trigger]
                decides::<T, _>(*c, lt) implies is_kth(s@, lt, 0, s@[0]) by {
                crate::rank::lemma_rank_least(s@, lt, 0);
            }
        }
        return Ok(Medians::Odd(&s[0]));
    }
    if n == 2 {
        let p = precedes(c, &s[1], &s[0], false);
        proof {
            assert forall|lt: spec_fn(T, T) -> bool| #[trigger]
                decides::<T, _>(*c, lt) implies is_kth(s@, lt, 0, if p { s@[1] } else { s@[0] })
                && is_kth(s@, lt, 1, if p { s@[0] } else { s@[1] }) by {
                if lt(s@[1], s@[0]) {
                    if lt(s@[0], s@[1]) {
                        assert(lt(s@[0], s@[0]));
                    }
                    crate::rank::lemma_rank_two_least(s@, lt, 1, 0);
                } else {
                    crate::rank::lemma_rank_two_least(s@, lt, 0, 1);
                }
            }
        }
        if p {
            return Ok(Medians::Even((&s[1], &s[0])));
        }
        return Ok(Medians::Even((&s[0], &s[1])));
    }
    let mut refs = ref_vec(s, 0..n);
    let ghost r0 = refs@;
    proof {
        assert(refers_to(r0, s@));
    }
    if (n & 1) == 1 {
        let m = oddmedian_by(refs.as_mut_slice(), c);
        proof {
            assert(n & 1 == 1 ==> n % 2 == 1) by (bit_vector);
            assert forall|lt: spec_fn(T, T) -> bool| #[trigger]
                decides::<T, _>(*c, lt) implies is_kth(s@, lt, mid_rank(s@), *m) by {
                lemma_kth_refs(r0, s@, lt, by_ref(lt), mid_rank(r0), m);
            }
        }
        Ok(Medians::Odd(m))
    } else {
        let pair = evenmedian_by(refs.as_mut_slice(), c);
        proof {
            assert(n & 1 != 1 ==> n % 2 == 0) by (bit_vector);
            assert forall|lt: spec_fn(T, T) -> bool| #[trigger]
                decides::<T, _>(*c, lt) implies is_kth(s@, lt, mid_rank(s@) - 1, *pair.0)
                && is_kth(s@, lt, mid_rank(s@), *pair.1) by {
                lemma_kth_refs(r0, s@, lt, by_ref(lt), mid_rank(r0) - 1, pair.0);
                lemma_kth_refs(r0, s@, lt, by_ref(lt), mid_rank(r0), pair.1);
            }
        }
        Ok(Medians::Even(pair))
    }
}

/// What `medu64` returns for the data `data`.
pub open spec fn is_median_pair(data: Seq<u64>, r: Result<(u64, u64), Me>) -> bool {
    if data.len() == 0 {
        r is Err && error_view(r->Err_0) == error_of_kind("size"@, "medu64: zero length data"@)
    } else {
        r matches Ok(m) && m.0 == sorted_u64(data)[(data.len() - 1) / 2] && m.1 == sorted_u64(
            data,
        )[mid_rank(data)]
    }
}

/// The integers as byte arrays, the most significant byte first.
pub fn be_bytes_of(s: &[u64]) -> (r: Vec<[u8; 8]>)
    ensures
        r@.len() == s@.len(),
        forall|i: int| 0 <= i < r@.len() ==> be_value(#[trigger] r@[i]) == s@[i],
{
    let mut r: Vec<[u8; 8]> = Vec::new();
    let mut i: usize = 0;
    while i < s.len()
        invariant
            i <= s@.len(),
            r@.len() == i,
            forall|j: int| 0 <= j < i ==> be_value(#[trigger] r@[j]) == s@[j],
        decreases s@.len() - i,
    {
        r.push(to_be(s[i]));
        i += 1;
    }
    r
}

/// A value that holds a rank among byte arrays holds it among the
/// integers that they stand for.
pub proof fn lemma_kth_value(bytes: Seq<[u8; 8]>, s: Seq<u64>, k: int, m: u64)
    requires
        bytes.len() == s.len(),
        forall|i: int| 0 <= i < bytes.len() ==> be_value(#[trigger] bytes[i]) == s[i],
        is_kth_value(bytes, k, m),
    ensures
        is_kth(s, lt_u64(), k, m),
{
    let i = choose|i: int|
        0 <= i < bytes.len() && m == be_value(#[trigger] bytes[i]) && is_kth(
            bytes,
            lt_be(),
            k,
            bytes[i],
        );
    let x = bytes[i];
    assert(s[i] == m);
    lemma_count_image(bytes, s, below(lt_be(), x), below(lt_u64(), m));
    lemma_count_image(bytes, s, not_above(lt_be(), x), not_above(lt_u64(), m));
}

/// The median of 64-bit unsigned integers as a pair: the item of the
/// middle rank, twice, where their number is odd, found byte by byte from
/// histograms; the two items of the two middle ranks, in ascending order,
/// where it is even, found by partitioning on their bits. No data is a size
/// error. Reorders the data.
pub fn medu64(s: &mut [u64]) -> (r: Result<(u64, u64), Me>)
    ensures
        final(s)@.to_multiset() == old(s)@.to_multiset(),
        is_median_pair(old(s)@, r),
{
    let n = s.len();
    if n == 0 {
        return merror("size", "medu64: zero length data");
    }
    if (n & 1) == 1 {
        let byteslice = be_bytes_of(s);
        proof {
            assert(n & 1 == 1 ==> n % 2 == 1) by (bit_vector);
        }
        let res = oddmedu64(byteslice.as_slice(), 0, n / 2);
        proof {
            lemma_kth_value(byteslice@, s@, mid_rank(s@), res);
            lemma_kth_u64_is_sorted_item(s@, mid_rank(s@), res);
        }
        Ok((res, res))
    } else {
        proof {
            assert(n & 1 != 1 ==> n % 2 == 0) by (bit_vector);
        }
        let pair = evenmedianu64(s);
        Ok((*pair.0, *pair.1))
    }
}

/// What `medf_checked` returns for the patterns `data`.
pub open spec fn is_checked_median(data: Seq<u64>, r: Result<Medians<u64>, Me>) -> bool {
    if data.len() == 0 {
        r is Err && error_view(r->Err_0) == error_of_kind(
            "size"@,
            "medf_checked: zero length data"@,
        )
    } else if exists|i: int| 0 <= i < data.len() && is_nan_bits(#[trigger] data[i]) {
        r is Err && error_view(r->Err_0) == error_of_kind("nan"@, "medf_checked: Nan in input!"@)
    } else {
        is_median_by(data, lt_total(), r)
    }
}

/// What `medf_unchecked` returns for the patterns `data`.
pub open spec fn is_unchecked_median(data: Seq<u64>, r: Result<Medians<u64>, Me>) -> bool {
    if data.len() == 0 {
        r is Err && error_view(r->Err_0) == error_of_kind(
            "size"@,
            "medf_unchecked: zero length data"@,
        )
    } else {
        is_median_by(data, lt_total(), r)
    }
}

/// The median of doubles, given as their patterns, in the total order of
/// the doubles. No data is a size error, and a NaN among the data is a NaN
/// error.
pub fn medf_checked(v: &[u64]) -> (r: Result<Medians<u64>, Me>)
    ensures
        is_checked_median(v@, r),
{
    if v.len() == 0 {
        return merror("size", "medf_checked: zero length data");
    }
    if nans(v) {
        return merror("nan", "medf_checked: Nan in input!");
    }
    let mut c = |a: &u64, b: &u64| -> (o: Ordering)
        ensures
            o == verdict(lt_total(), *a, *b),
        { by_total_order(a, b) };
    proof {
        assert(decides::<u64, _>(c, lt_total()));
    }
    median_by(v, &mut c)
}

/// The median of doubles, given as their patterns, in the total order of
/// the doubles, in which the NaNs come first and last. No data is a size
/// error.
pub fn medf_unchecked(v: &[u64]) -> (r: Result<Medians<u64>, Me>)
    ensures
        is_unchecked_median(v@, r),
{
    if v.len() == 0 {
        return merror("size", "medf_unchecked: zero length data");
    }
    let mut c = |a: &u64, b: &u64| -> (o: Ordering)
        ensures
            o == verdict(lt_total(), *a, *b),
        { by_total_order(a, b) };
    proof {
        assert(decides::<u64, _>(c, lt_total()));
    }
    median_by(v, &mut c)
}

} // verus!
