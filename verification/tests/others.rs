use core::cmp::Ordering;
use medians::algosf64::{max, max2, med_even, med_odd, min, min2, part};
use medians::error::MedError;
use medians::f64bits::{
    by_total_order, is_nan, nans, scrub_nans, to_clean_u64s, to_f64, to_f64s, to_u64, to_u64s,
};
use medians::heap::{heap_ksort, heapify};
use medians::ordered::{ord_vec, quant_vec, Ordered};
use medians::parts::{eqpart, spart};
use medians::pivots::{mid2, middling};
use medians::{medf_checked, medf_unchecked, Medians};

fn scrambled(n: usize, values: u64, seed: u64) -> Vec<u64> {
    let mut x = seed | 1;
    (0..n)
        .map(|_| {
            x ^= x << 13;
            x ^= x >> 7;
            x ^= x << 17;
            x % values
        })
        .collect()
}

fn sorted<T: Ord + Clone>(v: &[T]) -> Vec<T> {
    let mut s = v.to_vec();
    s.sort();
    s
}

#[test]
fn copied_values_against_sort() {
    for n in 1..200usize {
        for values in [1u64, 2, 3, 10, 1 << 40] {
            let data = scrambled(n, values, 53 * n as u64 + values);
            let s = sorted(&data);
            let mut v = data.clone();
            assert_eq!(med_odd(&mut v), s[n / 2], "odd {data:?}");
            if n >= 2 {
                let mut v = data.clone();
                assert_eq!(med_even(&mut v), (s[n / 2 - 1], s[n / 2]), "even {data:?}");
            }
        }
    }
    let mut v = [4u64, 5, 3];
    assert_eq!(med_odd(&mut v), 4);
    let mut v = [5u64, 5, 5];
    assert_eq!(med_odd(&mut v), 5);
    let mut v = [2.5f64, -1.0, 7.0, 0.0, 2.5];
    assert_eq!(med_odd(&mut v), 2.5);
    let mut v = [2.5f64, -1.0, 7.0, 0.0];
    assert_eq!(med_even(&mut v), (0.0, 2.5));
}

#[test]
fn part_drops_ties() {
    for n in 1..30usize {
        let data = scrambled(n, 5, 7 * n as u64);
        for pivot in 0..6u64 {
            let mut v = data.clone();
            let (gtsub, endsub) = part(&mut v, pivot, &(0..n));
            let less: Vec<u64> = data.iter().copied().filter(|&x| x < pivot).collect();
            let greater: Vec<u64> = data.iter().copied().filter(|&x| x > pivot).collect();
            assert_eq!(sorted(&v[..gtsub]), sorted(&less));
            assert_eq!(sorted(&v[gtsub..endsub]), sorted(&greater));
            assert_eq!(n - endsub, n - less.len() - greater.len());
        }
    }
    let mut v = [9u64, 4, 5, 3, 9];
    let (gtsub, endsub) = part(&mut v, 4, &(1..4));
    assert_eq!((gtsub, endsub), (2, 3));
    assert_eq!(v[0], 9);
    assert_eq!(v[4], 9);
    assert_eq!((v[1], v[2]), (3, 5));
    let mut v = [4u64, 5, 3];
    assert_eq!(part(&mut v, 4, &(0..3)), (1, 2));
    assert_eq!((v[0], v[1]), (3, 5));
}

#[test]
fn least_and_greatest() {
    let v = [5u64, 3, 9, 3, 7, 9];
    assert_eq!(min(&v, 0..6), 3);
    assert_eq!(max(&v, 0..6), 9);
    assert_eq!(min(&v, 2..3), 9);
    assert_eq!(max(&v, 3..5), 7);
    assert_eq!(min2(&v, 0..6), (3, 3));
    assert_eq!(max2(&v, 0..6), (9, 9));
    assert_eq!(min2(&v, 0..3), (3, 5));
    assert_eq!(max2(&v, 0..3), (5, 9));
    assert_eq!(max2(&v, 3..5), (3, 7));
    assert_eq!(medians::algosf64::midof3(3, 1, 2), 2);
    assert_eq!(medians::algosf64::midof3(1, 1, 2), 1);
    assert_eq!(medians::algosf64::midof3(2.0, 3.0, 1.0), 2.0);
}

#[test]
fn two_way_partitions() {
    for n in 2..40usize {
        let data = scrambled(n, 6, 11 * n as u64);
        for pivot in 0..7u64 {
            let mut v = data.clone();
            let r = spart(&mut v, 0, n, &pivot);
            assert_eq!(sorted(&v), sorted(&data));
            assert!(v[..r].iter().all(|&x| x <= pivot), "{data:?} {pivot}");
            assert!(v[r..].iter().all(|&x| x >= pivot), "{data:?} {pivot}");
            if n >= 3 {
                let mut v = data.clone();
                let r = eqpart(&mut v, 0, n, &pivot);
                assert_eq!(sorted(&v), sorted(&data));
                assert!(v[..r].iter().all(|&x| x == pivot));
                assert!(v[r..].iter().all(|&x| x != pivot));
            }
        }
    }
    let mut v = [5u64, 1, 0];
    let r = spart(&mut v, 0, 3, &3);
    assert_eq!(r, 2);
    assert_eq!(v, [0, 1, 5]);
    let mut v = [5u64];
    assert_eq!(spart(&mut v, 0, 1, &3), 0);
    let mut v = [9u64, 3, 2, 3, 9];
    let r = eqpart(&mut v, 1, 4, &3);
    assert_eq!(r, 3);
    assert_eq!(v, [9, 3, 3, 2, 9]);
}

#[test]
fn heaps() {
    let set = [4i64, 65, 2, -31, 0, 99, 2, 83, 782, 1];
    // the least item at the root
    let mut idx = heapify(set.len(), |a: usize, b: usize| set[a] > set[b]);
    assert_eq!(sorted(&idx), (0..10).collect::<Vec<usize>>());
    for i in 1..idx.len() {
        assert!(set[idx[(i - 1) / 2]] <= set[idx[i]]);
    }
    let res = heap_ksort(&set, &mut idx, 5, false);
    let got: Vec<i64> = res.iter().map(|&i| set[i]).collect();
    assert_eq!(got, vec![-31, 0, 1, 2, 2]);
    assert_eq!(idx.len(), 5);
    let rest = heap_ksort(&set, &mut idx, 100, false);
    let got: Vec<i64> = rest.iter().map(|&i| set[i]).collect();
    assert_eq!(got, vec![4, 65, 83, 99, 782]);
    assert!(idx.is_empty());
    assert!(heap_ksort(&set, &mut idx, 3, false).is_empty());
    // the greatest item at the root
    let mut idx = heapify(set.len(), |a: usize, b: usize| set[a] < set[b]);
    let res = heap_ksort(&set, &mut idx, 3, true);
    let got: Vec<i64> = res.iter().map(|&i| set[i]).collect();
    assert_eq!(got, vec![782, 99, 83]);
    assert_eq!(heapify(0, |_: usize, _: usize| false), Vec::<usize>::new());
    assert_eq!(heapify(1, |_: usize, _: usize| false), vec![0]);
}

#[test]
fn four_places() {
    let v = [40u64, 10, 30, 20];
    let mut c = |a: usize, b: usize| v[a].cmp(&v[b]);
    // the lesser of the two greater ones
    assert_eq!(middling(0, 1, 2, 3, &mut c), 2);
    assert_eq!(middling(1, 3, 0, 2, &mut c), 3);
    // the two middle ones
    assert_eq!(mid2(0, 1, 2, 3, &mut c), (3, 2));
    assert_eq!(mid2(1, 3, 0, 2, &mut c), (2, 3));
    assert_eq!(mid2(0, 2, 1, 3, &mut c), (2, 3));
}

#[test]
fn middle_of_three_references() {
    let (a, b, d) = (10u64, 30u64, 20u64);
    let mut c = |x: &u64, y: &u64| x.cmp(y);
    assert_eq!(*medians::pivots::midof3(&a, &b, &d, &mut c), 20);
    assert_eq!(*medians::pivots::midof3(&b, &d, &a, &mut c), 20);
    assert_eq!(*medians::pivots::midof3(&d, &a, &b, &mut c), 20);
    assert_eq!(*medians::pivots::midof3(&a, &a, &b, &mut c), 10);
    assert_eq!(*medians::pivots::midof3(&b, &a, &b, &mut c), 30);
}

#[test]
fn wrapped_and_quantified() {
    let words = ["one", "three", "fifteen"];
    assert_eq!(quant_vec(&words, |w: &&str| w.len()), vec![3, 5, 7]);
    assert_eq!(quant_vec(&words[..0], |w: &&str| w.len()), Vec::<usize>::new());
    let wrapped = ord_vec(&words);
    assert_eq!(wrapped.len(), 3);
    assert_eq!(*wrapped[1].0, "three");
    assert_eq!(*wrapped[2].get(), &"fifteen");
    let w = Ordered::from(2.5);
    assert_eq!(w.0, 2.5);
    assert!(Ordered(1.0) < Ordered(2.0));
    assert!(Ordered(2.0) > Ordered(1.0));
    assert!(Ordered(2.0) == Ordered(2.0));
    assert!(Ordered(2.0) != Ordered(1.0));
    assert_eq!(Ordered(2.0).partial_cmp(&Ordered(2.0)), None);
    assert_eq!(Ordered(1.0).partial_cmp(&Ordered(2.0)), Some(Ordering::Less));
    assert!(Ordered(f64::NAN) == Ordered(1.0));
}

#[test]
fn nan_policy() {
    let data = [1.0f64.to_bits(), f64::NAN.to_bits(), 3.0f64.to_bits()];
    assert!(matches!(
        medf_checked(&data),
        Err(MedError::Nan(m)) if m == "medf_checked: Nan in input!"
    ));
    match medf_unchecked(&data) {
        Ok(Medians::Odd(m)) => assert_eq!(f64::from_bits(*m), 3.0),
        _ => panic!("three doubles have one median"),
    }
    let data = [1.0f64.to_bits(), (-f64::NAN).to_bits(), 3.0f64.to_bits()];
    match medf_unchecked(&data) {
        Ok(Medians::Odd(m)) => assert_eq!(f64::from_bits(*m), 1.0),
        _ => panic!("three doubles have one median"),
    }
    assert!(matches!(medf_checked(&data), Err(MedError::Nan(_))));
    assert!(matches!(medf_checked(&[f64::NAN.to_bits()]), Err(MedError::Nan(_))));
    assert!(matches!(
        medf_checked(&[]),
        Err(MedError::Size(m)) if m == "medf_checked: zero length data"
    ));
    assert!(matches!(
        medf_unchecked(&[]),
        Err(MedError::Size(m)) if m == "medf_unchecked: zero length data"
    ));
    let data = [2.0f64.to_bits(), (-1.0f64).to_bits(), 0.5f64.to_bits(), (-0.0f64).to_bits()];
    match medf_checked(&data) {
        Ok(Medians::Even((a, b))) => {
            assert_eq!(*a, (-0.0f64).to_bits());
            assert_eq!(*b, 0.5f64.to_bits());
        }
        _ => panic!("four doubles have two central items"),
    }
}

#[test]
fn total_order_of_patterns() {
    let values = [
        -f64::NAN,
        f64::NEG_INFINITY,
        -2.0,
        -1.0,
        -0.0,
        0.0,
        f64::MIN_POSITIVE,
        1.0,
        2.0,
        f64::INFINITY,
        f64::NAN,
    ];
    for a in values {
        for b in values {
            assert_eq!(
                by_total_order(&a.to_bits(), &b.to_bits()),
                a.total_cmp(&b),
                "{a} {b}"
            );
        }
        assert_eq!(is_nan(a.to_bits()), a.is_nan());
    }
    let bits: Vec<u64> = values.iter().map(|x| x.to_bits()).collect();
    assert!(nans(&bits));
    assert!(!nans(&bits[1..10]));
    assert!(!nans(&[]));
    assert_eq!(scrub_nans(&bits), bits[1..10].to_vec());
}

#[test]
fn patterns_to_integers_and_back() {
    let values = [-f64::NAN, -2.0, -1.0, -0.0, 0.0, 1.0, 2.0, f64::INFINITY, f64::NAN];
    for v in values {
        let u = to_u64(v.to_bits());
        assert_eq!(to_f64(u), v.to_bits());
        assert_eq!(to_u64(to_f64(v.to_bits())), v.to_bits());
    }
    assert_eq!(to_u64(1.0f64.to_bits()), !(1.0f64.to_bits()));
    assert_eq!(to_u64((-1.0f64).to_bits()), 1.0f64.to_bits());
    assert_eq!(to_u64(0), u64::MAX);
    assert_eq!(to_f64(u64::MAX), 0);
    // a negative double goes below a positive one
    assert!(to_u64((-1.0f64).to_bits()) < to_u64(1.0f64.to_bits()));
    // among doubles of one sign the order is turned round
    assert!(to_u64(1.0f64.to_bits()) > to_u64(2.0f64.to_bits()));
    assert!(to_u64((-1.0f64).to_bits()) < to_u64((-2.0f64).to_bits()));
    let bits: Vec<u64> = values.iter().map(|x| x.to_bits()).collect();
    let mapped = to_u64s(&bits);
    assert_eq!(mapped.len(), bits.len());
    assert_eq!(mapped[1], to_u64(bits[1]));
    assert_eq!(to_f64s(&mapped), bits);
    assert_eq!(to_clean_u64s(&bits), mapped[1..8].to_vec());
}
