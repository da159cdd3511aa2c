use medians::algos::{
    best_k, best_two, evenmedian_by, evenmedianu16, evenmedianu64, evenmedianu8, extremum, midof3,
    midof3_refs, midofmids, oddmedian_by, oddmedianu16, oddmedianu64, oddmedianu8, oddmedu64,
    part_binary, select, FIRST_BIT,
};
use medians::error::MedError;
use medians::{median_by, medianu64, medianu8, medu64, Medians};
use ran::{ranv_u16, ranv_u64, ranv_u8};

/// Data of `n` items that repeats a few values in a scrambled order.
fn scrambled(n: usize, values: u64, seed: u64) -> Vec<u64> {
    let mut x = seed | 1;
    (0..n)
        .map(|_| {
            x ^= x << 13;
            x ^= x >> 7;
            x ^= x << 17;
            x % values
        })
        .collect()
}

fn sorted<T: Ord + Clone>(v: &[T]) -> Vec<T> {
    let mut s = v.to_vec();
    s.sort();
    s
}

#[test]
fn fifteen_and_sixteen() {
    let mut odd: Vec<u64> = (1..=15).collect();
    assert_eq!(*oddmedianu64(&mut odd), 8);
    let mut even: Vec<u64> = (1..=16).collect();
    let (a, b) = evenmedianu64(&mut even);
    assert_eq!((*a, *b), (8, 9));
    assert_eq!((*a as f64 + *b as f64) / 2.0, 8.5);
    let odd: Vec<u64> = (1..=15).collect();
    match median_by(&odd, &mut |a: &u64, b: &u64| a.cmp(b)) {
        Ok(Medians::Odd(m)) => assert_eq!(*m, 8),
        _ => panic!("fifteen items have one median"),
    }
    let even: Vec<u64> = (1..=16).collect();
    match median_by(&even, &mut |a: &u64, b: &u64| a.cmp(b)) {
        Ok(Medians::Even((a, b))) => assert_eq!((*a, *b), (8, 9)),
        _ => panic!("sixteen items have two central items"),
    }
    let bytes: Vec<u8> = (1..=15).collect();
    assert_eq!(medianu8(&bytes).ok(), Some((8, 8)));
    let bytes: Vec<u8> = (1..=16).collect();
    assert_eq!(medianu8(&bytes).ok(), Some((8, 9)));
}

#[test]
fn million_bytes() {
    let data = ranv_u8(1_000_000).expect("million_bytes: random data");
    let s = sorted(&data);
    let (m1, m2) = medianu8(&data).expect("million_bytes: data is not empty");
    assert_eq!((m1, m2), (s[499_999], s[500_000]));
    let naive = (s[499_999] as f64 + s[500_000] as f64) / 2.0;
    assert_eq!((m1 as f64 + m2 as f64) / 2.0, naive);
}

#[test]
fn radix_against_sort() {
    for n in 1..40usize {
        for values in [1u64, 2, 3, 7, 1000, u64::MAX] {
            for seed in 1..6u64 {
                let data = scrambled(n, values, seed * 7919 + n as u64);
                let s = sorted(&data);
                let mut v = data.clone();
                assert_eq!(*oddmedianu64(&mut v), s[n / 2], "odd {data:?}");
                assert_eq!(sorted(&v), s);
                if n >= 2 {
                    let mut v = data.clone();
                    let (a, b) = evenmedianu64(&mut v);
                    assert_eq!((*a, *b), (s[n / 2 - 1], s[n / 2]), "even {data:?}");
                    assert_eq!(sorted(&v), s);
                }
                let mut v = data.clone();
                match medianu64(&mut v) {
                    Ok(Medians::Odd(m)) => {
                        assert_eq!(n % 2, 1);
                        assert_eq!(*m, s[n / 2]);
                    }
                    Ok(Medians::Even((a, b))) => {
                        assert_eq!(n % 2, 0);
                        assert_eq!((*a, *b), (s[n / 2 - 1], s[n / 2]));
                    }
                    Err(_) => panic!("data is not empty"),
                }
                let mut v = data.clone();
                assert_eq!(medu64(&mut v).ok(), Some((s[(n - 1) / 2], s[n / 2])));
            }
        }
    }
}

#[test]
fn radix_large_values() {
    let data = vec![u64::MAX, 0, FIRST_BIT, FIRST_BIT - 1, 1, u64::MAX - 1, FIRST_BIT + 1];
    let s = sorted(&data);
    let mut v = data.clone();
    assert_eq!(*oddmedianu64(&mut v), s[3]);
    let mut v = data.clone();
    let (a, b) = evenmedianu64(&mut v);
    assert_eq!((*a, *b), (s[2], s[3]));
    let mut v = data.clone();
    assert_eq!(medu64(&mut v).ok(), Some((s[3], s[3])));
}

#[test]
fn part_binary_splits() {
    let mut data = [7u64, 8, 1, 16, 9, 24, 0, 8];
    let gt = part_binary(&mut data, &(1..7), 8);
    assert_eq!(data[0], 7);
    assert_eq!(data[7], 8);
    assert_eq!(gt, 4);
    assert_eq!(sorted(&data[1..4]), vec![0, 1, 16]);
    assert_eq!(sorted(&data[4..7]), vec![8, 9, 24]);
    let mut none = [1u64, 2, 3];
    assert_eq!(part_binary(&mut none, &(1..1), 1), 1);
    assert_eq!(none, [1, 2, 3]);
    let mut zeros = [2u64, 4, 6];
    assert_eq!(part_binary(&mut zeros, &(0..3), 1), 3);
    let mut ones = [1u64, 3, 5];
    assert_eq!(part_binary(&mut ones, &(0..3), 1), 0);
}

#[test]
fn empty_data_is_a_size_error() {
    let mut none: Vec<u64> = vec![];
    assert!(matches!(medianu64(&mut none), Err(MedError::Size(m)) if m == "medu: zero length data"));
    assert!(matches!(medu64(&mut none), Err(MedError::Size(_))));
    let none: Vec<u8> = vec![];
    assert!(matches!(medianu8(&none), Err(MedError::Size(m)) if m == "median: zero length data"));
    let none: Vec<String> = vec![];
    assert!(matches!(
        median_by(&none, &mut |a: &String, b: &String| a.cmp(b)),
        Err(MedError::Size(m)) if m == "median_ord: zero length data"
    ));
}

#[test]
fn boundary_sizes() {
    let mut one = [42u64];
    assert!(matches!(medianu64(&mut one), Ok(Medians::Odd(&42))));
    let mut two = [9u64, 4];
    assert!(matches!(medianu64(&mut two), Ok(Medians::Even((&4, &9)))));
    let mut two = [4u64, 9];
    assert!(matches!(medianu64(&mut two), Ok(Medians::Even((&4, &9)))));
    for three in [[1u64, 2, 3], [1, 3, 2], [2, 1, 3], [2, 3, 1], [3, 1, 2], [3, 2, 1], [2, 2, 1]] {
        let mut v = three;
        assert!(matches!(medianu64(&mut v), Ok(Medians::Odd(&2))));
        assert!(matches!(
            median_by(&three, &mut |a: &u64, b: &u64| a.cmp(b)),
            Ok(Medians::Odd(&2))
        ));
        let bytes = [three[0] as u8, three[1] as u8, three[2] as u8];
        assert_eq!(medianu8(&bytes).ok(), Some((2, 2)));
    }
    assert_eq!(medianu8(&[5]).ok(), Some((5, 5)));
    assert_eq!(medianu8(&[9, 4]).ok(), Some((4, 9)));
    assert!(matches!(
        median_by(&[9u64, 4], &mut |a: &u64, b: &u64| a.cmp(b)),
        Ok(Medians::Even((&4, &9)))
    ));
    assert!(matches!(
        median_by(&[7u64], &mut |a: &u64, b: &u64| a.cmp(b)),
        Ok(Medians::Odd(&7))
    ));
}

#[test]
fn all_equal_data() {
    for n in 1..130usize {
        let data = vec![5u64; n];
        let mut v = data.clone();
        assert_eq!(*oddmedianu64(&mut v), 5);
        if n >= 2 {
            let mut v = data.clone();
            let (a, b) = evenmedianu64(&mut v);
            assert_eq!((*a, *b), (5, 5));
        }
        let mut v = data.clone();
        assert_eq!(medu64(&mut v).ok(), Some((5, 5)));
        match median_by(&data, &mut |a: &u64, b: &u64| a.cmp(b)) {
            Ok(Medians::Odd(m)) => assert_eq!(*m, 5),
            Ok(Medians::Even((a, b))) => assert_eq!((*a, *b), (5, 5)),
            Err(_) => panic!("data is not empty"),
        }
        let bytes = vec![5u8; n];
        assert_eq!(medianu8(&bytes).ok(), Some((5, 5)));
    }
}

#[test]
fn generic_against_sort() {
    for n in 1..260usize {
        for values in [1u64, 2, 3, 10, 1 << 40] {
            let data = scrambled(n, values, 31 * n as u64 + values);
            let s = sorted(&data);
            let mut refs: Vec<&u64> = data.iter().collect();
            let m = oddmedian_by(&mut refs, &mut |a: &u64, b: &u64| a.cmp(b));
            assert_eq!(*m, s[n / 2], "odd {n} {values}");
            if n >= 2 {
                let mut refs: Vec<&u64> = data.iter().collect();
                let (a, b) = evenmedian_by(&mut refs, &mut |a: &u64, b: &u64| a.cmp(b));
                assert_eq!((*a, *b), (s[n / 2 - 1], s[n / 2]), "even {n} {values}");
            }
            // in descending order
            let mut refs: Vec<&u64> = data.iter().collect();
            let m = oddmedian_by(&mut refs, &mut |a: &u64, b: &u64| b.cmp(a));
            assert_eq!(*m, s[n - 1 - n / 2]);
        }
    }
}

#[test]
fn generic_with_ties_between_different_items() {
    // compared by their first letter only
    let words = ["bee", "ant", "cow", "asp", "bat", "cat", "ape", "bug", "cub"];
    let mut c = |a: &&str, b: &&str| a.as_bytes()[0].cmp(&b.as_bytes()[0]);
    match median_by(&words, &mut c) {
        Ok(Medians::Odd(m)) => assert_eq!(m.as_bytes()[0], b'b'),
        _ => panic!("nine words have one median"),
    }
    match median_by(&words[..8], &mut c) {
        Ok(Medians::Even((a, b))) => {
            assert_eq!(a.as_bytes()[0], b'b');
            assert_eq!(b.as_bytes()[0], b'b');
        }
        _ => panic!("eight words have two central items"),
    }
    match median_by(&words[..4], &mut c) {
        Ok(Medians::Even((a, b))) => {
            assert_eq!(a.as_bytes()[0], b'a');
            assert_eq!(b.as_bytes()[0], b'b');
        }
        _ => panic!("four words have two central items"),
    }
}

#[test]
fn histograms_against_sort() {
    for n in [1usize, 2, 3, 4, 5, 10, 101, 1000] {
        let data = ranv_u8(n).expect("histograms_against_sort: random bytes");
        let s = sorted(&data);
        assert_eq!(oddmedianu8(&data), s[n / 2]);
        assert_eq!(medianu8(&data).ok(), Some((s[(n - 1) / 2], s[n / 2])));
        let wide = ranv_u16(n).expect("histograms_against_sort: random integers");
        let w = sorted(&wide);
        assert_eq!(oddmedianu16(&wide), w[n / 2]);
        if n >= 2 {
            assert_eq!(evenmedianu8(&data), (s[n / 2 - 1], s[n / 2]));
            assert_eq!(evenmedianu16(&wide), (w[n / 2 - 1], w[n / 2]));
        }
    }
    assert_eq!(oddmedianu8(&[255, 255, 0]), 255);
    assert_eq!(evenmedianu8(&[255, 0]), (0, 255));
    assert_eq!(evenmedianu8(&[255, 255, 255, 0]), (255, 255));
    assert_eq!(evenmedianu8(&[0, 0, 7, 7]), (0, 7));
    assert_eq!(oddmedianu16(&[65535, 0, 65535]), 65535);
    assert_eq!(evenmedianu16(&[65535, 0, 3, 3]), (3, 3));
}

#[test]
fn bytewise_against_sort() {
    for n in [1usize, 2, 3, 5, 7, 8, 9, 20, 300] {
        for values in [1u64, 3, 256, 70000, u64::MAX] {
            let data = scrambled(n, values, 17 * n as u64 + values);
            let s = sorted(&data);
            let bytes: Vec<[u8; 8]> = data.iter().map(|x| x.to_be_bytes()).collect();
            for need in [0, n / 2, n - 1] {
                assert_eq!(oddmedu64(&bytes, 0, need), s[need], "{n} {values} {need}");
            }
        }
    }
    let data = ranv_u64(1001).expect("bytewise_against_sort: random data");
    let s = sorted(&data);
    let bytes: Vec<[u8; 8]> = data.iter().map(|x| x.to_be_bytes()).collect();
    assert_eq!(oddmedu64(&bytes, 0, 500), s[500]);
}

#[test]
fn select_by_byte() {
    let items = [
        [0u8, 1, 2, 3, 4, 5, 6, 7],
        [9, 1, 2, 3, 4, 5, 6, 7],
        [0, 1, 5, 3, 4, 5, 6, 7],
        [0, 1, 2, 3, 4, 5, 6, 8],
    ];
    assert_eq!(select(&items, 0, 0), vec![items[0], items[2], items[3]]);
    assert_eq!(select(&items, 2, 5), vec![items[2]]);
    assert_eq!(select(&items, 7, 7), vec![items[0], items[1], items[2]]);
    assert_eq!(select(&items, 7, 1), Vec::<[u8; 8]>::new());
}

#[test]
fn extremes_and_pairs() {
    let v = [5u64, 3, 9, 3, 7, 9];
    let mut up = |a: &u64, b: &u64| a.cmp(b);
    let mut down = |a: &u64, b: &u64| b.cmp(a);
    assert_eq!(*extremum(&v, 0..6, &mut up), 3);
    assert_eq!(*extremum(&v, 0..6, &mut down), 9);
    assert_eq!(*extremum(&v, 4..5, &mut up), 7);
    assert!(std::ptr::eq(extremum(&v, 0..6, &mut up), &v[1]));
    assert!(std::ptr::eq(extremum(&v, 0..6, &mut down), &v[2]));
    let (a, b) = best_two(&v, 0..6, &mut up);
    assert_eq!((*a, *b), (3, 3));
    let (a, b) = best_two(&v, 0..6, &mut down);
    assert_eq!((*a, *b), (9, 9));
    let (a, b) = best_two(&v, 0..3, &mut up);
    assert_eq!((*a, *b), (3, 5));
    let (a, b) = best_two(&v, 3..5, &mut down);
    assert_eq!((*a, *b), (7, 3));
}

#[test]
fn middle_of_three() {
    let v = [10u64, 30, 20, 20];
    let mut c = |a: &u64, b: &u64| a.cmp(b);
    for (i, j, k) in [(0, 1, 2), (0, 2, 1), (1, 0, 2), (1, 2, 0), (2, 0, 1), (2, 1, 0)] {
        assert_eq!(v[midof3(&v, i, j, k, &mut c)], 20);
        let refs: Vec<&u64> = v.iter().collect();
        assert_eq!(*refs[midof3_refs(&refs, i, j, k, &mut c)], 20);
    }
    assert_eq!(v[midof3(&v, 2, 3, 0, &mut c)], 20);
    assert_eq!(v[midof3(&v, 0, 0, 1, &mut c)], 10);
}

#[test]
fn pivot_estimate() {
    let data: Vec<u64> = (0..200).map(|x| (x * 37) % 200).collect();
    let refs: Vec<&u64> = data.iter().collect();
    let mut c = |a: &u64, b: &u64| a.cmp(b);
    assert_eq!(*midofmids(&refs, 0..1, &mut c), data[0]);
    assert_eq!(*midofmids(&refs, 5..7, &mut c), data[5]);
    let m = *midofmids(&refs, 0..3, &mut c);
    assert_eq!(m, sorted(&data[0..3])[1]);
    let m = *midofmids(&refs, 10..21, &mut c);
    assert_eq!(m, sorted(&[data[10], data[15], data[20]])[1]);
    let m = *midofmids(&refs, 0..200, &mut c);
    let m1 = sorted(&[data[0], data[100], data[199]])[1];
    let m2 = sorted(&[data[1], data[101], data[198]])[1];
    let m3 = sorted(&[data[2], data[102], data[197]])[1];
    assert_eq!(m, sorted(&[m1, m2, m3])[1]);
}

#[test]
fn kth_best() {
    let data = scrambled(50, 20, 99);
    for (lo, hi) in [(0usize, 50usize), (10, 30), (7, 8)] {
        let s = sorted(&data[lo..hi]);
        for k in 1..=(hi - lo) {
            assert_eq!(*best_k(&data, k, lo..hi, |a: &u64, b: &u64| a.cmp(b)), s[k - 1]);
            assert_eq!(
                *best_k(&data, k, lo..hi, |a: &u64, b: &u64| b.cmp(a)),
                s[hi - lo - k]
            );
        }
    }
}

#[test]
fn repeated_selection_agrees() {
    for n in [1usize, 2, 5, 64, 129, 1000] {
        let data = scrambled(n, 50, 3 * n as u64 + 1);
        let mut first = data.clone();
        let mut second = data.clone();
        assert_eq!(medu64(&mut first).ok(), medu64(&mut second).ok());
        let a = match median_by(&data, &mut |a: &u64, b: &u64| a.cmp(b)) {
            Ok(Medians::Odd(m)) => (*m, *m),
            Ok(Medians::Even((a, b))) => (*a, *b),
            Err(_) => panic!("data is not empty"),
        };
        let copy = data.clone();
        let b = match median_by(&copy, &mut |a: &u64, b: &u64| a.cmp(b)) {
            Ok(Medians::Odd(m)) => (*m, *m),
            Ok(Medians::Even((a, b))) => (*a, *b),
            Err(_) => panic!("data is not empty"),
        };
        assert_eq!(a, b);
        // what a selection has reordered gives the same medians again
        assert_eq!(medu64(&mut first).ok(), medu64(&mut second).ok());
        let mut third = first.clone();
        assert_eq!(medu64(&mut third).ok(), Some(a));
    }
}

#[test]
fn order_of_the_data_does_not_matter() {
    for n in [1usize, 2, 3, 8, 33, 200] {
        let data = scrambled(n, 25, 5 * n as u64 + 2);
        let mut v = data.clone();
        let want = medu64(&mut v).ok();
        let keys = scrambled(n, u64::MAX, 77 + n as u64);
        for round in 0..5u64 {
            // a reordering of the data
            let mut order: Vec<usize> = (0..n).collect();
            order.sort_by_key(|&i| keys[i].rotate_left(round as u32 * 7) ^ round);
            let shuffled: Vec<u64> = order.iter().map(|&i| data[i]).collect();
            let mut v = shuffled.clone();
            assert_eq!(medu64(&mut v).ok(), want);
            let mut v = shuffled.clone();
            let got = match medianu64(&mut v) {
                Ok(Medians::Odd(m)) => Some((*m, *m)),
                Ok(Medians::Even((a, b))) => Some((*a, *b)),
                Err(_) => None,
            };
            assert_eq!(got, want);
            let got = match median_by(&shuffled, &mut |a: &u64, b: &u64| a.cmp(b)) {
                Ok(Medians::Odd(m)) => Some((*m, *m)),
                Ok(Medians::Even((a, b))) => Some((*a, *b)),
                Err(_) => None,
            };
            assert_eq!(got, want);
            let bytes: Vec<u8> = shuffled.iter().map(|&x| x as u8).collect();
            assert_eq!(
                medianu8(&bytes).ok().map(|(a, b)| (a as u64, b as u64)),
                want
            );
        }
    }
}
