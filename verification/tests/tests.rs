use core::cmp::Ordering;
use indxvec::{Mutops, Vecops};
use medians::algos::{
    best_two_refs, evenmedianu64, extremum_refs, part_binary,
};
use medians::error::{merror, Me, MedError};
use medians::{median_by, medf_checked, medf_unchecked, medianu64, medu64, Medians};
use ran::{ranv_f64, ranv_u64};

/// The average of the medians of doubles that are given as patterns.
fn centre_of(m: Medians<u64>) -> f64 {
    match m {
        Medians::Odd(a) => f64::from_bits(*a),
        Medians::Even((a, b)) => (f64::from_bits(*a) + f64::from_bits(*b)) / 2.0,
    }
}

/// The patterns of doubles.
fn patterns(v: &[f64]) -> Vec<u64> {
    v.iter().map(|x| x.to_bits()).collect()
}

/// 0 where as many items lie below the centre as above it, the items
/// that equal the centre made allowance for, and 1 otherwise.
fn balance(s: &[u64], centre: f64) -> i64 {
    let mut bal = 0_i64;
    let mut eq = 0_i64;
    for &si in s {
        match (si as f64).total_cmp(&centre) {
            Ordering::Less => bal -= 1,
            Ordering::Greater => bal += 1,
            Ordering::Equal => eq += 1,
        };
    }
    if bal == 0 {
        return 0;
    };
    if bal.abs() <= eq {
        return 0;
    };
    1
}

#[test]
fn partbin() {
    let mut data = [257_u64, 9, 8, 7, 6, 5, 4, 3, 2, 1];
    println!("Data: {:?}", data);
    let n = data.len();
    let gtsub = part_binary(&mut data, &(0..n), 3);
    println!("Partitioned by bit 3: {:?},{:?}", &data[..gtsub], &data[gtsub..]);
    for &x in &data[..gtsub] {
        assert_eq!(x & 3, 0);
    }
    for &x in &data[gtsub..] {
        assert_ne!(x & 3, 0);
    }
    let mut sorted = data;
    sorted.sort_unstable();
    assert_eq!(sorted, [1, 2, 3, 4, 5, 6, 7, 8, 9, 257]);
    let (m1, m2) = evenmedianu64(&mut data);
    println!("Median: {:?}", (m1, m2));
    assert_eq!((*m1, *m2), (5, 6));
}

#[test]
fn ftest() {
    let a = vec![
        100.0,
        163.6170150950381,
        224.6127142531872,
        239.91368100304916,
        345.1674002412572,
        402.88833594261706,
        423.6406741377381,
        472.6292699764225,
        487.23306678749594,
        490.94434592125606,
        511.16658896980687,
        516.3472076946555,
        523.052566308903,
        563.6784311991111,
        586.7283185517608,
        633.5580942760708,
        678.4956618813414,
        708.2452516626092,
        741.9710552209048,
        763.476192474483,
        768.6249939324011,
        777.1952444919513,
        785.2192860329102,
        785.3178558989187,
        858.0319001781837,
        927.4228569429413,
        952.453888947949,
        1067.6089037099757,
    ];
    let bits = patterns(&a);
    let median = centre_of(medf_unchecked(&bits).expect("ftest: data is not empty"));
    println!("Median: {} ", median);
    assert_eq!(median, (563.6784311991111 + 586.7283185517608) / 2.0);
}

#[test]
fn parting() {
    let data = [
        5., 8., 7., 6., 5., 4., 3., 2., -f64::NAN, 1., 0., 1., -2., 3., 4., -5., f64::NAN,
        f64::NAN, 6., 7., 7.,
    ];
    println!("Data; {:?}", data);
    let len = data.len();
    let mut refdata = data.ref_vec(0..data.len());
    let (eqsub, gtsub) = <&mut [f64]>::part(&mut refdata, &(0..len), &mut <f64>::total_cmp);
    println!(
        "Pivot {}. {} items found equal to the pivot",
        data[0],
        gtsub - eqsub
    );
    println!(
        "Partitions:\n{:?}, {:?}, {:?}\n",
        &refdata[0..eqsub],
        &refdata[eqsub..gtsub],
        &refdata[gtsub..len]
    );
    assert_eq!(gtsub - eqsub, 2);
    let mut less: Vec<f64> = refdata[0..eqsub].iter().map(|&&x| x).collect();
    let mut greater: Vec<f64> = refdata[gtsub..len].iter().map(|&&x| x).collect();
    less.sort_unstable_by(|a, b| a.total_cmp(b));
    greater.sort_unstable_by(|a, b| a.total_cmp(b));
    let mut want_less: Vec<f64> = data
        .iter()
        .copied()
        .filter(|x| x.total_cmp(&5.) == Ordering::Less)
        .collect();
    let mut want_greater: Vec<f64> = data
        .iter()
        .copied()
        .filter(|x| x.total_cmp(&5.) == Ordering::Greater)
        .collect();
    want_less.sort_unstable_by(|a, b| a.total_cmp(b));
    want_greater.sort_unstable_by(|a, b| a.total_cmp(b));
    assert_eq!(patterns(&less), patterns(&want_less));
    assert_eq!(patterns(&greater), patterns(&want_greater));
    let refindex = data.isort_refs(0..len, |a, b| a.total_cmp(b));
    println!("isort_refs ascending sorted:\n{:?}", &refindex);
    for w in refindex.windows(2) {
        assert_ne!(w[1].total_cmp(w[0]), Ordering::Less);
    }
    let indx = data.isort_indexed(0..len, |a, b| b.total_cmp(a));
    println!("isort_index (descending):\n{:?}", indx);
    for w in indx.windows(2) {
        assert_ne!(data[w[0]].total_cmp(&data[w[1]]), Ordering::Less);
    }
}

#[test]
fn text() {
    let song = "There was a *jolly* miller once who lived on the river Dee. \
        From morn till night all day he sang, for a jolly old fellow was he; \
        and this forever the burden of his song seemed to be: \
        I care for nobody, no not I, and nobody cares for me. \
        Tee hee heee, piddle piddledy dee, quoth he.";
    let v = song.split(' ').collect::<Vec<_>>();
    println!("{:?}", v);
    println!(
        "Insert log sorted by word lengths: {:?}",
        v.isort_refs(0..v.len(), |&a, &b| a.len().cmp(&b.len()))
    );
    let mut by_length = v.clone();
    by_length.sort_by_key(|w| w.len());
    let n = v.len();
    match median_by(&v[..], &mut |a: &&str, b: &&str| a.len().cmp(&b.len()))
        .expect("text(): median_by length failed\n")
    {
        Medians::Odd(m) => {
            println!("Median word(s) by length: {}", m);
            assert_eq!(n % 2, 1);
            assert_eq!(m.len(), by_length[n / 2].len());
        }
        Medians::Even((m1, m2)) => {
            println!("Median word(s) by length: {} {}", m1, m2);
            assert_eq!(n % 2, 0);
            assert_eq!(m1.len(), by_length[n / 2 - 1].len());
            assert_eq!(m2.len(), by_length[n / 2].len());
        }
    }
    let mut by_lexicon = v.clone();
    by_lexicon.sort_unstable();
    println!("Sorted by lexicon: {:?}", by_lexicon);
    match median_by(&v[..], &mut <&str>::cmp).expect("text(): median_by lexicon failed\n") {
        Medians::Odd(m) => {
            println!("Median word(s) by lexicon: {}", m);
            assert_eq!(*m, by_lexicon[n / 2]);
        }
        Medians::Even((m1, m2)) => {
            println!("Median word(s) by lexicon: {} {}", m1, m2);
            assert_eq!(*m1, by_lexicon[n / 2 - 1]);
            assert_eq!(*m2, by_lexicon[n / 2]);
        }
    }
}

#[test]
fn medf64() {
    let v = [
        9., 10., 18., 17., 16., 15., 14., 1., 2., 3., 4., 5., 6., 7., 8., 17., 10., 11., 12., 13.,
        14., 15., 16., 18., 9.,
    ];
    println!("Data:    {:?}", v);
    let len = v.len();
    let mut vr = v.ref_vec(0..len);
    let max = extremum_refs(&vr, 0..len, &mut |a: &f64, b: &f64| b.total_cmp(a));
    println!("max: {}", max);
    assert_eq!(*max, 18.);
    let max2 = best_two_refs(&vr, 0..len, &mut |a: &f64, b: &f64| b.total_cmp(a));
    println!("max2: {:?}", max2);
    assert_eq!((*max2.0, *max2.1), (18., 18.));
    let (eqsub, gtsub) = <&mut [f64]>::part(&mut vr, &(0..v.len()), &mut <f64>::total_cmp);
    println!(
        "Partitioning (pivot {}, commas separate the subranges): {:?}",
        v[0],
        (eqsub, gtsub)
    );
    println!(
        "[{:?}, {:?}, {:?}]\nNumber of items equal to the pivot {}",
        &vr[0..eqsub],
        &vr[eqsub..gtsub],
        &vr[gtsub..len],
        gtsub - eqsub
    );
    assert_eq!((eqsub, gtsub), (8, 10));
    let bits = patterns(&v);
    let median = match medf_checked(&bits) {
        Ok(m) => centre_of(m),
        Err(_) => panic!("medf64: the data holds no NaN"),
    };
    println!("Median: {}", median);
    assert_eq!(median, 11.);
    println!("Mean:       {}", v.iter().sum::<f64>() / (len as f64));
}

#[test]
fn correlation() {
    let v1 = ranv_f64(100).expect("Random vec1 generation failed");
    let v2 = ranv_f64(100).expect("Random vec2 generation failed");
    for v in [v1, v2] {
        let bits = patterns(&v);
        let median = match medf_checked(&bits) {
            Ok(m) => centre_of(m),
            Err(_) => panic!("correlation: random data holds no NaN"),
        };
        let mut sorted = v.clone();
        sorted.sort_unstable_by(|a, b| a.total_cmp(b));
        assert_eq!(median, (sorted[49] + sorted[50]) / 2.0);
    }
}

#[test]
fn errors() {
    let n = 10_usize;
    for d in [10, 50, 100, 1000, 10000, 100000] {
        let mut error = 0_i64;
        for _ in 0..n {
            let Ok(mut v) = ranv_u64(d) else {
                let failed: Result<(), Me> = merror("other", "Random vec genertion failed");
                panic!("{:?}", failed);
            };
            let (m1, m2) = medu64(&mut v).expect("errors: data is not empty");
            error += balance(&v, (m1 as f64 + m2 as f64) / 2.0);
        }
        println!("Even length {d}, repeats: {n}, errors: {error}");
        assert_eq!(error, 0);
        error = 0_i64;
        for _ in 0..n {
            let Ok(mut v) = ranv_u64(d + 1) else {
                let failed: Result<(), Me> = merror("other", "Random vec genertion failed");
                panic!("{:?}", failed);
            };
            let (m1, m2) = medu64(&mut v).expect("errors: data is not empty");
            error += balance(&v, (m1 as f64 + m2 as f64) / 2.0);
        }
        println!("Odd  length {}, repeats: {n}, errors: {error}", d + 1);
        assert_eq!(error, 0);
    }
}

#[test]
fn comparison() {
    println!("Comparison tests running, please wait....");
    const NAMES: [&str; 4] = ["median_by", "medf_unchecked", "medianu64", "medu64"];
    const CLOSURESU64: [fn(&mut [u64]) -> (u64, u64); 4] = [
        |v: &mut [_]| match median_by(v, &mut <u64>::cmp).expect("median_by closure failed") {
            Medians::Odd(m) => (*m, *m),
            Medians::Even((a, b)) => (*a, *b),
        },
        |v: &mut [_]| {
            let vf: Vec<u64> = v.iter().map(|&x| (x as f64).to_bits()).collect();
            match medf_unchecked(&vf).expect("medf_unchecked: data is not empty") {
                Medians::Odd(m) => (f64::from_bits(*m) as u64, f64::from_bits(*m) as u64),
                Medians::Even((a, b)) => (f64::from_bits(*a) as u64, f64::from_bits(*b) as u64),
            }
        },
        |v: &mut [_]| match medianu64(v).expect("uqmedian error") {
            Medians::Odd(m) => (*m, *m),
            Medians::Even((a, b)) => (*a, *b),
        },
        |v: &mut [_]| medu64(v).expect("uqmedian error"),
    ];
    for d in 100000..100010 {
        let data = ranv_u64(d).expect("comparison: random data");
        let mut sorted = data.clone();
        sorted.sort_unstable();
        let want = (sorted[(d - 1) / 2], sorted[d / 2]);
        for (name, f) in NAMES.iter().zip(CLOSURESU64.iter()) {
            let mut v = data.clone();
            let got = f(&mut v);
            if *name == "medf_unchecked" {
                assert_eq!((got.0 as f64, got.1 as f64), (want.0 as f64, want.1 as f64), "{name}");
            } else {
                assert_eq!(got, want, "{name}");
            }
        }
    }
}

#[test]
fn merror_kinds() {
    let r: Result<(), Me> = merror("size", "empty");
    assert!(matches!(r, Err(MedError::Size(m)) if m == "empty"));
    let r: Result<(), Me> = merror("nan", "a NaN");
    assert!(matches!(r, Err(MedError::Nan(m)) if m == "a NaN"));
    let r: Result<(), Me> = merror("other", "else");
    assert!(matches!(r, Err(MedError::Other(m)) if m == "else"));
    let r: Result<(), Me> = merror("Nan", "unknown");
    assert!(matches!(r, Err(MedError::Other(m)) if m == "Wrong error kind given to merror"));
}
