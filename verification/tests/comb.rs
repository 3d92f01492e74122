use navig18xx::comb::{CombFiltProducer, Combinations, CombinationsFilter, KCombinations};

fn collect_combinations(mut c: Combinations) -> Vec<Vec<usize>> {
    let mut out = vec![];
    while let Some(x) = c.next() {
        out.push(x);
    }
    out
}

fn collect_filter<F: Fn(usize, usize) -> bool>(mut c: CombinationsFilter<F>) -> Vec<Vec<usize>> {
    let mut out = vec![];
    while let Some(x) = c.next() {
        out.push(x);
    }
    out
}

fn collect_k(mut c: KCombinations) -> Vec<Vec<usize>> {
    let mut out = vec![];
    while let Some(x) = c.next() {
        out.push(x);
    }
    out
}

/// Collects what a producer yields, splitting it as far as it allows and
/// concatenating the parts in order.
fn collect_producer<F: Fn(usize, usize) -> bool + Send + Sync>(p: CombFiltProducer<'_, F>) -> Vec<Vec<usize>> {
    let (mut first, second) = p.split();
    match second {
        Some(rest) => {
            let mut out = collect_producer(first);
            out.extend(collect_producer(rest));
            out
        }
        None => {
            let mut out = vec![];
            while let Some(x) = first.next() {
                out.push(x);
            }
            out
        }
    }
}

#[test]
/// Check that there are 25 *{1,2,3}*-combinations for a set of size 5:
///
/// - 5 x *1*-combinations (0..4);
/// - 10 x *2*-combinations: 5! / (2! * 3!) = 20 / 2 = 10; and;
/// - 10 x *3*-combinations: 5! / (3! * 2!) = 10.
fn test_par_comb_filter_1() {
    let comb = CombinationsFilter::new(5, 3, |_x, _y| false);
    let combs = collect_filter(comb);
    let expected_count = 5 + 10 + 10;
    assert_eq!(expected_count, combs.len());
    let pcomb = CombinationsFilter::new(5, 3, |_x, _y| false).into_par_iter();
    let pcombs = collect_producer(pcomb.producer());
    assert_eq!(expected_count, pcombs.len());
    assert_eq!(combs, pcombs)
}

#[test]
/// Check that filtering the 25 *{1,2,3}*-combinations for a set of
/// size 5 returns the same results when the work is divided.
fn test_par_comb_filter_2() {
    let comb = CombinationsFilter::new(5, 3, |x, y| x == 2 || y == 2);
    let combs = collect_filter(comb);
    let expected_count = 15;
    assert_eq!(expected_count, combs.len());
    let pcomb = CombinationsFilter::new(5, 3, |x, y| x == 2 || y == 2).into_par_iter();
    let pcombs = collect_producer(pcomb.producer());
    assert_eq!(expected_count, pcombs.len());
    assert_eq!(combs, pcombs)
}

#[test]
/// Check that there are 25 *{1,2,3}*-combinations for a set of size 5.
fn test_combinations_1() {
    let comb = Combinations::new(5, 3);
    let combs = collect_combinations(comb);
    let expected_count = 5 + 10 + 10;
    assert_eq!(expected_count, combs.len());
}

#[test]
/// Check that there are 18 *{1,2,3}*-combinations for a set of size 5
/// where no element *i* in a combination is double the value of any
/// element *j*.
fn test_combinations_filter_1() {
    let filter = Box::new(|i, j| j == (2 * i));
    let comb = CombinationsFilter::new(5, 3, filter);
    let combs = collect_filter(comb);
    let expected_count = 5 + 10 + 10 - 7;
    assert_eq!(expected_count, combs.len());
}

#[test]
/// Check that for a set of size 5 there are 5 *1*-combinations, and 10
/// *2*- and *3*-combinations.
fn test_kcombinations_1() {
    let ks: [usize; 3] = [1, 2, 3];
    for k in &ks {
        let combs = collect_k(KCombinations::new(5, *k));
        if *k == 1 {
            assert_eq!(5, combs.len())
        } else if *k == 2 || *k == 3 {
            assert_eq!(10, combs.len())
        } else {
            unreachable!("k should be in [1, 2, 2]")
        }
        for comb in &combs {
            assert_eq!(comb.len(), *k)
        }
    }
}

#[test]
fn combinations_come_in_depth_first_order() {
    let combs = collect_combinations(Combinations::new(3, 2));
    assert_eq!(
        combs,
        vec![vec![0], vec![0, 1], vec![0, 2], vec![1], vec![1, 2], vec![2]]
    );
    let ks = collect_k(KCombinations::new(4, 2));
    assert_eq!(
        ks,
        vec![vec![0, 1], vec![0, 2], vec![0, 3], vec![1, 2], vec![1, 3], vec![2, 3]]
    );
}

#[test]
fn filtered_combinations_hold_no_excluded_pair() {
    let combs = collect_filter(CombinationsFilter::new(4, 4, |a, b| a == 0 && b == 1));
    for c in &combs {
        assert!(!(c.contains(&0) && c.contains(&1)));
    }
    assert!(combs.contains(&vec![0, 2, 3]));
    assert!(combs.contains(&vec![1, 2, 3]));
    assert!(!combs.contains(&vec![0, 1]));
}

#[test]
fn empty_sets_have_no_combinations() {
    assert!(collect_combinations(Combinations::new(0, 3)).is_empty());
    assert!(collect_k(KCombinations::new(2, 3)).is_empty());
}

#[test]
fn a_length_limit_of_zero_yields_no_combination() {
    assert!(collect_combinations(Combinations::new(3, 0)).is_empty());
    assert!(collect_filter(CombinationsFilter::new(3, 0, |_a, _b| false)).is_empty());
    assert!(collect_k(KCombinations::new(3, 0)).is_empty());
}

#[test]
fn each_combination_is_yielded_once_in_increasing_order() {
    let combs = collect_combinations(Combinations::new(5, 3));
    // C(5, 1) + C(5, 2) + C(5, 3) combinations, a prefix before its extensions.
    assert_eq!(combs.len(), 5 + 10 + 10);
    for w in combs.windows(2) {
        assert!(w[0] < w[1]);
    }
    for c in &combs {
        assert!(!c.is_empty() && c.len() <= 3);
        assert!(c.windows(2).all(|p| p[0] < p[1]));
        assert!(c.iter().all(|&x| x < 5));
    }
}
