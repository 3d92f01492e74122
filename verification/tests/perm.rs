use navig18xx::perm::{KPermutations, KPermutationsFilter};

fn collect(mut p: KPermutations) -> Vec<Vec<usize>> {
    let mut out = vec![];
    while let Some(x) = p.next() {
        out.push(x);
    }
    out
}

fn collect_filter(mut p: KPermutationsFilter) -> Vec<Vec<usize>> {
    let mut out = vec![];
    while let Some(x) = p.next() {
        out.push(x);
    }
    out
}

#[test]
/// Check that there is 1 *1*-permutation for a set of size 1.
fn test_kpermutations_1_1() {
    let perms = collect(KPermutations::new(1, 1));
    assert_eq!(1, perms.len());
}

#[test]
/// Check that there are 5 *1*-permutations for a set of size 5.
fn test_kpermutations_5_1() {
    let perms = collect(KPermutations::new(5, 1));
    assert_eq!(5, perms.len());
}

#[test]
/// Check that there are 20 *2*-permutations for a set of size 5.
fn test_kpermutations_5_2() {
    let perms = collect(KPermutations::new(5, 2));
    assert_eq!(20, perms.len());
}

#[test]
/// Check that there are 2 *2*-permutations for a set of size 2.
fn test_kpermutations_2_2() {
    let perms = collect(KPermutations::new(2, 2));
    assert_eq!(2, perms.len());
}

#[test]
/// Check that there are 4 *2*-permutations for a set of size 5 with only
/// 2 distinct classes.
fn test_kpermutationsfilter_5_2_2() {
    let classes = vec![0, 0, 1, 1, 1];
    let perms = collect_filter(KPermutationsFilter::new(classes, 2));
    assert_eq!(4, perms.len());
}

#[test]
/// Check that there is 1 *2*-permutations for a set of size 2 with only
/// 1 distinct class.
fn test_kpermutationsfilter_2_1_2() {
    let classes = vec![0, 0];
    let perms = collect_filter(KPermutationsFilter::new(classes, 2));
    assert_eq!(1, perms.len());
}

#[test]
/// Check that there is 2 *2*-permutations for a set of size 2 with
/// 2 distinct classes.
fn test_kpermutationsfilter_2_2_2() {
    let classes = vec![0, 1];
    let perms = collect_filter(KPermutationsFilter::new(classes, 2));
    assert_eq!(2, perms.len());
}

#[test]
fn permutations_come_in_lexicographic_order() {
    let perms = collect(KPermutations::new(3, 2));
    assert_eq!(
        perms,
        vec![vec![0, 1], vec![0, 2], vec![1, 0], vec![1, 2], vec![2, 0], vec![2, 1]]
    );
    let full = collect(KPermutations::new(3, 3));
    assert_eq!(full.len(), 6);
    assert_eq!(full[0], vec![0, 1, 2]);
    assert_eq!(full[5], vec![2, 1, 0]);
}

#[test]
fn filtered_permutations_differ_in_their_classes() {
    let classes = vec![0, 0, 1];
    let perms = collect_filter(KPermutationsFilter::new(classes.clone(), 2));
    let mut seen: Vec<Vec<usize>> = vec![];
    for p in &perms {
        let cls: Vec<usize> = p.iter().map(|ix| classes[*ix]).collect();
        assert!(!seen.contains(&cls));
        seen.push(cls);
    }
    assert_eq!(perms.len(), 3);
    assert_eq!(perms[0], vec![0, 1]);
}

#[test]
fn each_permutation_is_yielded_once_in_increasing_order() {
    let perms = collect(KPermutations::new(4, 3));
    assert_eq!(perms.len(), 24);
    for w in perms.windows(2) {
        assert!(w[0] < w[1]);
    }
    for p in &perms {
        assert_eq!(p.len(), 3);
        assert!(p.iter().all(|&x| x < 4));
        assert!(p[0] != p[1] && p[0] != p[2] && p[1] != p[2]);
    }
}

#[test]
fn each_ordering_of_classes_is_yielded_once() {
    let classes = vec![0, 0, 1, 1];
    let perms = collect_filter(KPermutationsFilter::new(classes.clone(), 2));
    let orderings: Vec<Vec<usize>> = perms.iter().map(|p| p.iter().map(|&i| classes[i]).collect()).collect();
    // (0, 0), (0, 1), (1, 0) and (1, 1), each once.
    assert_eq!(orderings.len(), 4);
    for i in 0..orderings.len() {
        for j in (i + 1)..orderings.len() {
            assert_ne!(orderings[i], orderings[j]);
        }
    }
}
