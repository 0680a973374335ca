use quickersort::heapsort;
use quickersort::insertion_sort;
use quickersort::sort;
use quickersort::sort_by;
use quickersort::sort_by_key;

fn is_sorted(v: &[u64]) -> bool {
    v.windows(2).all(|w| w[0] <= w[1])
}

fn counts(v: &[u64]) -> std::collections::HashMap<u64, usize> {
    let mut m = std::collections::HashMap::new();
    for &x in v {
        *m.entry(x).or_insert(0) += 1;
    }
    m
}

#[test]
fn sort_random_like() {
    let mut v: Vec<u64> = vec![5, 3, 9, 1, 7, 3, 8, 0, 2, 6, 4, 3, 9, 11, 10];
    let before = counts(&v);
    sort(&mut v);
    assert!(is_sorted(&v));
    assert_eq!(counts(&v), before);
}

#[test]
fn sort_already_sorted() {
    let mut v: Vec<u64> = (0..2000).collect();
    let expected = v.clone();
    sort(&mut v);
    assert_eq!(v, expected);
}

#[test]
fn sort_reverse_sorted() {
    let mut v: Vec<u64> = (0..2000).rev().collect();
    sort(&mut v);
    let expected: Vec<u64> = (0..2000).collect();
    assert_eq!(v, expected);
}

#[test]
fn sort_organ_pipe() {
    let mut v: Vec<u64> = (0..1000).chain((0..1000).rev()).collect();
    let before = counts(&v);
    sort(&mut v);
    assert!(is_sorted(&v));
    assert_eq!(counts(&v), before);
}

#[test]
fn sort_idempotent() {
    let mut v: Vec<u64> = vec![4, 1, 4, 2, 9, 7, 1, 0, 3];
    sort(&mut v);
    let once = v.clone();
    sort(&mut v);
    assert_eq!(v, once);
}

#[test]
fn sort_empty_and_single() {
    let mut e: Vec<u64> = vec![];
    sort(&mut e);
    assert_eq!(e, Vec::<u64>::new());
    let mut s: Vec<u64> = vec![42];
    sort(&mut s);
    assert_eq!(s, vec![42]);
}

#[test]
fn sort_all_equal_many() {
    let mut v: Vec<u64> = vec![5; 10000];
    sort(&mut v);
    assert_eq!(v, vec![5u64; 10000]);
}

#[test]
fn sort_duplicate_heavy() {
    let mut v: Vec<u64> = (0..6000).map(|i| i % 3).collect();
    sort(&mut v);
    assert!(is_sorted(&v));
    assert_eq!(v.iter().filter(|&&x| x == 0).count(), 2000);
    assert_eq!(v.iter().filter(|&&x| x == 1).count(), 2000);
    assert_eq!(v.iter().filter(|&&x| x == 2).count(), 2000);
}

#[test]
fn sort_signed_values() {
    let mut v: Vec<i64> = vec![3, -7, 0, -7, 12, -1, 5];
    sort(&mut v);
    assert_eq!(v, vec![-7, -7, -1, 0, 3, 5, 12]);
}

#[test]
fn sort_by_reverse_comparator() {
    let mut v: Vec<u64> = vec![5, 3, 9, 1, 7];
    sort_by(&mut v, &|a: &u64, b: &u64| b.cmp(a));
    assert_eq!(v, vec![9, 7, 5, 3, 1]);
}

#[test]
fn sort_by_key_string_length() {
    let mut v: Vec<String> = vec!["ccc".to_string(), "a".to_string(), "bb".to_string()];
    sort_by_key(&mut v, |s: &String| s.len());
    assert_eq!(v, vec!["a".to_string(), "bb".to_string(), "ccc".to_string()]);
}

#[test]
fn insertion_sort_all_permutations_of_five() {
    // Heap's algorithm over [1, 2, 3, 4, 5]
    fn go(k: usize, arr: &mut Vec<u64>, all: &mut Vec<Vec<u64>>) {
        if k == 1 {
            all.push(arr.clone());
        } else {
            for i in 0..k {
                go(k - 1, arr, all);
                if k % 2 == 0 {
                    arr.swap(i, k - 1);
                } else {
                    arr.swap(0, k - 1);
                }
            }
        }
    }
    let mut base: Vec<u64> = vec![1, 2, 3, 4, 5];
    let mut all: Vec<Vec<u64>> = Vec::new();
    go(5, &mut base, &mut all);
    assert_eq!(all.len(), 120);
    for perm in all {
        let mut v = perm.clone();
        insertion_sort(&mut v, &|a: &u64, b: &u64| a.cmp(b));
        assert_eq!(v, vec![1, 2, 3, 4, 5], "failed on permutation {:?}", perm);
    }
}

#[test]
fn heapsort_standalone() {
    let mut v: Vec<u64> = (0..500).rev().chain(0..500).collect();
    let before = counts(&v);
    heapsort(&mut v, &|a: &u64, b: &u64| a.cmp(b));
    assert!(is_sorted(&v));
    assert_eq!(counts(&v), before);
}

#[test]
fn insertion_sort_standalone() {
    let mut v: Vec<u64> = vec![9, 2, 7, 2, 0, 5];
    insertion_sort(&mut v, &|a: &u64, b: &u64| a.cmp(b));
    assert_eq!(v, vec![0, 2, 2, 5, 7, 9]);
}
