use sorting::{
    generate_random_array, insertion_sort, is_sorted, merge, merge_sort, partition, quicksort,
};
use std::cmp::Ordering;

/// A record ordered by its key alone, so that equal keys can be told apart
/// by their tag.
#[derive(Clone, Copy, Debug)]
struct Keyed {
    key: i32,
    tag: char,
}

impl PartialEq for Keyed {
    fn eq(&self, other: &Keyed) -> bool {
        self.key == other.key
    }
}

impl PartialOrd for Keyed {
    fn partial_cmp(&self, other: &Keyed) -> Option<Ordering> {
        self.key.partial_cmp(&other.key)
    }
}

fn tags(v: &[Keyed]) -> Vec<char> {
    v.iter().map(|k| k.tag).collect()
}

fn counts(v: &[i32]) -> Vec<usize> {
    let mut c = vec![0usize; 50];
    for x in v {
        c[*x as usize] += 1;
    }
    c
}

#[test]
fn reverse_five_all_sorts() {
    let input = [9, 7, 5, 3, 1];
    let expected = [1, 3, 5, 7, 9];

    let mut u = input;
    insertion_sort(&mut u);
    assert_eq!(expected, u);

    let mut w = input;
    quicksort(&mut w, 0, 4);
    assert_eq!(expected, w);

    assert_eq!(expected.to_vec(), merge_sort(&input));
}

#[test]
fn oracle_on_short_and_unsorted() {
    let empty: [i32; 0] = [];
    assert!(is_sorted(&empty));
    assert!(is_sorted(&[42]));
    assert!(is_sorted(&[1, 1, 2]));
    assert!(!is_sorted(&[2, 1]));
    assert!(!is_sorted(&[0, 2, 2, 1]));
}

#[test]
fn single_element_all_sorts() {
    let mut u = [7];
    insertion_sort(&mut u);
    assert_eq!([7], u);
    let mut w = [7];
    quicksort(&mut w, 0, 0);
    assert_eq!([7], w);
    assert_eq!(vec![7], merge_sort(&[7]));
}

#[test]
fn partition_ten_items() {
    let mut v = [3, 2, 0, 5, 8, 9, 6, 3, 2, 0];
    let q = partition(&mut v, 0, 9);
    assert_eq!(5, q);
    assert_eq!([3, 2, 0, 0, 2, 3, 6, 9, 8, 5], v);
}

#[test]
fn partition_reverse_and_equal() {
    let mut v = [9, 7, 5, 3, 1];
    assert_eq!(4, partition(&mut v, 0, 4));
    assert_eq!([1, 7, 5, 3, 9], v);

    let mut e = [4, 4, 4, 4];
    assert_eq!(2, partition(&mut e, 0, 3));
    assert_eq!([4, 4, 4, 4], e);

    let mut two = [1, 0];
    assert_eq!(1, partition(&mut two, 0, 1));
    assert_eq!([0, 1], two);
}

#[test]
fn quicksort_inner_range_only() {
    let mut v = [5, 4, 3, 2, 1];
    quicksort(&mut v, 1, 3);
    assert_eq!([5, 2, 3, 4, 1], v);
}

#[test]
fn merge_two_sorted() {
    let r = merge(vec![5, 8, 9], vec![0, 2, 3, 6]);
    assert_eq!(vec![0, 2, 3, 5, 6, 8, 9], r);
    assert_eq!(vec![1, 2], merge(vec![], vec![1, 2]));
    assert_eq!(vec![1, 2], merge(vec![1, 2], vec![]));
}

#[test]
fn merge_prefers_left_on_ties() {
    let xs = vec![Keyed { key: 1, tag: 'a' }, Keyed { key: 2, tag: 'b' }];
    let ys = vec![Keyed { key: 1, tag: 'c' }, Keyed { key: 2, tag: 'd' }];
    let r = merge(xs, ys);
    assert_eq!(vec!['a', 'c', 'b', 'd'], tags(&r));
}

#[test]
fn mergesort_keeps_order_of_equal_keys() {
    let input = [
        Keyed { key: 1, tag: 'a' },
        Keyed { key: 0, tag: 'b' },
        Keyed { key: 1, tag: 'c' },
        Keyed { key: 0, tag: 'd' },
        Keyed { key: 1, tag: 'e' },
    ];
    let r = merge_sort(&input);
    assert_eq!(vec!['b', 'd', 'a', 'c', 'e'], tags(&r));
    assert_eq!(vec!['a', 'b', 'c', 'd', 'e'], tags(&input));
}

#[test]
fn insertion_sort_keeps_order_of_equal_keys() {
    let mut input = [
        Keyed { key: 2, tag: 'a' },
        Keyed { key: 1, tag: 'b' },
        Keyed { key: 2, tag: 'c' },
        Keyed { key: 1, tag: 'd' },
    ];
    insertion_sort(&mut input);
    assert_eq!(vec!['b', 'd', 'a', 'c'], tags(&input));
}

#[test]
fn random_inputs_sorted_and_permuted() {
    for len in [0, 1, 2, 17, 200] {
        let v = generate_random_array(len, 0, 50);
        assert_eq!(len as usize, v.len());

        let mut u = v.clone();
        insertion_sort(&mut u);
        let mut w = v.clone();
        if !w.is_empty() {
            let n = w.len();
            quicksort(&mut w, 0, n - 1);
        }
        let m = merge_sort(&v);

        assert!(is_sorted(&u));
        assert!(is_sorted(&w));
        assert!(is_sorted(&m));
        assert_eq!(counts(&v), counts(&u));
        assert_eq!(counts(&v), counts(&w));
        assert_eq!(counts(&v), counts(&m));
        assert_eq!(u, w);
        assert_eq!(u, m);
    }
}

#[test]
fn sorting_sorted_output_again_changes_nothing() {
    let v = generate_random_array(60, -20, 20);
    let once = merge_sort(&v);
    assert_eq!(once, merge_sort(&once));
    let mut twice = once.clone();
    insertion_sort(&mut twice);
    assert_eq!(once, twice);
    let mut thrice = once.clone();
    quicksort(&mut thrice, 0, 59);
    assert_eq!(once, thrice);
}

#[test]
fn random_values_stay_in_range() {
    let v = generate_random_array(100, 0, 2);
    assert_eq!(100, v.len());
    assert!(v.iter().all(|x| *x == 0 || *x == 1));

    let w = generate_random_array(30, -5, -4);
    assert_eq!(vec![-5; 30], w);
}

#[test]
fn random_with_no_length_is_empty() {
    assert!(generate_random_array(0, 5, 5).is_empty());
    assert!(generate_random_array(-3, 0, 10).is_empty());
}
