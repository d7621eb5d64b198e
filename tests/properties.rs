use min_not_in_list::baseline::get_min_not_in_list_via_sort;
use min_not_in_list::coalescer::{get_min_not_in_list_via_hash, RangeInclusive};
use min_not_in_list::key_range::key_range;
use min_not_in_list::random_gen::RandomGen;
use min_not_in_list::text::concat_str;

fn both(v: &Vec<u32>) -> u32 {
    let a = get_min_not_in_list_via_hash(v);
    let b = get_min_not_in_list_via_sort(v);
    assert_eq!(a, b);
    a
}

#[test]
fn empty_list_misses_zero() {
    assert_eq!(both(&Vec::new()), 0);
}

#[test]
fn single_values() {
    assert_eq!(both(&vec![0]), 1);
    assert_eq!(both(&vec![7]), 0);
    assert_eq!(both(&vec![u32::MAX]), 0);
}

#[test]
fn duplicated_list_keeps_answer() {
    let s = vec![3, 0, 1, 5, 2, 9];
    let mut ss = s.clone();
    ss.extend_from_slice(&s);
    assert_eq!(both(&s), 4);
    assert_eq!(both(&ss), 4);
}

#[test]
fn permuted_list_keeps_answer() {
    assert_eq!(both(&vec![4, 2, 0, 1, 6, 3]), 5);
    assert_eq!(both(&vec![0, 1, 2, 3, 4, 6]), 5);
    assert_eq!(both(&vec![6, 4, 3, 2, 1, 0]), 5);
}

#[test]
fn repeated_values_are_inert() {
    assert_eq!(both(&vec![0, 0, 0, 1, 1, 2, 2, 2]), 3);
    assert_eq!(both(&vec![5, 5, 5]), 0);
}

#[test]
fn runs_merge_across_a_bridging_value() {
    // 0..=2 and 4..=6 are separate until 3 arrives between them.
    assert_eq!(both(&vec![0, 1, 2, 4, 5, 6]), 3);
    assert_eq!(both(&vec![0, 1, 2, 4, 5, 6, 3]), 7);
    assert_eq!(both(&vec![6, 4, 2, 0, 5, 1, 3]), 7);
}

#[test]
fn largest_value_has_no_right_neighbour() {
    assert_eq!(both(&vec![u32::MAX, 0, u32::MAX - 1, 1]), 2);
    assert_eq!(both(&vec![u32::MAX - 1, u32::MAX]), 0);
}

#[test]
fn range_inclusive_keeps_its_ends() {
    let r = RangeInclusive::new(3, 9);
    assert_eq!((r.low, r.high), (3, 9));
}

#[test]
fn key_range_of_keys() {
    assert_eq!(key_range(&vec![]), None);
    assert_eq!(key_range(&vec![7]), Some((7, 7)));
    assert_eq!(key_range(&vec![5, 9, 1, 4]), Some((1, 9)));
}

#[test]
fn random_lists_are_reproducible_and_bounded() {
    let mut a = RandomGen::new(42);
    let mut b = RandomGen::new(42);
    let va = a.make_vec(1000);
    let vb = b.make_vec(1000);
    assert_eq!(va, vb);
    assert_eq!(va.len(), 1000);
    assert!(va.iter().all(|&x| x < 500));
    assert!(va.iter().any(|&x| x != va[0]));
}

#[test]
fn concat_str_joins_in_order() {
    assert_eq!(concat_str("images/", "chart.png"), "images/chart.png");
    assert_eq!(concat_str("", "b"), "b");
    assert_eq!(concat_str("a", ""), "a");
}

#[test]
fn different_seeds_give_different_lists() {
    let mut a = RandomGen::new(1);
    let mut b = RandomGen::new(2);
    assert_ne!(a.make_vec(1000), b.make_vec(1000));
}
