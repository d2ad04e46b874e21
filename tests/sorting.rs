use algorithms::sorting::{
    heap_sort, insertion_sort, is_array_sorted, merge_sort, quick_sort, selection_sort,
};
use algorithms::sorting_variants::{
    generic_indirect_selection_sort, optimized_merge_sort, permute_copy_array,
};

fn sample() -> Vec<i32> {
    vec![5, -2, 4, 6, 1, 3, 4, 0, 9, -7, 2]
}

fn expected() -> Vec<i32> {
    let mut v = sample();
    v.sort();
    v
}

#[test]
fn quick_sort_sorts() {
    let mut v = sample();
    quick_sort(&mut v);
    assert_eq!(v, expected());
}

#[test]
fn merge_sort_sorts() {
    let mut v = sample();
    merge_sort(&mut v);
    assert_eq!(v, expected());
    let mut two = vec![2, 1];
    merge_sort(&mut two);
    assert_eq!(two, vec![1, 2]);
}

#[test]
fn insertion_sort_sorts() {
    let mut v = sample();
    insertion_sort(&mut v);
    assert_eq!(v, expected());
}

#[test]
fn selection_sort_sorts() {
    let mut v = sample();
    selection_sort(&mut v);
    assert_eq!(v, expected());
}

#[test]
fn sorts_handle_empty() {
    let mut v: Vec<i32> = vec![];
    quick_sort(&mut v);
    merge_sort(&mut v);
    insertion_sort(&mut v);
    selection_sort(&mut v);
    assert!(v.is_empty());
    assert!(is_array_sorted(&v));
}

#[test]
fn sortedness_check() {
    assert!(is_array_sorted(&[1, 2, 2, 5]));
    assert!(!is_array_sorted(&[1, 3, 2]));
    assert!(is_array_sorted(&[4]));
}

#[test]
fn indirect_sort_and_permute() {
    let arr = [5, 2, 4, 6, 1, 3];
    let permutation = generic_indirect_selection_sort(&arr);
    assert_eq!(permutation, vec![4, 1, 5, 2, 0, 3]);
    let sorted = permute_copy_array(&arr, &permutation);
    assert_eq!(sorted, vec![1, 2, 3, 4, 5, 6]);
}

#[test]
fn optimized_merge_sort_sorts() {
    let mut v = sample();
    optimized_merge_sort(&mut v);
    assert_eq!(v, expected());
    let mut empty: Vec<i32> = vec![];
    optimized_merge_sort(&mut empty);
    assert!(empty.is_empty());
    let mut three = vec![3, 1, 2];
    optimized_merge_sort(&mut three);
    assert_eq!(three, vec![1, 2, 3]);
}

#[test]
fn heap_sort_sorts() {
    let mut v = sample();
    heap_sort(&mut v);
    assert_eq!(v, expected());
    let mut dup = vec![3, 3, 1, 3, 2, 1];
    heap_sort(&mut dup);
    assert_eq!(dup, vec![1, 1, 2, 3, 3, 3]);
}
