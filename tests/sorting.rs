use rs_algorithm_practise::sorting_algorithms::bubble_sort::{better_bubble_sort, bubble_sort};
use rs_algorithm_practise::sorting_algorithms::insertion_sort::insertion_sort;
use rs_algorithm_practise::sorting_algorithms::merge_sort::merge_sort;
use rs_algorithm_practise::sorting_algorithms::quick_sort::{pivot, quick_sort};
use rs_algorithm_practise::sorting_algorithms::selection_sort::selection_sort;

#[test]
fn test_bubble_sort() {
    let mut arr = vec![5, 4, 3, 2, 1];
    bubble_sort(&mut arr);
    assert_eq!(vec![1, 2, 3, 4, 5], arr);
}

#[test]
fn test_better_bubble_sort() {
    let mut arr = vec![5, 2, 3, 4, 1];
    better_bubble_sort(&mut arr);
    assert_eq!(vec![1, 2, 3, 4, 5], arr);
}

#[test]
fn test_insertion_sort() {
    let mut arr = vec![5, 4, 3, 2, 1];
    insertion_sort(&mut arr);
    assert_eq!(vec![1, 2, 3, 4, 5], arr);
}

#[test]
fn test_insertion_sort_with_string() {
    let mut arr = vec!["a", "c", "d", "g", "e"];
    insertion_sort(&mut arr);
    assert_eq!(vec!["a", "c", "d", "e", "g"], arr);
}

#[test]
fn sorts_handle_strings() {
    let words = vec![
        String::from("pear"),
        String::from("apple"),
        String::from("fig"),
        String::from("apple"),
    ];
    let expected = vec![
        String::from("apple"),
        String::from("apple"),
        String::from("fig"),
        String::from("pear"),
    ];
    let mut a = words.clone();
    bubble_sort(&mut a);
    assert_eq!(a, expected);
    let mut b = words.clone();
    better_bubble_sort(&mut b);
    assert_eq!(b, expected);
    assert_eq!(merge_sort(words.clone()), expected);
    let mut c = words.clone();
    quick_sort(&mut c);
    assert_eq!(c, expected);
    let mut d = words.clone();
    selection_sort(&mut d);
    assert_eq!(d, expected);
}

#[test]
fn test_merge_sort() {
    let arr = vec![5, 4, 3, 2, 1];
    let arr = merge_sort(arr);
    assert_eq!(vec![1, 2, 3, 4, 5], arr);
}

#[test]
fn test_pivot() {
    let mut array = vec![3, 1, 4, 2, 5];
    let p = pivot(&mut array);
    assert_eq!(vec![1, 2, 3, 4, 5], array);
    assert_eq!(2_usize, p);
}

#[test]
fn test_quick_sort() {
    let mut arr = vec![5, 4, 3, 2, 1];
    quick_sort(&mut arr);
    assert_eq!(vec![1, 2, 3, 4, 5], arr);
}

#[test]
fn test_selection_sort() {
    let mut arr = vec![5, 4, 3, 2, 1];
    selection_sort(&mut arr);
    assert_eq!(vec![1, 2, 3, 4, 5], arr);
}

#[test]
fn sorts_handle_duplicates_and_negatives() {
    let input = vec![3, -2, 3, 0, i32::MAX, i32::MIN, -2, 7];
    let expected = vec![i32::MIN, -2, -2, 0, 3, 3, 7, i32::MAX];
    let mut a = input.clone();
    bubble_sort(&mut a);
    assert_eq!(a, expected);
    let mut b = input.clone();
    better_bubble_sort(&mut b);
    assert_eq!(b, expected);
    let mut c = input.clone();
    insertion_sort(&mut c);
    assert_eq!(c, expected);
    assert_eq!(merge_sort(input.clone()), expected);
    let mut d = input.clone();
    quick_sort(&mut d);
    assert_eq!(d, expected);
    let mut e = input.clone();
    selection_sort(&mut e);
    assert_eq!(e, expected);
}

#[test]
fn sorts_handle_empty_and_single() {
    let mut a: Vec<i32> = vec![];
    bubble_sort(&mut a);
    better_bubble_sort(&mut a);
    insertion_sort(&mut a);
    quick_sort(&mut a);
    assert!(a.is_empty());
    assert!(merge_sort(Vec::<i32>::new()).is_empty());
    let mut one = vec![9];
    selection_sort(&mut one);
    quick_sort(&mut one);
    assert_eq!(one, vec![9]);
    assert_eq!(pivot::<i32>(&mut []), 0);
}

#[test]
fn better_bubble_sort_on_sorted_input() {
    let mut arr = vec![1, 2, 2, 3];
    better_bubble_sort(&mut arr);
    assert_eq!(arr, vec![1, 2, 2, 3]);
}

#[test]
fn pivot_places_first_element() {
    let mut array = vec![4, 8, 1, 4, 0, 9];
    let p = pivot(&mut array);
    assert_eq!(p, 2);
    assert_eq!(array[p], 4);
    assert!(array[..p].iter().all(|x| *x < 4));
    assert!(array[p + 1..].iter().all(|x| *x >= 4));
}
