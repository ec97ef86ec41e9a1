use bucketmap::sorting::merge_sort::merge_sort;
use bucketmap::sorting::quicksort::quicksort;

#[test]
fn merge_sort_test_sort_empty() {
    let mut arr: Vec<i32> = vec![];
    merge_sort(&mut arr);
    assert_eq!(arr, vec![]);
}

#[test]
fn merge_sort_test_sort_single_element() {
    let mut arr = vec![42];
    merge_sort(&mut arr);
    assert_eq!(arr, vec![42]);
}

#[test]
fn merge_sort_test_sort_two_element() {
    let mut arr = vec![42, 24];
    merge_sort(&mut arr);
    assert_eq!(arr, vec![24, 42]);
}

#[test]
fn merge_sort_test_sort_sorted() {
    let mut arr = vec![1, 2, 3, 4, 5];
    merge_sort(&mut arr);
    assert_eq!(arr, vec![1, 2, 3, 4, 5]);
}

#[test]
fn merge_sort_test_sort_reverse_sorted() {
    let mut arr = vec![5, 4, 3, 2, 1];
    merge_sort(&mut arr);
    println!("{:?}", &arr);
    assert_eq!(arr, vec![1, 2, 3, 4, 5]);
}

#[test]
fn merge_sort_test_sort_unsorted() {
    let mut arr = vec![5, 2, 4, 1, 3];
    merge_sort(&mut arr);
    assert_eq!(arr, vec![1, 2, 3, 4, 5]);
}

#[test]
fn merge_sort_test_sort_strings() {
    let mut arr = vec!["banana", "apple", "cherry", "date", "blueberry"];
    merge_sort(&mut arr);
    assert_eq!(arr, vec!["apple", "banana", "blueberry", "cherry", "date"]);
}

#[test]
fn quicksort_test_sort_empty() {
    let mut arr: Vec<i32> = vec![];
    quicksort(&mut arr);
    assert_eq!(arr, vec![]);
}

#[test]
fn quicksort_test_sort_single_element() {
    let mut arr = vec![42];
    quicksort(&mut arr);
    assert_eq!(arr, vec![42]);
}

#[test]
fn quicksort_test_sort_two_element() {
    let mut arr = vec![42, 24];
    quicksort(&mut arr);
    assert_eq!(arr, vec![24, 42]);
}

#[test]
fn quicksort_test_sort_sorted() {
    let mut arr = vec![1, 2, 3, 4, 5];
    quicksort(&mut arr);
    assert_eq!(arr, vec![1, 2, 3, 4, 5]);
}

#[test]
fn quicksort_test_sort_reverse_sorted() {
    let mut arr = vec![5, 4, 3, 2, 1];
    quicksort(&mut arr);
    println!("{:?}", &arr);
    assert_eq!(arr, vec![1, 2, 3, 4, 5]);
}

#[test]
fn quicksort_test_sort_unsorted() {
    let mut arr = vec![5, 2, 4, 1, 3];
    quicksort(&mut arr);
    assert_eq!(arr, vec![1, 2, 3, 4, 5]);
}

#[test]
fn quicksort_test_sort_strings() {
    let mut arr = vec!["banana", "apple", "cherry", "date", "blueberry"];
    quicksort(&mut arr);
    assert_eq!(arr, vec!["apple", "banana", "blueberry", "cherry", "date"]);
}
