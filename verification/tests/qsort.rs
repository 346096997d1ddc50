use probing_dict::qsort::qsort;

#[test]
fn reversed_run_of_five_is_sorted() {
    let mut arr = [5, 4, 3, 2, 1];
    qsort(&mut arr, 0, 4);
    assert_eq!(arr, [1, 2, 3, 4, 5]);
}

#[test]
fn reversed_run_of_four_is_sorted() {
    let mut arr = [4, 3, 2, 1];
    qsort(&mut arr, 0, 3);
    assert_eq!(arr, [1, 2, 3, 4]);
}

#[test]
fn range_of_three_is_left_alone() {
    let mut arr = [2, 1, 3];
    qsort(&mut arr, 0, 2);
    assert_eq!(arr, [2, 1, 3]);
    let mut arr = [3, 2, 1];
    qsort(&mut arr, 0, 2);
    assert_eq!(arr, [3, 2, 1]);
}

#[test]
fn short_parts_stay_as_they_fall() {
    let mut arr = [2, 1, 9, 8, 7, 3];
    qsort(&mut arr, 0, 5);
    assert_eq!(arr, [2, 1, 3, 8, 7, 9]);
}

#[test]
fn only_the_range_is_touched() {
    let mut arr = [9, 5, 4, 3, 2, 1, 0];
    qsort(&mut arr, 1, 5);
    assert_eq!(arr, [9, 1, 2, 3, 4, 5, 0]);
}

#[test]
fn single_element_range_needs_no_slot() {
    let mut arr: [u8; 0] = [];
    qsort(&mut arr, 0, 0);
    assert_eq!(arr, []);
}

#[test]
fn elements_three_apart_are_in_order() {
    let mut arr: Vec<u32> = (0..200u32).map(|i| (i * 7919 + 13) % 101).collect();
    let mut sorted = arr.clone();
    sorted.sort();
    qsort(&mut arr, 0, 199);
    for i in 0..arr.len() {
        for j in (i + 3)..arr.len() {
            assert!(arr[i] <= arr[j]);
        }
    }
    let mut again = arr.clone();
    again.sort();
    assert_eq!(again, sorted);
}

#[test]
fn equal_elements_are_kept() {
    let mut arr = [1, 1, 1, 1, 1, 1, 1, 1];
    qsort(&mut arr, 0, 7);
    assert_eq!(arr, [1, 1, 1, 1, 1, 1, 1, 1]);
}

#[test]
fn four_descending_elements_are_sorted() {
    let mut arr = [3, 2, 1, 0];
    qsort(&mut arr, 0, 3);
    assert_eq!(arr, [0, 1, 2, 3]);
}

#[test]
fn pivot_is_the_middle_element() {
    let mut arr = [1, 9, 5, 0, 7, 3, 8];
    qsort(&mut arr, 0, 6);
    assert_eq!(arr, [0, 1, 5, 3, 7, 9, 8]);
}
