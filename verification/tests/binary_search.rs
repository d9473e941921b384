use woe_binning::binary_search;

#[test]
fn test_binary_search() {
    let arr = [2, 3, 5, 7, 10, 12, 34, 123, 236, 1245];
    assert_eq!(binary_search(arr.len(), &arr, 5), 2);
    assert_eq!(binary_search(arr.len(), &arr, 2), 0);
    assert_eq!(binary_search(arr.len(), &arr, 1245), 9);
    assert_eq!(binary_search(arr.len(), &arr, 6), 3);
    assert_eq!(binary_search(arr.len(), &arr, 0), 0);
    assert_eq!(binary_search(arr.len(), &arr, 1246), 10);
}

#[test]
fn binary_search_single_element() {
    let arr = [7];
    assert_eq!(binary_search(1, &arr, 3), 0);
    assert_eq!(binary_search(1, &arr, 7), 0);
    assert_eq!(binary_search(1, &arr, 8), 1);
}

#[test]
fn binary_search_zero_size_compares_first_element() {
    let arr = [7, 9];
    assert_eq!(binary_search(0, &arr, 3), 0);
    assert_eq!(binary_search(0, &arr, 8), 1);
    assert_eq!(binary_search(0, &arr, 100), 1);
}

#[test]
fn binary_search_looks_at_prefix_only() {
    let arr = [1, 3, 5, 7, 9, 11];
    assert_eq!(binary_search(3, &arr, 100), 3);
    assert_eq!(binary_search(3, &arr, 4), 2);
    assert_eq!(binary_search(5, &arr, 9), 4);
}

#[test]
fn binary_search_with_repeated_values() {
    let arr = [1, 2, 2, 2, 3, 3, 8];
    assert_eq!(binary_search(arr.len(), &arr, 2), 1);
    assert_eq!(binary_search(arr.len(), &arr, 3), 4);
    assert_eq!(binary_search(arr.len(), &arr, 4), 6);
}

#[test]
fn binary_search_on_floats() {
    let arr = [0.1, 0.25, 0.5, 1.0];
    assert_eq!(binary_search(arr.len(), &arr, 0.3), 2);
    assert_eq!(binary_search(arr.len(), &arr, 0.05), 0);
    assert_eq!(binary_search(arr.len(), &arr, 2.0), 4);
}

#[test]
fn binary_search_on_elements_that_are_not_split() {
    let arr = [5, 1, 7, 2];
    // The halves looked at are [5, 1, 7, 2], [5, 1] and [1]: 1 is below 4.
    assert_eq!(binary_search(arr.len(), &arr, 4), 2);
    // Nothing that is looked at is below 0.
    assert_eq!(binary_search(arr.len(), &arr, 0), 0);
}
