use photo_backup::sumsize::sum_sizes;

#[test]
fn sums_exactly() {
    assert_eq!(sum_sizes(&vec![1, 2, 3]), Some(6));
}

#[test]
fn empty_tree_has_zero_bytes() {
    assert_eq!(sum_sizes(&Vec::new()), Some(0));
}

#[test]
fn one_megabyte_total() {
    assert_eq!(sum_sizes(&vec![524_288, 524_288]), Some(1_048_576));
}

#[test]
fn overflow_is_reported() {
    assert_eq!(sum_sizes(&vec![u64::MAX, 1]), None);
}

#[test]
fn maximum_fits() {
    assert_eq!(sum_sizes(&vec![u64::MAX]), Some(u64::MAX));
}
