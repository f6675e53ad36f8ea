use tinyndarray::errors::ArrayError;
use tinyndarray::utils::{
    broadcast_shapes, compute_strides, element_count, ravel_index, strides_fit_check,
    unravel_index,
};

#[test]
fn strides_row_major_basic() {
    let shape: Vec<usize> = vec![2, 3, 4];
    let strides = compute_strides(&shape);
    assert_eq!(strides, vec![12, 4, 1]);
}

#[test]
fn strides_last_axis_is_one_and_recurrence_holds() {
    let shape: Vec<usize> = vec![5, 1, 7, 2];
    let strides = compute_strides(&shape);
    assert_eq!(*strides.last().unwrap(), 1);
    for i in 0..shape.len() - 1 {
        assert_eq!(strides[i], strides[i + 1] * shape[i + 1]);
    }
}

#[test]
fn strides_rank_one() {
    let shape: Vec<usize> = vec![9];
    assert_eq!(compute_strides(&shape), vec![1]);
}

#[test]
fn element_count_matches_product() {
    assert_eq!(element_count(&vec![2, 3, 4]), 24);
    assert_eq!(element_count(&vec![3, 0]), 0);
    assert_eq!(element_count(&vec![7]), 7);
}

#[test]
fn strides_fit_check_detects_overflow() {
    assert!(strides_fit_check(&vec![2, 3]));
    assert!(!strides_fit_check(&vec![usize::MAX, usize::MAX]));
    // a huge trailing product overflows even when a zero makes the total 0
    assert!(!strides_fit_check(&vec![0, usize::MAX, usize::MAX]));
}

#[test]
fn unravel_row_major_order() {
    let shape: Vec<usize> = vec![2, 3];
    assert_eq!(unravel_index(0, &shape), vec![0, 0]);
    assert_eq!(unravel_index(1, &shape), vec![0, 1]);
    assert_eq!(unravel_index(3, &shape), vec![1, 0]);
    assert_eq!(unravel_index(5, &shape), vec![1, 2]);
}

#[test]
fn ravel_weighs_coordinates_by_strides() {
    let indices: Vec<usize> = vec![1, 2];
    let strides: Vec<usize> = vec![3, 1];
    let shape: Vec<usize> = vec![2, 3];
    assert_eq!(ravel_index(&indices, &strides, &shape), 5);
}

#[test]
fn ravel_ignores_stride_on_size_one_axis() {
    // the defensive guard: a size-1 axis contributes nothing even when the
    // supplied stride entry is nonzero
    let indices: Vec<usize> = vec![7, 2];
    let strides: Vec<usize> = vec![13, 1];
    let shape: Vec<usize> = vec![1, 3];
    assert_eq!(ravel_index(&indices, &strides, &shape), 2);
}

#[test]
fn broadcast_same_rank() {
    let (shape, left, right) = broadcast_shapes(&vec![3, 1], &vec![1, 4]).unwrap();
    assert_eq!(shape, vec![3, 4]);
    assert_eq!(left, vec![1, 0]);
    assert_eq!(right, vec![0, 1]);
}

#[test]
fn broadcast_mixed_rank_pads_left() {
    let (shape, left, right) = broadcast_shapes(&vec![2], &vec![3, 2]).unwrap();
    assert_eq!(shape, vec![3, 2]);
    assert_eq!(left, vec![0, 1]);
    assert_eq!(right, vec![2, 1]);
}

#[test]
fn broadcast_equal_shapes_keeps_natural_strides() {
    let (shape, left, right) = broadcast_shapes(&vec![2, 2], &vec![2, 2]).unwrap();
    assert_eq!(shape, vec![2, 2]);
    assert_eq!(left, vec![2, 1]);
    assert_eq!(right, vec![2, 1]);
}

#[test]
fn broadcast_rejects_incompatible_axes() {
    let result = broadcast_shapes(&vec![2, 3], &vec![4, 5]);
    assert_eq!(result.unwrap_err(), ArrayError::ShapeMismatch);
}
