use chicken_curry::error::TensorError;
use chicken_curry::layout::{
    broadcast_index, element_count, flat_index_for_strides, get_broadcast_shape, get_flat_index,
    index_with_axis, inverse_axes, ravel_index, reduced_output_index, reduced_shape,
    shape_without_axis, strides_for_shape, unravel_index, valid_axes, validate_index,
};

#[test]
fn element_count_multiplies_dimensions() {
    assert_eq!(element_count(&[2, 3, 4]), Some(24));
    assert_eq!(element_count(&[]), Some(1));
    assert_eq!(element_count(&[5, 0, 7]), Some(0));
}

#[test]
fn element_count_reports_overflow() {
    assert_eq!(element_count(&[usize::MAX, 2]), None);
    assert_eq!(element_count(&[usize::MAX, 2, 0]), Some(0));
}

#[test]
fn strides_are_products_of_later_dimensions() {
    assert_eq!(strides_for_shape(&[2, 3]), vec![3, 1]);
    assert_eq!(strides_for_shape(&[2, 3, 4]), vec![12, 4, 1]);
    assert_eq!(strides_for_shape(&[7]), vec![1]);
}

#[test]
fn flat_index_is_offset_plus_weighted_sum() {
    assert_eq!(flat_index_for_strides(&[1, 2], &[3, 1], 0), 5);
    assert_eq!(flat_index_for_strides(&[0, 1], &[1, 3], 0), 3);
    assert_eq!(flat_index_for_strides(&[1, 1], &[3, 1], 10), 14);
}

#[test]
fn unravel_and_ravel_are_inverse() {
    assert_eq!(unravel_index(4, &[2, 3]), vec![1, 1]);
    assert_eq!(ravel_index(&[1, 1], &[2, 3]), 4);
    for flat in 0..24 {
        let index = unravel_index(flat, &[2, 3, 4]);
        assert_eq!(ravel_index(&index, &[2, 3, 4]), flat);
    }
}

#[test]
fn validate_index_reports_rank_then_first_out_of_bounds_dimension() {
    assert_eq!(validate_index(&[1, 2], &[2, 3]), Ok(()));
    assert_eq!(
        validate_index(&[0, 1, 0], &[2, 2]),
        Err(TensorError::ShapeMismatch { expected: 3, actual: 2 })
    );
    assert_eq!(
        validate_index(&[5, 9], &[2, 3]),
        Err(TensorError::OutOfBounds { bound: 2, index: 5 })
    );
    assert_eq!(
        validate_index(&[1, 9], &[2, 3]),
        Err(TensorError::OutOfBounds { bound: 3, index: 9 })
    );
}

#[test]
fn get_flat_index_checks_then_applies_strides() {
    assert_eq!(get_flat_index(&[0, 1], &[3, 2], &[1, 3], 0), Ok(3));
    assert_eq!(
        get_flat_index(&[0, 2], &[3, 2], &[1, 3], 0),
        Err(TensorError::OutOfBounds { bound: 2, index: 2 })
    );
}

#[test]
fn broadcast_shape_compares_dimensions_from_the_right() {
    assert_eq!(get_broadcast_shape(&[2, 1, 4], &[3, 4]), Ok(vec![2, 3, 4]));
    assert_eq!(get_broadcast_shape(&[3], &[3]), Ok(vec![3]));
    assert_eq!(get_broadcast_shape(&[2, 3], &[3]), Ok(vec![2, 3]));
    assert_eq!(get_broadcast_shape(&[2, 1, 3], &[1, 4, 3]), Ok(vec![2, 4, 3]));
    assert_eq!(get_broadcast_shape(&[2, 1], &[1, 5]), Ok(vec![2, 5]));
    assert_eq!(get_broadcast_shape(&[], &[10]), Ok(vec![10]));
}

#[test]
fn broadcast_shape_reports_first_conflict_from_the_right() {
    assert_eq!(
        get_broadcast_shape(&[3], &[4]),
        Err(TensorError::ShapeMismatch { expected: 3, actual: 4 })
    );
    assert_eq!(
        get_broadcast_shape(&[2, 2], &[4]),
        Err(TensorError::ShapeMismatch { expected: 2, actual: 4 })
    );
    assert_eq!(
        get_broadcast_shape(&[5, 2, 2], &[3, 7, 2]),
        Err(TensorError::ShapeMismatch { expected: 2, actual: 7 })
    );
}

#[test]
fn broadcast_index_reads_position_zero_of_size_one_dimensions() {
    assert_eq!(broadcast_index(&[1, 2, 3], &[1, 4]), vec![0, 3]);
    assert_eq!(broadcast_index(&[1, 3], &[2, 1]), vec![1, 0]);
    assert_eq!(broadcast_index(&[1, 3], &[1, 5]), vec![0, 3]);
}

#[test]
fn reduced_shapes_keep_or_remove_the_axis() {
    assert_eq!(shape_without_axis(&[2, 3], 1), vec![2]);
    assert_eq!(shape_without_axis(&[3], 0), vec![1]);
    assert_eq!(reduced_shape(&[2, 3], 1, false), vec![2]);
    assert_eq!(reduced_shape(&[2, 3], 1, true), vec![2, 1]);
    assert_eq!(reduced_shape(&[3], 0, false), vec![1]);
}

#[test]
fn index_with_axis_inserts_the_coordinate() {
    assert_eq!(index_with_axis(&[4, 5], 3, 1, 9), vec![4, 9, 5]);
    assert_eq!(index_with_axis(&[0], 1, 0, 2), vec![2]);
}

#[test]
fn reduced_output_index_zeroes_or_drops_the_axis() {
    assert_eq!(reduced_output_index(&[1, 2, 3], 1, true), vec![1, 0, 3]);
    assert_eq!(reduced_output_index(&[1, 2, 3], 1, false), vec![1, 3]);
    assert_eq!(reduced_output_index(&[2], 0, false), vec![0]);
}

#[test]
fn valid_axes_rejects_repeated_and_out_of_range_axes() {
    assert!(valid_axes(&[1, 0, 2], 3));
    assert!(!valid_axes(&[0, 0], 2));
    assert!(!valid_axes(&[0, 2], 2));
}

#[test]
fn inverse_axes_undo_a_permutation() {
    assert_eq!(inverse_axes(&[1, 2, 0]), vec![2, 0, 1]);
    assert_eq!(inverse_axes(&[1, 0]), vec![1, 0]);
}
