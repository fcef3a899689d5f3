use chicken_curry::layout::inverse_axes;
use chicken_curry::tensor::{Tensor, TensorError};

fn all_values(tensor: &Tensor<i64>) -> Vec<i64> {
    tensor.values()
}

fn counting(shape: Vec<usize>) -> Tensor<i64> {
    let size: usize = shape.iter().product();
    Tensor::new(shape, (0..size as i64).collect()).unwrap()
}

#[test]
fn new_reports_empty_dimension_before_length() {
    assert!(matches!(
        Tensor::<i64>::new(vec![0, 3], vec![1, 2]),
        Err(TensorError::EmptyDimension)
    ));
    assert!(matches!(
        Tensor::<i64>::new(vec![2, 3], vec![1, 2]),
        Err(TensorError::InvalidShape { expected: 6, actual: 2 })
    ));
}

#[test]
fn full_rejects_empty_dimensions() {
    assert!(matches!(
        Tensor::full(vec![2, 0], 3.5f32),
        Err(TensorError::EmptyDimension)
    ));
}

#[test]
fn values_follow_row_major_order() {
    let tensor = counting(vec![2, 3]);
    assert_eq!(all_values(&tensor), vec![0, 1, 2, 3, 4, 5]);
    assert_eq!(tensor.rank(), 2);
    assert_eq!(tensor.shape(), &[2, 3]);
}

#[test]
fn write_then_read_returns_written_value() {
    let mut tensor = counting(vec![2, 3]);
    *tensor.get_mut(&[1, 0]).unwrap() = 42;
    assert_eq!(tensor.get(&[1, 0]), Ok(42));
    assert_eq!(all_values(&tensor), vec![0, 1, 2, 42, 4, 5]);
    assert!(matches!(
        tensor.get_mut(&[2, 0]),
        Err(TensorError::OutOfBounds { bound: 2, index: 2 })
    ));
}

#[test]
fn write_through_transposed_view_changes_only_that_element() {
    let tensor = counting(vec![2, 3]);
    let mut transposed = tensor.t();
    *transposed.get_mut(&[2, 1]).unwrap() = -1;
    assert_eq!(all_values(&transposed), vec![0, 3, 1, 4, 2, -1]);
    assert_eq!(all_values(&tensor), vec![0, 1, 2, 3, 4, 5]);
}

#[test]
fn transpose_then_inverse_restores_elements() {
    let tensor = counting(vec![2, 3, 4]);
    let axis = [2, 0, 1];
    let transposed = tensor.transpose(&axis);
    assert_eq!(transposed.shape(), &[4, 2, 3]);
    let restored = transposed.transpose(&inverse_axes(&axis));
    assert_eq!(restored.shape(), &[2, 3, 4]);
    assert_eq!(all_values(&restored), all_values(&tensor));
}

#[test]
fn t_twice_restores_elements() {
    let tensor = counting(vec![3, 2, 2]);
    let twice = tensor.t().t();
    assert_eq!(twice.shape(), &[3, 2, 2]);
    assert_eq!(all_values(&twice), all_values(&tensor));
}

#[test]
fn transpose_reads_the_same_storage() {
    let tensor = counting(vec![2, 3]);
    let transposed = tensor.t();
    assert_eq!(transposed.get(&[0, 1]), Ok(3));
    assert_eq!(all_values(&transposed), vec![0, 3, 1, 4, 2, 5]);
}

#[test]
fn elementwise_on_equal_shapes_is_pointwise() {
    let lhs = counting(vec![2, 2]);
    let rhs = Tensor::new(vec![2, 2], vec![10, 20, 30, 40]).unwrap();
    let sum = Tensor::elementwise(&lhs, &rhs, |a, b| a + b);
    assert_eq!(all_values(&sum), vec![10, 21, 32, 43]);
}

#[test]
fn elementwise_broadcasts_size_one_dimensions() {
    let column = Tensor::new(vec![2, 1], vec![100, 200]).unwrap();
    let row = Tensor::new(vec![1, 3], vec![1, 2, 3]).unwrap();
    let sum = Tensor::elementwise(&column, &row, |a, b| a + b);
    assert_eq!(sum.shape(), &[2, 3]);
    assert_eq!(all_values(&sum), vec![101, 102, 103, 201, 202, 203]);
}

#[test]
fn fold_visits_elements_in_logical_order() {
    let tensor = counting(vec![2, 3]).t();
    let digits = tensor.fold(0, |acc, x| acc * 10 + x);
    assert_eq!(digits, 31425);
    let sum = counting(vec![2, 3]).reduce(0, |acc, x| acc + x);
    assert_eq!(sum.shape(), &[1]);
    assert_eq!(sum.get(&[0]), Ok(15));
}

#[test]
fn reduce_axis_folds_each_group_in_axis_order() {
    let tensor = counting(vec![2, 3]);
    let rows = tensor.reduce_axis(1, false, 0, |acc, x| acc * 10 + x);
    assert_eq!(rows.shape(), &[2]);
    assert_eq!(all_values(&rows), vec![12, 345]);
    let columns = tensor.reduce_axis(0, true, 0, |acc, x| acc * 10 + x);
    assert_eq!(columns.shape(), &[1, 3]);
    assert_eq!(all_values(&columns), vec![3, 14, 25]);
}

#[test]
fn axis_entries_group_by_output_position() {
    let tensor = counting(vec![2, 3]);
    let entries = tensor.axis_entries(0);
    let expected: Vec<(Vec<usize>, i64)> = vec![
        (vec![0], 0),
        (vec![0], 3),
        (vec![1], 1),
        (vec![1], 4),
        (vec![2], 2),
        (vec![2], 5),
    ];
    assert_eq!(entries, expected);
}

#[test]
fn map_applies_function_in_logical_order() {
    let tensor = counting(vec![2, 3]).t();
    let doubled = tensor.map(|x| 2 * x);
    assert_eq!(doubled.shape(), &[3, 2]);
    assert_eq!(all_values(&doubled), vec![0, 6, 2, 8, 4, 10]);
}

#[test]
fn mulmat_accumulates_over_the_inner_dimension() {
    let lhs = Tensor::new(vec![2, 3], vec![1, 2, 3, 4, 5, 6]).unwrap();
    let rhs = Tensor::new(vec![3, 2], vec![7, 8, 9, 10, 11, 12]).unwrap();
    let product = Tensor::mulmat(&lhs, &rhs, 0, |sum, a, b| sum + a * b);
    assert_eq!(product.shape(), &[2, 2]);
    assert_eq!(all_values(&product), vec![58, 64, 139, 154]);
}

#[test]
fn mulmat_broadcasts_batch_dimensions() {
    let lhs = Tensor::new(vec![2, 1, 1, 2], vec![1, 2, 3, 4]).unwrap();
    let rhs = Tensor::new(vec![1, 3, 2, 1], vec![1, 1, 1, 0, 0, 1]).unwrap();
    let product = Tensor::mulmat(&lhs, &rhs, 0, |sum, a, b| sum + a * b);
    assert_eq!(product.shape(), &[2, 3, 1, 1]);
    assert_eq!(all_values(&product), vec![3, 1, 2, 7, 3, 4]);
}

#[test]
fn expand_reduced_reads_the_collecting_position() {
    let sums = Tensor::new(vec![2], vec![10, 20]).unwrap();
    let expanded = sums.expand_reduced(&[2, 3], 1, false);
    assert_eq!(all_values(&expanded), vec![10, 10, 10, 20, 20, 20]);
    let kept = Tensor::new(vec![1, 3], vec![1, 2, 3]).unwrap();
    let expanded = kept.expand_reduced(&[2, 3], 0, true);
    assert_eq!(all_values(&expanded), vec![1, 2, 3, 1, 2, 3]);
}

#[test]
fn unbroadcast_sums_onto_the_source_shape() {
    let grad = counting(vec![2, 3]);
    let onto_row = grad.unbroadcast(&[3], 0, |sum, x| sum + x);
    assert_eq!(all_values(&onto_row), vec![3, 5, 7]);
    let onto_column = grad.unbroadcast(&[2, 1], 0, |sum, x| sum + x);
    assert_eq!(all_values(&onto_column), vec![3, 12]);
    let onto_same = grad.unbroadcast(&[2, 3], 0, |sum, x| sum + x);
    assert_eq!(all_values(&onto_same), all_values(&grad));
}

#[test]
fn clone_is_independent_of_the_original() {
    let tensor = counting(vec![2, 2]);
    let mut copy = tensor.clone();
    *copy.get_mut(&[0, 0]).unwrap() = 9;
    assert_eq!(tensor.get(&[0, 0]), Ok(0));
    assert_eq!(copy.get(&[0, 0]), Ok(9));
}
