use tinyndarray::array::NdArray;
use tinyndarray::errors::ArrayError;
use tinyndarray::operations::{
    add_array, add_scalar, div_array, div_scalar, matmul, mul_array, mul_scalar, sub_array,
    sub_scalar,
};

fn zeros(shape: Vec<usize>) -> NdArray<f32> {
    NdArray::filled(shape, 0.0f32).unwrap()
}

fn ones(shape: Vec<usize>) -> NdArray<f32> {
    NdArray::filled(shape, 1.0f32).unwrap()
}

fn array_of(data: Vec<f32>, shape: Vec<usize>) -> NdArray<f32> {
    NdArray::new_with_data(data, shape)
}

#[test]
fn zeros_reads_zero_at_every_coordinate() {
    let a = zeros(vec![2, 3]);
    for i in 0..2usize {
        for j in 0..3usize {
            assert_eq!(a.get(vec![i, j]).unwrap(), 0.0);
        }
    }
}

#[test]
fn ones_reads_one_at_every_coordinate() {
    let a = ones(vec![3, 2, 2]);
    for i in 0..3usize {
        for j in 0..2usize {
            for k in 0..2usize {
                assert_eq!(a.get(vec![i, j, k]).unwrap(), 1.0);
            }
        }
    }
}

#[test]
fn empty_shape_is_rejected() {
    assert_eq!(NdArray::filled(vec![], 0.0f32).unwrap_err(), ArrayError::EmptyShape);
}

#[test]
fn get_wrong_coordinate_count_is_rank_mismatch() {
    let a = zeros(vec![2, 3]);
    assert_eq!(a.get(vec![1]).unwrap_err(), ArrayError::RankMismatch);
    assert_eq!(a.get(vec![1, 2, 0]).unwrap_err(), ArrayError::RankMismatch);
}

#[test]
fn get_out_of_range_offset_is_index_out_of_bounds() {
    let a = zeros(vec![2, 3]);
    assert_eq!(a.get(vec![2, 0]).unwrap_err(), ArrayError::IndexOutOfBounds);
}

#[test]
fn set_then_get_round_trips() {
    let mut a = zeros(vec![2, 3]);
    a.set(vec![1, 2], 9.5).unwrap();
    assert_eq!(a.get(vec![1, 2]).unwrap(), 9.5);
    assert_eq!(a.get(vec![0, 2]).unwrap(), 0.0);
    assert_eq!(a.set(vec![1], 1.0).unwrap_err(), ArrayError::RankMismatch);
    assert_eq!(a.set(vec![5, 5], 1.0).unwrap_err(), ArrayError::IndexOutOfBounds);
}

#[test]
fn ndim_and_shape_report_the_shape() {
    let a = zeros(vec![4, 2]);
    assert_eq!(a.ndim(), 2);
    assert_eq!(a.shape(), vec![4, 2]);
}

#[test]
fn reshape_keeps_buffer_and_enumeration_order() {
    let mut a = array_of(vec![1.0, 2.0, 3.0, 4.0, 5.0, 6.0], vec![2, 3]);
    let before = a.data.clone();
    a.reshape(vec![3, 2]).unwrap();
    assert_eq!(a.shape(), vec![3, 2]);
    assert_eq!(a.data, before);
    assert_eq!(a.strides, vec![2, 1]);
    assert_eq!(a.get(vec![2, 1]).unwrap(), 6.0);
}

#[test]
fn reshape_size_change_is_size_mismatch() {
    let mut a = zeros(vec![2, 3]);
    assert_eq!(a.reshape(vec![2, 4]).unwrap_err(), ArrayError::SizeMismatch);
    // the array is untouched
    assert_eq!(a.shape(), vec![2, 3]);
}

#[test]
fn transpose_reverses_shape_and_strides() {
    let a = array_of(vec![1.0, 2.0, 3.0, 4.0, 5.0, 6.0], vec![2, 3]);
    let t = a.transpose();
    assert_eq!(t.shape(), vec![3, 2]);
    assert_eq!(t.strides, vec![1, 3]);
    for i in 0..2usize {
        for j in 0..3usize {
            assert_eq!(t.get(vec![j, i]).unwrap(), a.get(vec![i, j]).unwrap());
        }
    }
}

#[test]
fn double_transpose_restores_shape_and_values() {
    let a = array_of(vec![1.0, 2.0, 3.0, 4.0, 5.0, 6.0], vec![2, 3]);
    let tt = a.transpose().transpose();
    assert_eq!(tt.shape(), a.shape());
    for i in 0..2usize {
        for j in 0..3usize {
            assert_eq!(tt.get(vec![i, j]).unwrap(), a.get(vec![i, j]).unwrap());
        }
    }
}

#[test]
fn broadcast_add_ones_gives_all_twos() {
    let a = ones(vec![3, 1]);
    let b = ones(vec![1, 4]);
    let c = add_array(&a, &b, &|x: f32, y: f32| x + y).unwrap();
    assert_eq!(c.shape(), vec![3, 4]);
    for i in 0..3usize {
        for j in 0..4usize {
            assert_eq!(c.get(vec![i, j]).unwrap(), 2.0);
        }
    }
}

#[test]
fn broadcast_add_mixed_rank() {
    let a = array_of(vec![10.0, 20.0], vec![2]);
    let b = array_of(vec![1.0, 2.0, 3.0, 4.0], vec![2, 2]);
    let c = add_array(&b, &a, &|x: f32, y: f32| x + y).unwrap();
    assert_eq!(c.shape(), vec![2, 2]);
    assert_eq!(c.data, vec![11.0, 22.0, 13.0, 24.0]);
}

#[test]
fn elementwise_ops_apply_pointwise() {
    let a = array_of(vec![6.0, 8.0, 10.0], vec![3]);
    let b = array_of(vec![1.0, 2.0, 5.0], vec![3]);
    let sum = add_array(&a, &b, &|x: f32, y: f32| x + y).unwrap();
    let diff = sub_array(&a, &b, &|x: f32, y: f32| x - y).unwrap();
    let prod = mul_array(&a, &b, &|x: f32, y: f32| x * y).unwrap();
    let quot = div_array(&a, &b, &|x: f32, y: f32| x / y).unwrap();
    assert_eq!(sum.data, vec![7.0, 10.0, 15.0]);
    assert_eq!(diff.data, vec![5.0, 6.0, 5.0]);
    assert_eq!(prod.data, vec![6.0, 16.0, 50.0]);
    assert_eq!(quot.data, vec![6.0, 4.0, 2.0]);
}

#[test]
fn elementwise_shape_mismatch_is_reported() {
    let a = zeros(vec![2, 3]);
    let b = zeros(vec![4, 5]);
    let result = add_array(&a, &b, &|x: f32, y: f32| x + y);
    assert_eq!(result.unwrap_err(), ArrayError::ShapeMismatch);
}

#[test]
fn division_by_zero_follows_float_semantics() {
    let a = array_of(vec![1.0, -1.0, 0.0], vec![3]);
    let b = zeros(vec![3]);
    let q = div_array(&a, &b, &|x: f32, y: f32| x / y).unwrap();
    assert_eq!(q.data[0], f32::INFINITY);
    assert_eq!(q.data[1], f32::NEG_INFINITY);
    assert!(q.data[2].is_nan());
}

#[test]
fn scalar_ops_transform_values_only() {
    let a = array_of(vec![1.0, 2.0, 3.0], vec![3]);
    let doubled = mul_scalar(&a, 2.0, &|x: f32, s: f32| x * s);
    assert_eq!(doubled.data, vec![2.0, 4.0, 6.0]);
    assert_eq!(doubled.shape, a.shape);
    assert_eq!(doubled.strides, a.strides);
    let shifted = add_scalar(&a, 1.5, &|x: f32, s: f32| x + s);
    assert_eq!(shifted.data, vec![2.5, 3.5, 4.5]);
    let lowered = sub_scalar(&a, 1.0, &|x: f32, s: f32| x - s);
    assert_eq!(lowered.data, vec![0.0, 1.0, 2.0]);
    let halved = div_scalar(&a, 2.0, &|x: f32, s: f32| x / s);
    assert_eq!(halved.data, vec![0.5, 1.0, 1.5]);
}

#[test]
fn scalar_op_keeps_transposed_strides() {
    let a = array_of(vec![1.0, 2.0, 3.0, 4.0], vec![2, 2]).transpose();
    let doubled = mul_scalar(&a, 2.0, &|x: f32, s: f32| x * s);
    assert_eq!(doubled.strides, a.strides);
    assert_eq!(doubled.get(vec![0, 1]).unwrap(), 2.0 * a.get(vec![0, 1]).unwrap());
}

fn naive_gemm(a: Vec<f32>, b: Vec<f32>, m: usize, k: usize, n: usize) -> Vec<f32> {
    let mut out = vec![0.0f32; m * n];
    for i in 0..m {
        for j in 0..n {
            let mut acc = 0.0f32;
            for t in 0..k {
                acc += a[i * k + t] * b[t * n + j];
            }
            out[i * n + j] = acc;
        }
    }
    out
}

#[test]
fn matmul_two_by_three_times_three_by_two() {
    let a = array_of(vec![1.0, 2.0, 3.0, 4.0, 5.0, 6.0], vec![2, 3]);
    let b = array_of(vec![7.0, 8.0, 9.0, 10.0, 11.0, 12.0], vec![3, 2]);
    let c = matmul(&a, &b, &naive_gemm).unwrap();
    assert_eq!(c.shape(), vec![2, 2]);
    assert_eq!(c.data, vec![58.0, 64.0, 139.0, 154.0]);
}

#[test]
fn zero_size_axis_gives_empty_arrays() {
    let a = zeros(vec![0]);
    assert_eq!(a.get(vec![0]).unwrap_err(), ArrayError::IndexOutOfBounds);
    let sum = add_array(&a, &a, &|x: f32, y: f32| x + y).unwrap();
    assert_eq!(sum.shape(), vec![0]);
    assert_eq!(sum.data.len(), 0);
    let b = zeros(vec![3, 0]);
    let c = add_array(&b, &b, &|x: f32, y: f32| x + y).unwrap();
    assert_eq!(c.shape(), vec![3, 0]);
    assert_eq!(c.data.len(), 0);
}

#[test]
fn matmul_inner_dimension_mismatch() {
    let a = zeros(vec![2, 3]);
    let b = zeros(vec![2, 2]);
    assert_eq!(matmul(&a, &b, &naive_gemm).unwrap_err(), ArrayError::ShapeMismatch);
}
