use tinyndarray::array::NdArray;
use tinyndarray::conversions::{parse_nested_list, to_nested_list, Nested};
use tinyndarray::errors::ArrayError;

fn leaf(v: f32) -> Nested<f32> {
    Nested::Leaf(v)
}

fn list(items: Vec<Nested<f32>>) -> Nested<f32> {
    Nested::List(items)
}

fn row(values: &[f32]) -> Nested<f32> {
    Nested::List(values.iter().map(|&v| Nested::Leaf(v)).collect())
}

fn same_nested(a: &Nested<f32>, b: &Nested<f32>) -> bool {
    match (a, b) {
        (Nested::Leaf(x), Nested::Leaf(y)) => x == y,
        (Nested::List(v), Nested::List(w)) => {
            v.len() == w.len() && v.iter().zip(w.iter()).all(|(x, y)| same_nested(x, y))
        },
        _ => false,
    }
}

#[test]
fn parse_one_dimensional_list() {
    let arr = parse_nested_list(&row(&[1.0, 2.0, 3.0])).unwrap();
    assert_eq!(arr.shape, vec![3]);
    assert_eq!(arr.strides, vec![1]);
    assert_eq!(arr.data, vec![1.0, 2.0, 3.0]);
}

#[test]
fn parse_two_dimensional_list() {
    let x = list(vec![row(&[1.0, 2.0, 3.0]), row(&[4.0, 5.0, 6.0])]);
    let arr = parse_nested_list(&x).unwrap();
    assert_eq!(arr.shape, vec![2, 3]);
    assert_eq!(arr.strides, vec![3, 1]);
    assert_eq!(arr.data, vec![1.0, 2.0, 3.0, 4.0, 5.0, 6.0]);
}

#[test]
fn parse_empty_list_has_zero_axis() {
    let arr = parse_nested_list(&list(vec![])).unwrap();
    assert_eq!(arr.shape, vec![0]);
    assert_eq!(arr.data.len(), 0);
}

#[test]
fn parse_bare_element_is_empty_shape() {
    assert_eq!(parse_nested_list(&leaf(1.0)).unwrap_err(), ArrayError::EmptyShape);
}

#[test]
fn parse_ragged_rows_is_ragged_shape() {
    let x = list(vec![row(&[1.0, 2.0]), row(&[3.0])]);
    assert_eq!(parse_nested_list(&x).unwrap_err(), ArrayError::RaggedShape);
}

#[test]
fn parse_mixed_depth_is_ragged_shape() {
    let x = list(vec![row(&[1.0, 2.0]), leaf(3.0)]);
    assert_eq!(parse_nested_list(&x).unwrap_err(), ArrayError::RaggedShape);
}

#[test]
fn nested_round_trip_two_dimensions() {
    let x = list(vec![row(&[1.0, 2.0]), row(&[3.0, 4.0]), row(&[5.0, 6.0])]);
    let arr = parse_nested_list(&x).unwrap();
    let back = to_nested_list(&arr.data, &arr.shape, &arr.strides);
    assert!(same_nested(&x, &back));
}

#[test]
fn nested_round_trip_three_dimensions() {
    let x = list(vec![
        list(vec![row(&[1.0, 2.0]), row(&[3.0, 4.0])]),
        list(vec![row(&[5.0, 6.0]), row(&[7.0, 8.0])]),
    ]);
    let arr = parse_nested_list(&x).unwrap();
    let back = to_nested_list(&arr.data, &arr.shape, &arr.strides);
    assert!(same_nested(&x, &back));
}

#[test]
fn export_respects_transposed_strides() {
    let x = list(vec![row(&[1.0, 2.0]), row(&[3.0, 4.0])]);
    let arr = parse_nested_list(&x).unwrap();
    let t = arr.transpose();
    let back = to_nested_list(&t.data, &t.shape, &t.strides);
    let expected = list(vec![row(&[1.0, 3.0]), row(&[2.0, 4.0])]);
    assert!(same_nested(&expected, &back));
}

#[test]
fn export_after_reshape_enumerates_same_elements() {
    let x = list(vec![row(&[1.0, 2.0, 3.0]), row(&[4.0, 5.0, 6.0])]);
    let mut arr = parse_nested_list(&x).unwrap();
    arr.reshape(vec![3, 2]).unwrap();
    let back = to_nested_list(&arr.data, &arr.shape, &arr.strides);
    let expected = list(vec![row(&[1.0, 2.0]), row(&[3.0, 4.0]), row(&[5.0, 6.0])]);
    assert!(same_nested(&expected, &back));
}

#[test]
fn empty_list_round_trips() {
    let x = list(vec![]);
    let arr = parse_nested_list(&x).unwrap();
    let back = to_nested_list(&arr.data, &arr.shape, &arr.strides);
    assert!(same_nested(&x, &back));
}

#[test]
fn to_list_method_round_trips() {
    let x = list(vec![row(&[1.0, 2.0]), row(&[3.0, 4.0])]);
    let arr = parse_nested_list(&x).unwrap();
    assert!(same_nested(&x, &arr.to_list()));
    let expected_t = list(vec![row(&[1.0, 3.0]), row(&[2.0, 4.0])]);
    assert!(same_nested(&expected_t, &arr.transpose().to_list()));
}

#[test]
fn new_with_data_trusts_matching_buffer() {
    let arr = NdArray::new_with_data(vec![1.0f32, 2.0, 3.0, 4.0], vec![2, 2]);
    assert_eq!(arr.strides, vec![2, 1]);
    assert_eq!(arr.get(vec![1, 0]).unwrap(), 3.0);
}
