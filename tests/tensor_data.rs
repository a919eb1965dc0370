use autodiff::tensor::{num_elements, TensorData};

fn data(value: Vec<f32>, shape: Vec<usize>) -> TensorData<f32> {
    TensorData::new(value, shape).unwrap()
}

#[test]
fn should_support_reshape_1d() {
    let tensor = data(vec![0.0, 1.0, 2.0], vec![3]);

    let data_actual = tensor.reshape(vec![1, 3]).unwrap();

    let data_expected = data(vec![0.0, 1.0, 2.0], vec![1, 3]);
    assert_eq!(data_expected, data_actual);
}

#[test]
fn should_support_reshape_2d() {
    let tensor = data(vec![0.0, 1.0, 2.0, 3.0, 4.0, 5.0], vec![2, 3]);

    let data_actual = tensor.reshape(vec![6]).unwrap();

    let data_expected = data(vec![0.0, 1.0, 2.0, 3.0, 4.0, 5.0], vec![6]);
    assert_eq!(data_expected, data_actual);
}

#[test]
fn reshape_to_a_different_size_is_refused() {
    let tensor = data(vec![0.0, 1.0, 2.0], vec![3]);
    assert!(tensor.reshape(vec![2, 2]).is_none());
}

#[test]
fn new_refuses_a_shape_of_another_size() {
    assert!(TensorData::new(vec![1.0f32, 2.0], vec![3]).is_none());
    assert!(TensorData::new(Vec::<f32>::new(), vec![2, 0, 5]).is_some());
}

#[test]
fn num_elements_counts_and_detects_overflow() {
    assert_eq!(num_elements(&vec![2, 3, 4]), Some(24));
    assert_eq!(num_elements(&vec![]), Some(1));
    assert_eq!(num_elements(&vec![usize::MAX, 2]), None);
    assert_eq!(num_elements(&vec![usize::MAX, 2, 0]), Some(0));
}
