//! Rectified-linear activation, slice-wise normalisation layout and the
//! parsing of configuration enums.

use torsh::activation::{
    relu, relu_configured, relu_inplace, validate_not_empty, FunctionalConfig, GeluApproximation,
    LogSoftmax, ReLU, Softmax, GELU, SELU,
};
use torsh::error::TorshError;
use torsh::reduction::Reduction;
use torsh::slices::softmax_along;
use torsh::tensor::{DeviceType, Tensor};

fn ti(data: Vec<i64>, shape: Vec<usize>) -> Tensor<i64> {
    Tensor::from_data(data, shape, DeviceType::Cpu).expect("tensor creation should succeed")
}

#[test]
fn relu_clamps_negative_values() {
    let x = ti(vec![-2, 0, 3, -1, 5, 7], vec![2, 3]);
    let y = relu(&x).unwrap();
    assert_eq!(y.shape().dims(), &[2, 3]);
    assert_eq!(y.to_vec().unwrap(), vec![0, 0, 3, 0, 5, 7]);
    assert_eq!(relu(&y).unwrap().to_vec().unwrap(), y.to_vec().unwrap());
}

#[test]
fn relu_inplace_matches_relu() {
    let mut x = ti(vec![-4, 4, -1, 1], vec![4]);
    let expected = relu(&x).unwrap().to_vec().unwrap();
    relu_inplace(&mut x).unwrap();
    assert_eq!(x.to_vec().unwrap(), expected);
}

#[test]
fn relu_module_gives_the_same_result_both_ways() {
    let x = ti(vec![-3, 2, -1, 9], vec![2, 2]);
    let a = ReLU::new(true).apply(&x).unwrap().to_vec().unwrap();
    let b = ReLU::new(false).apply(&x).unwrap().to_vec().unwrap();
    assert_eq!(a, vec![0, 2, 0, 9]);
    assert_eq!(a, b);
    assert!(ReLU::new(true).is_inplace());
    assert!(!ReLU::new(false).is_inplace());
}

#[test]
fn configured_relu_validates_emptiness() {
    let empty = ti(vec![], vec![0]);
    let config = FunctionalConfig::default();
    assert!(config.validate_inputs);
    match relu_configured(&empty, &config) {
        Err(TorshError::InvalidArgument(m)) => assert_eq!(m, "input must not be empty"),
        _ => panic!("expected an invalid argument"),
    }
    let lenient = FunctionalConfig { validate_inputs: false };
    assert_eq!(relu_configured(&empty, &lenient).unwrap().numel(), 0);
    let x = ti(vec![-1, 1], vec![2]);
    assert_eq!(relu_configured(&x, &config).unwrap().to_vec().unwrap(), vec![0, 1]);
    match validate_not_empty(&empty, "weights") {
        Err(TorshError::InvalidArgument(m)) => assert_eq!(m, "weights must not be empty"),
        _ => panic!("expected an invalid argument"),
    }
}

#[test]
fn gelu_approximation_parses_its_two_spellings() {
    assert_eq!(GeluApproximation::from_str_arg("none").unwrap(), GeluApproximation::Exact);
    assert_eq!(GeluApproximation::from_str_arg("tanh").unwrap(), GeluApproximation::Tanh);
    assert_eq!(GeluApproximation::default(), GeluApproximation::Exact);
    match GeluApproximation::from_str_arg("TANH") {
        Err(TorshError::InvalidArgument(m)) => {
            assert_eq!(m, "gelu approximate must be \"none\" or \"tanh\", got \"TANH\"")
        }
        _ => panic!("expected an invalid argument"),
    }
}

#[test]
fn reduction_parses_case_insensitively() {
    assert_eq!("none".parse::<Reduction>().unwrap(), Reduction::NoReduction);
    assert_eq!("Mean".parse::<Reduction>().unwrap(), Reduction::Mean);
    assert_eq!("SUM".parse::<Reduction>().unwrap(), Reduction::Sum);
    assert_eq!("BatchMean".parse::<Reduction>().unwrap(), Reduction::BatchMean);
    let err = "median".parse::<Reduction>().unwrap_err();
    assert_eq!(err.input(), "median");
    assert_eq!(
        err.message(),
        "invalid reduction mode 'median', expected one of: none, mean, sum, batchmean"
    );
}

#[test]
fn softmax_layout_runs_along_the_chosen_axis() {
    let x = ti((0..6).collect(), vec![2, 3]);
    let reversed = |v: Vec<i64>| -> Vec<i64> { v.into_iter().rev().collect() };
    let rows = softmax_along(&x, -1, reversed).unwrap();
    assert_eq!(rows.to_vec().unwrap(), vec![2, 1, 0, 5, 4, 3]);
    let cols = softmax_along(&x, 0, reversed).unwrap();
    assert_eq!(cols.to_vec().unwrap(), vec![3, 4, 5, 0, 1, 2]);
    let same = softmax_along(&x, 1, |v: Vec<i64>| v).unwrap();
    assert_eq!(same.to_vec().unwrap(), x.to_vec().unwrap());
}

#[test]
fn softmax_layout_errors() {
    let scalar = ti(vec![1], vec![]);
    assert!(matches!(softmax_along(&scalar, -1, |v: Vec<i64>| v), Err(TorshError::InvalidOperation(_))));
    let x = ti((0..6).collect(), vec![2, 3]);
    assert!(matches!(softmax_along(&x, 2, |v: Vec<i64>| v), Err(TorshError::InvalidArgument(_))));
    assert!(matches!(softmax_along(&x, -3, |v: Vec<i64>| v), Err(TorshError::InvalidArgument(_))));
    let flat = ti(vec![], vec![2, 0]);
    assert!(matches!(softmax_along(&flat, 1, |v: Vec<i64>| v), Err(TorshError::InvalidOperation(_))));
}

#[test]
fn module_defaults() {
    assert_eq!(Softmax::default().dim(), -1);
    assert_eq!(LogSoftmax::default().dim(), -1);
    assert_eq!(Softmax::new(0).dim(), 0);
    assert_eq!(LogSoftmax::new(1).dim(), 1);
    let _ = GELU::new();
    let _ = SELU::default();
}
