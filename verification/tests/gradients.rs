//! The gradient rules and the backward pass on exact (integer) values.

use torsh::backward::trace_gradients;
use torsh::backprop::{denominator_rule, divide_by, fill, matmul_gradients, negate, scale_by, transpose};
use torsh::error::TorshError;
use torsh::kernels::scatter_add;
use torsh::tensor::{DeviceType, Tensor};

fn ti(data: Vec<i64>, shape: Vec<usize>) -> Tensor<i64> {
    Tensor::from_data(data, shape, DeviceType::Cpu).expect("tensor creation should succeed")
}

#[test]
fn element_wise_rules() {
    assert_eq!(negate(&[1i64, -2, 3], 0), vec![-1, 2, -3]);
    assert_eq!(scale_by(&[1i64, 2, 3], &[10, 20], &[1, 0, 1]), vec![20, 20, 60]);
    assert_eq!(divide_by(&[8i64, 9, 10], &[2, 3], &[0, 1, 0]), vec![4, 3, 5]);
    // zero - (g * num) / (den * den)
    assert_eq!(
        denominator_rule(&[2i64, 3], &[4, 6], &[0, 1], &[2, 3], &[0, 1], 0),
        vec![-2, -2]
    );
    assert_eq!(fill(7i64, 3), vec![7, 7, 7]);
}

#[test]
fn scatter_accumulates_repeated_positions() {
    assert_eq!(scatter_add(&[1i64, 2, 3, 4], &[0, 2, 0, 1], 4, 0), vec![4, 4, 2, 0]);
    // distinct positions: zero everywhere else
    assert_eq!(scatter_add(&[5i64, 6], &[3, 1], 5, 0), vec![0, 6, 0, 5, 0]);
}

#[test]
fn transpose_and_matmul_gradients() {
    assert_eq!(transpose(&[1i64, 2, 3, 4, 5, 6], 2, 3), vec![1, 4, 2, 5, 3, 6]);
    // a: 2x3, b: 3x2, g: 2x2 of ones
    let a = [1i64, 2, 3, 4, 5, 6];
    let b = [1i64, 2, 3, 4, 5, 6];
    let g = [1i64, 1, 1, 1];
    let (da, db) = matmul_gradients(&a, &b, &g, 2, 3, 2, 0);
    // da = g x b^T: each row is the row sums of b
    assert_eq!(da, vec![3, 7, 11, 3, 7, 11]);
    // db = a^T x g: each row holds the column sums of a
    assert_eq!(db, vec![5, 5, 7, 7, 9, 9]);
}

#[test]
fn integer_backward_is_exact() {
    let x = ti(vec![1, 2, 3], vec![3]).requires_grad_(true);
    let w = ti(vec![4, 5, 6], vec![3]).requires_grad_(true);
    x.mul(&w).unwrap().sum().unwrap().backward().unwrap();
    assert_eq!(x.grad().unwrap().to_vec().unwrap(), vec![4, 5, 6]);
    assert_eq!(w.grad().unwrap().to_vec().unwrap(), vec![1, 2, 3]);
}

#[test]
fn narrow_gradient_is_zero_outside_the_window() {
    let x = ti((0..6).collect(), vec![2, 3]).requires_grad_(true);
    let y = x.narrow(1, 1, 1).unwrap();
    let seed = ti(vec![7, 9], vec![2, 1]);
    y.backward_with_grad(Some(&seed)).unwrap();
    assert_eq!(x.grad().unwrap().to_vec().unwrap(), vec![0, 7, 0, 0, 9, 0]);
}

#[test]
fn leaf_gradients_accumulate_over_backward_passes() {
    let x = ti(vec![1, 2], vec![2]).requires_grad_(true);
    let s = x.sum().unwrap();
    s.backward().unwrap();
    s.backward().unwrap();
    assert_eq!(x.grad().unwrap().to_vec().unwrap(), vec![2, 2]);
}

#[test]
fn computed_tensors_do_not_keep_gradients() {
    let x = ti(vec![1, 2], vec![2]).requires_grad_(true);
    let y = x.mul(&x).unwrap();
    let s = y.sum().unwrap();
    s.backward().unwrap();
    assert!(y.grad().is_none());
    assert_eq!(x.grad().unwrap().to_vec().unwrap(), vec![2, 4]);
}

#[test]
fn a_copy_shares_the_gradient_of_its_source() {
    let x = ti(vec![3, 4], vec![2]).requires_grad_(true);
    let copy = x.clone();
    copy.sum().unwrap().backward().unwrap();
    assert_eq!(x.grad().unwrap().to_vec().unwrap(), vec![1, 1]);
    let detached = x.clone().requires_grad_(false);
    assert!(!detached.requires_grad());
    assert!(detached.grad().is_none());
}

#[test]
fn backward_error_variants() {
    let plain = ti(vec![1], vec![1]);
    assert!(matches!(plain.backward(), Err(TorshError::InvalidOperation(_))));
    let x = ti(vec![1, 2], vec![2]).requires_grad_(true);
    assert!(matches!(x.backward(), Err(TorshError::InvalidOperation(_))));
    let seed = ti(vec![1, 2, 3], vec![3]);
    match x.backward_with_grad(Some(&seed)) {
        Err(TorshError::ShapeMismatch { expected, got }) => {
            assert_eq!(expected, vec![2]);
            assert_eq!(got, vec![3]);
        }
        _ => panic!("expected a shape mismatch"),
    }
    assert!(x.grad().is_none());
}

#[test]
fn division_gradient_on_exact_values() {
    let a = ti(vec![8, 12], vec![2]).requires_grad_(true);
    let b = ti(vec![2, 2], vec![2]).requires_grad_(true);
    a.div(&b).unwrap().sum().unwrap().backward().unwrap();
    // d/da = 1 / b, d/db = -(a) / b^2
    assert_eq!(a.grad().unwrap().to_vec().unwrap(), vec![0, 0]);
    assert_eq!(b.grad().unwrap().to_vec().unwrap(), vec![-2, -3]);
}

#[test]
fn one_operation_using_a_tensor_twice_passes_back_both_shares() {
    // d/dx sum(x * x) = 2x: each of the two inputs contributes x.
    let x = ti(vec![1, -2, 3], vec![3]).requires_grad_(true);
    x.mul(&x).unwrap().sum().unwrap().backward().unwrap();
    assert_eq!(x.grad().unwrap().to_vec().unwrap(), vec![2, -4, 6]);
}

#[test]
fn two_operations_using_a_tensor_sum_their_shares() {
    // x reaches z = y + y * x (y = x * w) through y and directly through the
    // product: with w = 3, z = 3x + 3x^2, so dz/dx = 3 + 6x.
    let x = ti(vec![1, 2], vec![2]).requires_grad_(true);
    let w = ti(vec![3, 3], vec![2]);
    let y = x.mul(&w).unwrap();
    let z = y.add(&y.mul(&x).unwrap()).unwrap();
    z.sum().unwrap().backward().unwrap();
    assert_eq!(x.grad().unwrap().to_vec().unwrap(), vec![9, 15]);
}

#[test]
fn a_tensor_used_once_receives_the_seed_times_its_rule() {
    let x = ti(vec![2, 5], vec![2]).requires_grad_(true);
    let w = ti(vec![-1, 4], vec![2]);
    let y = x.mul(&w).unwrap();
    let seed = ti(vec![10, 100], vec![2]);
    y.backward_with_grad(Some(&seed)).unwrap();
    assert_eq!(x.grad().unwrap().to_vec().unwrap(), vec![-10, 400]);
}

#[test]
fn trace_gradients_lists_the_graph_and_the_gradient_of_every_node() {
    let x = ti(vec![1, 2, 3], vec![3]).requires_grad_(true);
    let w = ti(vec![4, 5, 6], vec![3]);
    let z = x.mul(&w).unwrap().sum().unwrap();
    let root = z.node_handle().unwrap();
    let (order, edges, grads) = trace_gradients(&root, vec![2], 0);
    // x, x * w and the sum, in that order; w takes no part.
    assert_eq!(order.len(), 3);
    assert_eq!(edges, vec![vec![], vec![Some(0), None], vec![Some(1)]]);
    assert_eq!(grads[2], Some(vec![2]));
    assert_eq!(grads[1], Some(vec![2, 2, 2]));
    assert_eq!(grads[0], Some(vec![8, 10, 12]));
    // Tracing leaves the tensors' own gradients untouched.
    assert!(x.grad().is_none());
}
