//! Element-wise, indexing and joining operations on concrete values.

use torsh::error::TorshError;
use torsh::tensor::{DeviceType, Tensor};

fn t32(data: Vec<f32>, shape: Vec<usize>) -> Tensor<f32> {
    Tensor::from_data(data, shape, DeviceType::Cpu).expect("tensor creation should succeed")
}

fn ti(data: Vec<i64>, shape: Vec<usize>) -> Tensor<i64> {
    Tensor::from_data(data, shape, DeviceType::Cpu).expect("tensor creation should succeed")
}

fn tb(data: Vec<bool>, shape: Vec<usize>) -> Tensor<bool> {
    Tensor::from_data(data, shape, DeviceType::Cpu).expect("tensor creation should succeed")
}

#[test]
fn comparisons_are_element_wise() {
    let a = ti(vec![1, 5, 3, 7], vec![2, 2]);
    let b = ti(vec![2, 5, 1, 8], vec![2, 2]);
    assert_eq!(a.gt(&b).unwrap().to_vec().unwrap(), vec![false, false, true, false]);
    assert_eq!(a.lt(&b).unwrap().to_vec().unwrap(), vec![true, false, false, true]);
    assert_eq!(a.ge(&b).unwrap().to_vec().unwrap(), vec![false, true, true, false]);
    assert_eq!(a.le(&b).unwrap().to_vec().unwrap(), vec![true, true, false, true]);
    assert_eq!(a.eq(&b).unwrap().to_vec().unwrap(), vec![false, true, false, false]);
    assert_eq!(a.ne(&b).unwrap().to_vec().unwrap(), vec![true, false, true, true]);
    assert_eq!(a.gt(&b).unwrap().shape().dims(), &[2, 2]);
}

#[test]
fn greater_is_flipped_less_on_values() {
    let a = t32(vec![0.5, -1.0, 2.0, 2.0], vec![4]);
    let b = t32(vec![1.0, -2.0, 2.0, -3.0], vec![4]);
    assert_eq!(a.gt(&b).unwrap().to_vec().unwrap(), b.lt(&a).unwrap().to_vec().unwrap());
    let ge = a.ge(&b).unwrap().to_vec().unwrap();
    let gt = a.gt(&b).unwrap().to_vec().unwrap();
    let eq = a.eq(&b).unwrap().to_vec().unwrap();
    for i in 0..4 {
        assert_eq!(ge[i], gt[i] || eq[i]);
    }
}

#[test]
fn comparison_shape_mismatch_reports_both_shapes() {
    let a = ti(vec![1, 2, 3], vec![3]);
    let b = ti(vec![1, 2], vec![2]);
    match a.gt(&b) {
        Err(TorshError::ShapeMismatch { expected, got }) => {
            assert_eq!(expected, vec![3]);
            assert_eq!(got, vec![2]);
        }
        _ => panic!("expected a shape mismatch"),
    }
    assert!(a.eq(&b).is_err());
}

#[test]
fn scalar_comparisons() {
    let a = ti(vec![1, 2, 3], vec![3]);
    assert_eq!(a.eq_scalar(2).unwrap().to_vec().unwrap(), vec![false, true, false]);
    assert_eq!(a.ne_scalar(2).unwrap().to_vec().unwrap(), vec![true, false, true]);
    assert_eq!(a.gt_scalar(2).unwrap().to_vec().unwrap(), vec![false, false, true]);
    assert_eq!(a.lt_scalar(2).unwrap().to_vec().unwrap(), vec![true, false, false]);
    assert_eq!(a.le_scalar(2).unwrap().to_vec().unwrap(), vec![true, true, false]);
    assert_eq!(a.ge_scalar(2).unwrap().to_vec().unwrap(), vec![false, true, true]);
}

#[test]
fn logical_operations() {
    let a = tb(vec![true, true, false, false], vec![4]);
    let b = tb(vec![true, false, true, false], vec![4]);
    assert_eq!(a.logical_and(&b).unwrap().to_vec().unwrap(), vec![true, false, false, false]);
    assert_eq!(a.logical_or(&b).unwrap().to_vec().unwrap(), vec![true, true, true, false]);
    assert_eq!(a.logical_xor(&b).unwrap().to_vec().unwrap(), vec![false, true, true, false]);
    let c = tb(vec![true], vec![1]);
    assert!(matches!(a.logical_and(&c), Err(TorshError::ShapeMismatch { .. })));
}

#[test]
fn where_tensor_selects_and_checks_shapes() {
    let x = ti(vec![1, 2, 3], vec![3]);
    let y = ti(vec![10, 20, 30], vec![3]);
    let c = tb(vec![true, false, true], vec![3]);
    assert_eq!(x.where_tensor(&c, &y).unwrap().to_vec().unwrap(), vec![1, 20, 3]);
    assert_eq!(x.where_tensor(&c, &x).unwrap().to_vec().unwrap(), vec![1, 2, 3]);
    let short = tb(vec![true], vec![1]);
    match x.where_tensor(&short, &y) {
        Err(TorshError::ShapeMismatch { expected, got }) => {
            assert_eq!(expected, vec![3]);
            assert_eq!(got, vec![1]);
        }
        _ => panic!("expected a shape mismatch"),
    }
}

#[test]
fn flatten_keeps_elements() {
    let x = ti(vec![1, 2, 3, 4, 5, 6], vec![2, 3]);
    let f = x.flatten().unwrap();
    assert_eq!(f.shape().dims(), &[6]);
    assert_eq!(f.to_vec().unwrap(), vec![1, 2, 3, 4, 5, 6]);
}

#[test]
fn broadcasting_arithmetic() {
    let x = ti(vec![1, 2, 3, 4, 5, 6], vec![2, 3]);
    let bias = ti(vec![10, 20, 30], vec![3]);
    let y = x.add_bias(&bias).unwrap();
    assert_eq!(y.shape().dims(), &[2, 3]);
    assert_eq!(y.to_vec().unwrap(), vec![11, 22, 33, 14, 25, 36]);

    let col = ti(vec![1, 2], vec![2, 1]);
    let row = ti(vec![10, 20, 30], vec![1, 3]);
    let s = col.add(&row).unwrap();
    assert_eq!(s.shape().dims(), &[2, 3]);
    assert_eq!(s.to_vec().unwrap(), vec![11, 21, 31, 12, 22, 32]);
    assert_eq!(row.sub(&col).unwrap().to_vec().unwrap(), vec![9, 19, 29, 8, 18, 28]);
    assert_eq!(col.mul(&row).unwrap().to_vec().unwrap(), vec![10, 20, 30, 20, 40, 60]);
    assert_eq!(row.div(&col).unwrap().to_vec().unwrap(), vec![10, 20, 30, 5, 10, 15]);

    let scalar = ti(vec![2], vec![]);
    assert_eq!(x.mul(&scalar).unwrap().to_vec().unwrap(), vec![2, 4, 6, 8, 10, 12]);

    let bad = ti(vec![1, 2], vec![2]);
    match x.add(&bad) {
        Err(TorshError::ShapeMismatch { expected, got }) => {
            assert_eq!(expected, vec![2, 3]);
            assert_eq!(got, vec![2]);
        }
        _ => panic!("expected a shape mismatch"),
    }
}

#[test]
fn sum_and_matmul_values() {
    let x = ti(vec![1, 2, 3, 4, 5, 6], vec![2, 3]);
    let s = x.sum().unwrap();
    assert_eq!(s.shape().dims(), &[] as &[usize]);
    assert_eq!(s.to_vec().unwrap(), vec![21]);

    let y = ti(vec![1, 0, 0, 1, 1, 1], vec![3, 2]);
    let p = x.matmul(&y).unwrap();
    assert_eq!(p.shape().dims(), &[2, 2]);
    assert_eq!(p.to_vec().unwrap(), vec![4, 5, 10, 11]);
    assert!(matches!(x.matmul(&x), Err(TorshError::ShapeMismatch { .. })));
}

#[test]
fn narrow_select_and_slice_values() {
    let x = ti((0..12).collect(), vec![3, 4]);
    let n = x.narrow(1, 1, 2).unwrap();
    assert_eq!(n.shape().dims(), &[3, 2]);
    assert_eq!(n.to_vec().unwrap(), vec![1, 2, 5, 6, 9, 10]);
    let last = x.narrow(-1, 3, 1).unwrap();
    assert_eq!(last.to_vec().unwrap(), vec![3, 7, 11]);

    let row = x.select(0, 1).unwrap();
    assert_eq!(row.shape().dims(), &[4]);
    assert_eq!(row.to_vec().unwrap(), vec![4, 5, 6, 7]);
    let col = x.select(-1, 2).unwrap();
    assert_eq!(col.shape().dims(), &[3]);
    assert_eq!(col.to_vec().unwrap(), vec![2, 6, 10]);

    let s = x.slice_tensor(1, 1, 3).unwrap();
    assert_eq!(s.to_vec().unwrap(), n.to_vec().unwrap());
    let empty = x.slice_tensor(0, 2, 2).unwrap();
    assert_eq!(empty.shape().dims(), &[0, 4]);
    assert_eq!(empty.numel(), 0);
}

#[test]
fn indexing_errors_are_invalid_arguments() {
    let x = ti((0..12).collect(), vec![3, 4]);
    assert!(matches!(x.narrow(2, 0, 1), Err(TorshError::InvalidArgument(_))));
    assert!(matches!(x.narrow(-3, 0, 1), Err(TorshError::InvalidArgument(_))));
    assert!(matches!(x.narrow(1, 3, 2), Err(TorshError::InvalidArgument(_))));
    assert!(matches!(x.select(0, 3), Err(TorshError::InvalidArgument(_))));
    assert!(matches!(x.slice_tensor(1, 3, 2), Err(TorshError::InvalidArgument(_))));
    assert!(matches!(x.slice_tensor(1, 0, 5), Err(TorshError::InvalidArgument(_))));
    assert!(matches!(x.slice_tensor(2, 0, 1), Err(TorshError::InvalidArgument(_))));
    assert!(matches!(x.get_flat(12), Err(TorshError::InvalidArgument(_))));
    assert!(matches!(x.get_slice(10, 3), Err(TorshError::InvalidArgument(_))));
    assert_eq!(x.get_slice(10, 2).unwrap(), vec![10, 11]);
}

#[test]
fn cat_then_narrow_gives_back_each_input() {
    let a = ti((0..6).collect(), vec![2, 3]);
    let b = ti((10..14).collect(), vec![2, 2]);
    let c = Tensor::cat(&[&a, &b], 1).unwrap();
    assert_eq!(c.shape().dims(), &[2, 5]);
    assert_eq!(c.to_vec().unwrap(), vec![0, 1, 2, 10, 11, 3, 4, 5, 12, 13]);
    assert_eq!(c.narrow(1, 0, 3).unwrap().to_vec().unwrap(), a.to_vec().unwrap());
    assert_eq!(c.narrow(1, 3, 2).unwrap().to_vec().unwrap(), b.to_vec().unwrap());
    let rows = Tensor::cat(&[&a, &a], -2).unwrap();
    assert_eq!(rows.shape().dims(), &[4, 3]);
    assert_eq!(rows.to_vec().unwrap(), vec![0, 1, 2, 3, 4, 5, 0, 1, 2, 3, 4, 5]);
}

#[test]
fn cat_errors() {
    let a = ti((0..6).collect(), vec![2, 3]);
    let b = ti((0..6).collect(), vec![3, 2]);
    let none: [&Tensor<i64>; 0] = [];
    assert!(matches!(Tensor::cat(&none, 0), Err(TorshError::InvalidArgument(_))));
    assert!(matches!(Tensor::cat(&[&a, &a], 2), Err(TorshError::InvalidArgument(_))));
    match Tensor::cat(&[&a, &b], 1) {
        Err(TorshError::ShapeMismatch { expected, got }) => {
            assert_eq!(expected, vec![2, 3]);
            assert_eq!(got, vec![3, 2]);
        }
        _ => panic!("expected a shape mismatch"),
    }
}

#[test]
fn stack_then_select_gives_back_each_input() {
    let a = ti(vec![1, 2, 3], vec![3]);
    let b = ti(vec![4, 5, 6], vec![3]);
    let s0 = Tensor::stack(&[a.clone(), b.clone()], 0).unwrap();
    assert_eq!(s0.shape().dims(), &[2, 3]);
    assert_eq!(s0.to_vec().unwrap(), vec![1, 2, 3, 4, 5, 6]);
    let s1 = Tensor::stack(&[a.clone(), b.clone()], 1).unwrap();
    assert_eq!(s1.shape().dims(), &[3, 2]);
    assert_eq!(s1.to_vec().unwrap(), vec![1, 4, 2, 5, 3, 6]);
    assert_eq!(s1.select(1, 0).unwrap().to_vec().unwrap(), vec![1, 2, 3]);
    assert_eq!(s1.select(1, 1).unwrap().to_vec().unwrap(), vec![4, 5, 6]);
}

#[test]
fn stack_errors() {
    let a = ti(vec![1, 2, 3], vec![3]);
    let b = ti(vec![4, 5], vec![2]);
    let none: [Tensor<i64>; 0] = [];
    assert!(matches!(Tensor::stack(&none, 0), Err(TorshError::InvalidArgument(_))));
    assert!(matches!(Tensor::stack(&[a.clone(), a.clone()], 2), Err(TorshError::InvalidArgument(_))));
    match Tensor::stack(&[a.clone(), b], 0) {
        Err(TorshError::ShapeMismatch { expected, got }) => {
            assert_eq!(expected, vec![3]);
            assert_eq!(got, vec![2]);
        }
        _ => panic!("expected a shape mismatch"),
    }
}

#[test]
fn set_data_then_read_gives_back_the_write() {
    let mut x = ti(vec![0, 0, 0, 0], vec![2, 2]);
    x.set_data(&[4, 3, 2, 1]).unwrap();
    assert_eq!(x.get_slice(0, 4).unwrap(), vec![4, 3, 2, 1]);
    assert_eq!(x.get_flat(2).unwrap(), 2);
    assert!(matches!(x.set_data(&[1, 2, 3]), Err(TorshError::InvalidArgument(_))));
    assert_eq!(x.to_vec().unwrap(), vec![4, 3, 2, 1]);
    let wrong = ti(vec![1, 2], vec![2]);
    assert!(matches!(x.copy_(&wrong), Err(TorshError::ShapeMismatch { .. })));
}

#[test]
fn from_data_rejects_mismatched_lengths() {
    assert!(matches!(
        Tensor::from_data(vec![1i64, 2, 3], vec![2, 2], DeviceType::Cpu),
        Err(TorshError::InvalidArgument(_))
    ));
    let t = Tensor::from_data(vec![7i64], vec![], DeviceType::Cpu).unwrap();
    assert_eq!(t.numel(), 1);
    assert_eq!(t.ndim(), 0);
    assert_eq!(t.device(), DeviceType::Cpu);
}

#[test]
fn transpose_exchanges_axes() {
    let x = ti((0..6).collect(), vec![2, 3]);
    let t = x.transpose_view(0, 1).unwrap();
    assert_eq!(t.shape().dims(), &[3, 2]);
    assert_eq!(t.to_vec().unwrap(), vec![0, 3, 1, 4, 2, 5]);
    assert_eq!(t.transpose_view(1, 0).unwrap().to_vec().unwrap(), x.to_vec().unwrap());
    assert_eq!(x.transpose_view(1, 1).unwrap().to_vec().unwrap(), x.to_vec().unwrap());

    let y = ti((0..24).collect(), vec![2, 3, 4]);
    let z = y.transpose_view(0, 2).unwrap();
    assert_eq!(z.shape().dims(), &[4, 3, 2]);
    let zv = z.to_vec().unwrap();
    for i in 0..2 {
        for j in 0..3 {
            for k in 0..4 {
                assert_eq!(zv[(k * 3 + j) * 2 + i], ((i * 3 + j) * 4 + k) as i64);
            }
        }
    }
    assert!(matches!(x.transpose_view(0, 2), Err(TorshError::InvalidArgument(_))));
}

#[test]
fn transpose_gradient_is_transposed_back() {
    let x = ti((0..6).collect(), vec![2, 3]).requires_grad_(true);
    let t = x.transpose_view(0, 1).unwrap();
    let seed = ti(vec![10, 20, 30, 40, 50, 60], vec![3, 2]);
    t.backward_with_grad(Some(&seed)).unwrap();
    assert_eq!(x.grad().unwrap().to_vec().unwrap(), vec![10, 30, 50, 20, 40, 60]);
}

#[test]
fn flatten_gradient_flows_back_in_place() {
    let x = ti((0..6).collect(), vec![2, 3]).requires_grad_(true);
    let f = x.flatten().unwrap();
    assert!(f.requires_grad());
    let seed = ti(vec![1, 2, 3, 4, 5, 6], vec![6]);
    f.backward_with_grad(Some(&seed)).unwrap();
    assert_eq!(x.grad().unwrap().shape().dims(), &[2, 3]);
    assert_eq!(x.grad().unwrap().to_vec().unwrap(), vec![1, 2, 3, 4, 5, 6]);
}

#[test]
fn load_parameter_copies_out_a_named_tensor_or_reports_it_missing() {
    let mut params: std::collections::HashMap<String, Tensor<i64>> = std::collections::HashMap::new();
    params.insert(
        String::from("weight"),
        Tensor::from_data(vec![1, 2, 3, 4, 5, 6], vec![2, 3], DeviceType::Cpu).unwrap(),
    );
    let (values, dims) = torsh::recurrent::load_parameter(&params, "weight").unwrap();
    assert_eq!(values, vec![1, 2, 3, 4, 5, 6]);
    assert_eq!(dims, vec![2, 3]);
    assert!(matches!(
        torsh::recurrent::load_parameter(&params, "bias"),
        Err(TorshError::InvalidArgument(_))
    ));
}
