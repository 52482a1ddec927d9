//! Indexing operations keep the computation graph; constructors and in-place
//! writes check their lengths.

use torsh::creation;
use torsh::tensor::{DeviceType, Tensor};

fn t32(data: Vec<f32>, shape: Vec<usize>) -> Tensor<f32> {
    Tensor::from_data(data, shape, DeviceType::Cpu).expect("f32 tensor creation should succeed")
}

/// Distinct, non-uniform ramp so a mis-scatter cannot pass by symmetry.
fn ramp(shape: &[usize]) -> Tensor<f32> {
    let n: usize = shape.iter().product();
    let data: Vec<f32> = (0..n).map(|i| (i as f32) * 0.5 + 1.0).collect();
    t32(data, shape.to_vec())
}

fn assert_close(a: &[f32], b: &[f32], tol: f32, ctx: &str) {
    assert_eq!(a.len(), b.len(), "{ctx}: length mismatch");
    for (i, (x, y)) in a.iter().zip(b.iter()).enumerate() {
        assert!(
            (x - y).abs() <= tol,
            "{ctx}: index {i}: {x} vs {y} (tol {tol})"
        );
    }
}

#[test]
fn narrow_backward_scatters_into_zeros_f133() {
    let x = ramp(&[4, 5]).requires_grad_(true);
    let y = x.narrow(0, 1, 2).expect("narrow");
    assert_eq!(y.shape().dims(), &[2, 5]);
    let seed = ramp(&[2, 5]);
    y.backward_with_grad(Some(&seed))
        .expect("narrow backward");

    let seed_v = seed.to_vec().unwrap();
    let mut exp = vec![0.0f32; 20];
    for r in 0..2 {
        for c in 0..5 {
            exp[(r + 1) * 5 + c] = seed_v[r * 5 + c];
        }
    }
    let g = x
        .grad()
        .expect("narrow input grad must exist");
    assert_close(&g.to_vec().unwrap(), &exp, 1e-5, "narrow grad");
}

#[test]
fn select_backward_scatters_row() {
    let x = ramp(&[4, 3]).requires_grad_(true);
    let y = x.select(0, 2).expect("select");
    assert_eq!(y.shape().dims(), &[3]);
    let seed = t32(vec![10.0, 20.0, 30.0], vec![3]);
    y.backward_with_grad(Some(&seed)).expect("select backward");
    let mut exp = vec![0.0f32; 12];
    exp[2 * 3] = 10.0;
    exp[2 * 3 + 1] = 20.0;
    exp[2 * 3 + 2] = 30.0;
    let g = x.grad().expect("select input grad must exist");
    assert_close(&g.to_vec().unwrap(), &exp, 1e-5, "select grad");
}

#[test]
fn slice_tensor_backward_scatters_view() {
    let x = ramp(&[3, 4]).requires_grad_(true);
    let y = x.slice_tensor(1, 1, 3).expect("slice_tensor");
    assert_eq!(y.shape().dims(), &[3, 2]);
    let seed = ramp(&[3, 2]);
    y.backward_with_grad(Some(&seed))
        .expect("slice_tensor backward");
    let seed_v = seed.to_vec().unwrap();
    let mut exp = vec![0.0f32; 12];
    for r in 0..3 {
        for c in 0..2 {
            exp[r * 4 + (c + 1)] = seed_v[r * 2 + c];
        }
    }
    let g = x
        .grad()
        .expect("slice_tensor input grad must exist");
    assert_close(&g.to_vec().unwrap(), &exp, 1e-5, "slice_tensor grad");
}

#[test]
fn from_vec_rejects_length_mismatch() {
    assert!(
        Tensor::<f32>::from_vec(vec![0.0; 8], &[4, 1, 2, 2]).is_err(),
        "Tensor::from_vec must reject len != numel"
    );
    assert!(
        creation::from_vec(vec![0.0f32; 8], &[4, 1, 2, 2], DeviceType::Cpu).is_err(),
        "creation::from_vec must reject len != numel"
    );
    assert!(Tensor::<f32>::from_vec(vec![0.0; 16], &[4, 1, 2, 2]).is_ok());
}

#[test]
fn copy_is_cow_safe_shared_clone_survives() {
    let mut a = t32(vec![1.0, 2.0, 3.0], vec![3]);
    let snap = a.clone();
    a.copy_(&t32(vec![9.0, 9.0, 9.0], vec![3])).expect("copy_");
    assert_eq!(
        snap.to_vec().unwrap(),
        vec![1.0, 2.0, 3.0],
        "copy_ must not clobber a shared snapshot clone"
    );
    assert_eq!(a.to_vec().unwrap(), vec![9.0, 9.0, 9.0]);
}

#[test]
fn copy_from_and_set_data_are_cow_safe() {
    let mut a = t32(vec![1.0, 2.0, 3.0], vec![3]);
    let snap = a.clone();
    a.copy_from(&t32(vec![7.0, 8.0, 9.0], vec![3]))
        .expect("copy_from");
    assert_eq!(
        snap.to_vec().unwrap(),
        vec![1.0, 2.0, 3.0],
        "copy_from clobbered clone"
    );
    assert_eq!(a.to_vec().unwrap(), vec![7.0, 8.0, 9.0]);

    let mut b = t32(vec![1.0, 2.0, 3.0, 4.0], vec![2, 2]);
    let snap_b = b.clone();
    b.set_data(&[5.0, 6.0, 7.0, 8.0]).expect("set_data");
    assert_eq!(
        snap_b.to_vec().unwrap(),
        vec![1.0, 2.0, 3.0, 4.0],
        "set_data clobbered clone"
    );
    assert_eq!(b.to_vec().unwrap(), vec![5.0, 6.0, 7.0, 8.0]);
    assert!(
        b.set_data(&[1.0]).is_err(),
        "set_data must reject length mismatch"
    );
}

#[test]
fn cat_backward_splits_grad_along_dim1() {
    let a = ramp(&[2, 3, 4]).requires_grad_(true);
    let b = ramp(&[2, 3, 4]).requires_grad_(true);
    let out = Tensor::cat(&[&a, &b], 1).expect("cat");
    assert_eq!(out.shape().dims(), &[2, 6, 4]);

    let seed = ramp(&[2, 6, 4]);
    out.backward_with_grad(Some(&seed)).expect("cat backward");

    let seed_v = seed.to_vec().expect("seed");
    let mut exp_a = vec![0.0f32; 2 * 3 * 4];
    let mut exp_b = vec![0.0f32; 2 * 3 * 4];
    for o in 0..2 {
        for d in 0..6 {
            for k in 0..4 {
                let s = ((o * 6 + d) * 4 + k) as usize;
                if d < 3 {
                    exp_a[(o * 3 + d) * 4 + k] = seed_v[s];
                } else {
                    exp_b[(o * 3 + (d - 3)) * 4 + k] = seed_v[s];
                }
            }
        }
    }
    let ga = a
        .grad()
        .expect("a grad must exist")
        .to_vec()
        .unwrap();
    let gb = b
        .grad()
        .expect("b grad must exist")
        .to_vec()
        .unwrap();
    assert_close(&ga, &exp_a, 1e-5, "cat grad a");
    assert_close(&gb, &exp_b, 1e-5, "cat grad b");
}

#[test]
fn stack_backward_selects_grad_along_new_dim1() {
    let a = ramp(&[2, 4]).requires_grad_(true);
    let b = ramp(&[2, 4]).requires_grad_(true);
    let c = ramp(&[2, 4]).requires_grad_(true);
    let out = Tensor::stack(&[a.clone(), b.clone(), c.clone()], 1).expect("stack");
    assert_eq!(out.shape().dims(), &[2, 3, 4]);

    let seed = ramp(&[2, 3, 4]);
    out.backward_with_grad(Some(&seed)).expect("stack backward");
    let seed_v = seed.to_vec().unwrap();

    let mut exp = [vec![0.0f32; 8], vec![0.0f32; 8], vec![0.0f32; 8]];
    for o in 0..2 {
        for j in 0..3 {
            for k in 0..4 {
                exp[j][o * 4 + k] = seed_v[(o * 3 + j) * 4 + k];
            }
        }
    }
    for (idx, tns) in [&a, &b, &c].iter().enumerate() {
        let g = tns
            .grad()
            .expect("stack input grad must exist")
            .to_vec()
            .unwrap();
        assert_close(&g, &exp[idx], 1e-5, "stack grad");
    }
}

#[test]
fn cat_backward_accumulates_duplicate_input() {
    let a = ramp(&[2, 3]).requires_grad_(true);
    let out = Tensor::cat(&[&a, &a], 0).expect("cat");
    let seed = ramp(&[4, 3]);
    out.backward_with_grad(Some(&seed))
        .expect("cat duplicate-input backward");
    let seed_v = seed.to_vec().unwrap();
    let mut exp = vec![0.0f32; 6];
    for r in 0..2 {
        for c in 0..3 {
            exp[r * 3 + c] = seed_v[r * 3 + c] + seed_v[(r + 2) * 3 + c];
        }
    }
    let g = a.grad().expect("duplicate-input grad").to_vec().unwrap();
    assert_close(&g, &exp, 1e-5, "cat duplicate-input grad accumulation");
}
