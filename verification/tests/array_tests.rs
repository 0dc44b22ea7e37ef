use rand::distributions::IndependentSample;

use autograd::ndarray_ext::{
    array_from_bits, bernoulli_from_units, expand_dims, expand_dims_view, from_scalar, into_mat,
    ones, permutation, roll_axis, size_of_shape_exec, swap_axes, weight_matrix_fans, zeros,
    NdArray,
};

fn bits_vec(vals: &[f32]) -> Vec<u32> {
    vals.iter().map(|v| v.to_bits()).collect()
}

fn floats_vec(bits: &[u32]) -> Vec<f32> {
    bits.iter().map(|b| f32::from_bits(*b)).collect()
}

#[test]
fn zeros_shape_and_values() {
    let a = zeros(&vec![2, 3]);
    assert_eq!(a.shape, vec![2, 3]);
    assert_eq!(a.data.len(), 6);
    for b in &a.data {
        assert_eq!(f32::from_bits(*b), 0.0);
    }
}

#[test]
fn ones_shape_and_values() {
    let a = ones(&vec![4, 2]);
    assert_eq!(a.shape, vec![4, 2]);
    assert_eq!(a.data.len(), 8);
    for b in &a.data {
        assert_eq!(f32::from_bits(*b), 1.0);
    }
}

#[test]
fn zeros_zero_sized_and_scalar_shapes() {
    let empty_dim = zeros(&vec![2, 0, 3]);
    assert_eq!(empty_dim.shape, vec![2, 0, 3]);
    assert_eq!(empty_dim.data.len(), 0);
    let rank0 = zeros(&vec![]);
    assert_eq!(rank0.shape, Vec::<usize>::new());
    assert_eq!(rank0.data.len(), 1);
}

#[test]
fn from_scalar_wraps_one_value() {
    let a = from_scalar(2.5f32.to_bits());
    assert_eq!(a.shape, vec![1]);
    assert_eq!(floats_vec(&a.data), vec![2.5]);
}

#[test]
fn size_of_shape_exec_products() {
    assert_eq!(size_of_shape_exec(&vec![2, 3, 4]), 24);
    assert_eq!(size_of_shape_exec(&vec![]), 1);
    assert_eq!(size_of_shape_exec(&vec![5, 0, 7]), 0);
}

#[test]
fn permutation_is_rearrangement_of_range() {
    let p = permutation(10);
    assert_eq!(p.len(), 10);
    let mut sorted = p.clone();
    sorted.sort();
    assert_eq!(sorted, (0..10).collect::<Vec<usize>>());
    assert_eq!(permutation(0), Vec::<usize>::new());
}

#[test]
fn permutation_actually_shuffles() {
    let identity: Vec<usize> = (0..20).collect();
    let mut any_moved = false;
    for _ in 0..5 {
        if permutation(20) != identity {
            any_moved = true;
        }
    }
    assert!(any_moved);
}

#[test]
fn expand_dims_inserts_unit_axis() {
    let a = NdArray { shape: vec![3, 4], data: vec![7; 12] };
    let b = expand_dims(a, 1);
    assert_eq!(b.shape, vec![3, 1, 4]);
    assert_eq!(b.data, vec![7; 12]);
    let c = expand_dims(b, 0);
    assert_eq!(c.shape, vec![1, 3, 1, 4]);
    let d = expand_dims(c, 4);
    assert_eq!(d.shape, vec![1, 3, 1, 4, 1]);
    assert_eq!(d.data, vec![7; 12]);
}

#[test]
fn expand_dims_view_leaves_original() {
    let a = NdArray { shape: vec![2, 2], data: vec![1, 2, 3, 4] };
    let b = expand_dims_view(&a, 2);
    assert_eq!(b.shape, vec![2, 2, 1]);
    assert_eq!(b.data, vec![1, 2, 3, 4]);
    assert_eq!(a.shape, vec![2, 2]);
    assert_eq!(a.data, vec![1, 2, 3, 4]);
}

#[test]
fn roll_axis_reorders_shape_only() {
    let mut a = zeros(&vec![2, 3, 4]);
    roll_axis(&mut a, 0, 2);
    assert_eq!(a.shape, vec![4, 2, 3]);
    assert_eq!(a.data.len(), 24);
    let mut sorted = a.shape.clone();
    sorted.sort();
    assert_eq!(sorted, vec![2, 3, 4]);
}

#[test]
fn roll_axis_inverse_restores() {
    let data: Vec<u32> = (0..24).collect();
    let mut a = NdArray { shape: vec![2, 3, 4], data: data.clone() };
    roll_axis(&mut a, 0, 2);
    roll_axis(&mut a, 2, 0);
    assert_eq!(a.shape, vec![2, 3, 4]);
    assert_eq!(a.data, data);
}

#[test]
fn roll_axis_transposes_elements() {
    // 2 x 3, row-major: element (i, j) at offset i * 3 + j.
    let data: Vec<u32> = (0..6).collect();
    let mut a = NdArray { shape: vec![2, 3], data: data.clone() };
    roll_axis(&mut a, 0, 1);
    assert_eq!(a.shape, vec![3, 2]);
    for i in 0..3 {
        for j in 0..2 {
            assert_eq!(a.data[i * 2 + j], data[j * 3 + i]);
        }
    }
}

#[test]
fn roll_axis_moves_elements_across_three_axes() {
    // 2 x 3 x 4, row-major; rolling axis 2 to the front gives 4 x 2 x 3,
    // and the element at (i, j, k) of the result sat at (j, k, i).
    let data: Vec<u32> = (0..24).collect();
    let mut a = NdArray { shape: vec![2, 3, 4], data: data.clone() };
    roll_axis(&mut a, 0, 2);
    assert_eq!(a.shape, vec![4, 2, 3]);
    for i in 0..4 {
        for j in 0..2 {
            for k in 0..3 {
                assert_eq!(a.data[i * 6 + j * 3 + k], data[j * 12 + k * 4 + i]);
            }
        }
    }
}

#[test]
fn roll_axis_to_same_position_is_identity() {
    let data: Vec<u32> = (0..6).collect();
    let mut a = NdArray { shape: vec![2, 3], data: data.clone() };
    roll_axis(&mut a, 1, 1);
    assert_eq!(a.shape, vec![2, 3]);
    assert_eq!(a.data, data);
}

#[test]
fn swap_axes_exchanges_dimensions() {
    let data: Vec<u32> = (0..6).collect();
    let mut a = NdArray { shape: vec![2, 3], data: data.clone() };
    swap_axes(&mut a, 0, 1);
    assert_eq!(a.shape, vec![3, 2]);
    for i in 0..3 {
        for j in 0..2 {
            assert_eq!(a.data[i * 2 + j], data[j * 3 + i]);
        }
    }
}

#[test]
fn into_mat_keeps_rows_cols_and_buffer() {
    let a = NdArray { shape: vec![2, 3], data: (0..6).collect() };
    let m = into_mat(a);
    assert_eq!(m.rows, 2);
    assert_eq!(m.cols, 3);
    assert_eq!(m.data, (0..6).collect::<Vec<u32>>());
}

#[test]
fn array_from_bits_checks_the_size() {
    let ok = array_from_bits(&vec![2, 2], vec![1, 2, 3, 4]);
    let a = ok.expect("buffer fits the shape");
    assert_eq!(a.shape, vec![2, 2]);
    assert_eq!(a.data, vec![1, 2, 3, 4]);
    assert!(array_from_bits(&vec![2, 2], vec![1, 2, 3]).is_none());
    let empty = array_from_bits(&vec![0], Vec::new());
    assert!(empty.is_some());
}

#[test]
fn bernoulli_from_units_thresholds_exactly() {
    let shape = vec![3];
    let units: Vec<u64> = [0.1f64, 0.5, 0.9].iter().map(|v| v.to_bits()).collect();
    let a = bernoulli_from_units(&shape, &units, 0.5f64.to_bits()).expect("sizes match");
    assert_eq!(floats_vec(&a.data), vec![1.0, 0.0, 0.0]);
    let all = bernoulli_from_units(&shape, &units, 1.0f64.to_bits()).expect("sizes match");
    assert_eq!(floats_vec(&all.data), vec![1.0, 1.0, 1.0]);
    let none = bernoulli_from_units(&shape, &units, 0.0f64.to_bits()).expect("sizes match");
    assert_eq!(floats_vec(&none.data), vec![0.0, 0.0, 0.0]);
    assert!(bernoulli_from_units(&vec![2], &units, 0).is_none());
}

#[test]
fn bernoulli_mean_approaches_probability() {
    let n = 10000;
    let dist = rand::distributions::Range::new(0f64, 1f64);
    let mut rng = rand::weak_rng();
    let units: Vec<u64> = (0..n).map(|_| dist.ind_sample(&mut rng).to_bits()).collect();
    let a = bernoulli_from_units(&vec![n], &units, 0.3f64.to_bits()).expect("sizes match");
    let mean: f64 =
        a.data.iter().map(|b| f32::from_bits(*b) as f64).sum::<f64>() / n as f64;
    assert!((mean - 0.3).abs() < 0.05);
    for b in &a.data {
        let v = f32::from_bits(*b);
        assert!(v == 0.0 || v == 1.0);
    }
}

#[test]
fn weight_matrix_fans_requires_rank_two() {
    assert_eq!(weight_matrix_fans(&vec![64, 32]), Some((64, 32)));
    assert!(weight_matrix_fans(&vec![3]).is_none());
    assert!(weight_matrix_fans(&vec![2, 3, 4]).is_none());
    assert!(weight_matrix_fans(&vec![0, 5]).is_none());
}

#[test]
fn deep_copy_is_independent() {
    let a = NdArray { shape: vec![2], data: bits_vec(&[1.5, -2.0]) };
    let mut b = a.deep_copy();
    assert_eq!(b.shape, a.shape);
    assert_eq!(b.data, a.data);
    b.data[0] = 0;
    assert_eq!(f32::from_bits(a.data[0]), 1.5);
}
