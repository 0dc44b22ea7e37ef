use autograd::ndarray_ext::{from_scalar, NdArray};
use autograd::ops::generator_ops::{ConvertToTensor, Ones, Range, RangeDynamic, Zeros};
use autograd::ops::Op;

#[test]
fn zeros_op_computes_zero_fill() {
    let op = Zeros { shape: vec![2, 3] };
    let r = Op::<i32>::compute(&op, &Vec::new(), false);
    assert_eq!(r.shape, vec![2, 3]);
    assert_eq!(r.data.len(), 6);
    for b in &r.data {
        assert_eq!(f32::from_bits(*b), 0.0);
    }
    assert_eq!(Op::<i32>::name(&op), "Zeros");
}

#[test]
fn ones_op_computes_one_fill() {
    let op = Ones { shape: vec![3] };
    let r = Op::<i32>::compute(&op, &Vec::new(), true);
    assert_eq!(r.shape, vec![3]);
    for b in &r.data {
        assert_eq!(f32::from_bits(*b), 1.0);
    }
    assert_eq!(Op::<i32>::name(&op), "Ones");
}

#[test]
fn convert_to_tensor_returns_fresh_copies() {
    let arr = NdArray { shape: vec![3], data: vec![1, 2, 3] };
    let op = ConvertToTensor { arr };
    let mut first = Op::<i32>::compute(&op, &Vec::new(), false);
    assert_eq!(first.shape, vec![3]);
    assert_eq!(first.data, vec![1, 2, 3]);
    first.data[0] = 99;
    first.shape[0] = 7;
    let second = Op::<i32>::compute(&op, &Vec::new(), false);
    assert_eq!(second.shape, vec![3]);
    assert_eq!(second.data, vec![1, 2, 3]);
    assert_eq!(Op::<i32>::name(&op), "ConvertToTensor");
}

#[test]
fn source_ops_have_no_gradient_inputs() {
    let zeros_op = Zeros { shape: vec![1] };
    let ones_op = Ones { shape: vec![1] };
    let convert_op = ConvertToTensor { arr: NdArray { shape: vec![0], data: Vec::new() } };
    let range_op = Range { start: 0, end: 0, step: 0 };
    let range_dynamic_op = RangeDynamic;
    let y: i32 = 0;
    let gy: i32 = 1;
    let xs: Vec<i32> = Vec::new();
    assert!(Op::<i32>::grad(&zeros_op, &y, &xs, &gy).is_empty());
    assert!(Op::<i32>::grad(&ones_op, &y, &xs, &gy).is_empty());
    assert!(Op::<i32>::grad(&convert_op, &y, &xs, &gy).is_empty());
    assert!(range_op.grad(&y, &xs, &gy).is_empty());
    assert!(range_dynamic_op.grad(&y, &xs, &gy).is_empty());
}

#[test]
fn range_ops_report_their_names() {
    let range_op = Range { start: 0, end: 0, step: 0 };
    assert_eq!(range_op.name(), "Range");
    assert_eq!(RangeDynamic.name(), "RangeDynamic");
}

#[test]
fn range_dynamic_scalars_accepts_three_single_element_inputs() {
    let xs = vec![
        from_scalar(0.0f32.to_bits()),
        from_scalar(5.0f32.to_bits()),
        from_scalar(1.0f32.to_bits()),
    ];
    let (start, end, step) = RangeDynamic.scalars(&xs).expect("three scalars");
    assert_eq!(f32::from_bits(start), 0.0);
    assert_eq!(f32::from_bits(end), 5.0);
    assert_eq!(f32::from_bits(step), 1.0);
}

#[test]
fn range_parameters_feed_one_arithmetic_sequence() {
    // Both range operations carry 32-bit float bit patterns; the dynamic
    // one reads the same three scalars from its inputs, so both hand the
    // same parameters to the sequence generator.
    let op = Range { start: 0.0f32.to_bits(), end: 5.0f32.to_bits(), step: 1.0f32.to_bits() };
    let xs = vec![from_scalar(op.start), from_scalar(op.end), from_scalar(op.step)];
    let (start, end, step) = RangeDynamic.scalars(&xs).expect("three scalars");
    assert_eq!((start, end, step), (op.start, op.end, op.step));
    let values = ndarray::Array1::range(
        f32::from_bits(start),
        f32::from_bits(end),
        f32::from_bits(step),
    );
    let bits: Vec<u32> = values.iter().map(|v| v.to_bits()).collect();
    let a = autograd::ndarray_ext::array_from_bits(&vec![bits.len()], bits)
        .expect("rank-1 shape of the sequence length");
    let floats: Vec<f32> = a.data.iter().map(|b| f32::from_bits(*b)).collect();
    assert_eq!(floats, vec![0.0, 1.0, 2.0, 3.0, 4.0]);
}

#[test]
fn range_dynamic_scalars_rejects_bad_inputs() {
    let two = vec![from_scalar(0), from_scalar(1)];
    assert!(RangeDynamic.scalars(&two).is_none());
    let wide = vec![
        from_scalar(0),
        NdArray { shape: vec![2], data: vec![1, 2] },
        from_scalar(1),
    ];
    assert!(RangeDynamic.scalars(&wide).is_none());
    assert!(RangeDynamic.scalars(&Vec::new()).is_none());
}
