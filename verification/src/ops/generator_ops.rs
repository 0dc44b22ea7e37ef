//! Source operations: leaf nodes of a computation graph.  None has a
//! differentiable input, so every backward pass is empty.
//!
//! `Zeros`, `Ones` and `ConvertToTensor` implement the full operator
//! contract.  `Range` and `RangeDynamic` produce a floating-point
//! arithmetic sequence, which cannot be computed here; they carry their
//! parameters, their names and their (empty) backward passes, and the
//! validated scalar extraction for `RangeDynamic`, while the sequence
//! itself is generated by the caller that owns the floating-point side.

use vstd::prelude::*;
use crate::ndarray_ext::{size_of_shape, zeros, ones, NdArray, F32_ZERO_BITS, F32_ONE_BITS};
use crate::ops::Op;

verus! {

/// A constant array of zeros of a fixed shape.
pub struct Zeros {
    pub shape: Vec<usize>,
}

/// A constant array of ones of a fixed shape.
pub struct Ones {
    pub shape: Vec<usize>,
}

/// An arithmetic sequence from `start` to `end` (exclusive) stepping by
/// `step`, the three parameters fixed at graph-construction time as
/// 32-bit float bit patterns.
pub struct Range {
    pub start: u32,
    pub end: u32,
    pub step: u32,
}

/// An arithmetic sequence whose start, end and step are read at compute
/// time from three single-element input arrays.
pub struct RangeDynamic;

/// Injection of a literal array into a graph: every forward pass returns
/// an independent copy of the embedded array.
pub struct ConvertToTensor {
    pub arr: NdArray,
}

impl<T> Op<T> for Zeros {
    open spec fn compute_req(&self, xs: Seq<NdArray>) -> bool {
        size_of_shape(self.shape@) <= usize::MAX
    }

    open spec fn compute_ens(&self, xs: Seq<NdArray>, r: NdArray) -> bool {
        &&& r.shape@ == self.shape@
        &&& forall|i: int| 0 <= i < r.data@.len() ==> r.data@[i] == F32_ZERO_BITS
    }

    open spec fn grad_ens(&self, r: Seq<Option<T>>) -> bool {
        r.len() == 0
    }

    open spec fn name_spec(&self) -> Seq<char> {
        "Zeros"@
    }

    fn name(&self) -> &'static str {
        "Zeros"
    }

    fn compute(&self, _xs: &Vec<NdArray>, _is_training: bool) -> NdArray {
        zeros(&self.shape)
    }

    fn grad(&self, _y: &T, _xs: &Vec<T>, _gy: &T) -> Vec<Option<T>> {
        Vec::new()
    }
}

impl<T> Op<T> for Ones {
    open spec fn compute_req(&self, xs: Seq<NdArray>) -> bool {
        size_of_shape(self.shape@) <= usize::MAX
    }

    open spec fn compute_ens(&self, xs: Seq<NdArray>, r: NdArray) -> bool {
        &&& r.shape@ == self.shape@
        &&& forall|i: int| 0 <= i < r.data@.len() ==> r.data@[i] == F32_ONE_BITS
    }

    open spec fn grad_ens(&self, r: Seq<Option<T>>) -> bool {
        r.len() == 0
    }

    open spec fn name_spec(&self) -> Seq<char> {
        "Ones"@
    }

    fn name(&self) -> &'static str {
        "Ones"
    }

    fn compute(&self, _xs: &Vec<NdArray>, _is_training: bool) -> NdArray {
        ones(&self.shape)
    }

    fn grad(&self, _y: &T, _xs: &Vec<T>, _gy: &T) -> Vec<Option<T>> {
        Vec::new()
    }
}

impl<T> Op<T> for ConvertToTensor {
    open spec fn compute_req(&self, xs: Seq<NdArray>) -> bool {
        self.arr.wf()
    }

    open spec fn compute_ens(&self, xs: Seq<NdArray>, r: NdArray) -> bool {
        &&& r.shape@ == self.arr.shape@
        &&& r.data@ == self.arr.data@
    }

    open spec fn grad_ens(&self, r: Seq<Option<T>>) -> bool {
        r.len() == 0
    }

    open spec fn name_spec(&self) -> Seq<char> {
        "ConvertToTensor"@
    }

    fn name(&self) -> &'static str {
        "ConvertToTensor"
    }

    fn compute(&self, _xs: &Vec<NdArray>, _is_training: bool) -> NdArray {
        self.arr.deep_copy()
    }

    fn grad(&self, _y: &T, _xs: &Vec<T>, _gy: &T) -> Vec<Option<T>> {
        Vec::new()
    }
}

impl Range {
    /// The operation's stable, human-readable identifier.
    pub fn name(&self) -> (r: &'static str)
        ensures
            r@ == "Range"@,
    {
        "Range"
    }

    /// No differentiable inputs: the backward pass is empty.
    pub fn grad<T>(&self, _y: &T, _xs: &Vec<T>, _gy: &T) -> (r: Vec<Option<T>>)
        ensures
            r@.len() == 0,
    {
        Vec::new()
    }
}

impl RangeDynamic {
    /// The operation's stable, human-readable identifier.
    pub fn name(&self) -> (r: &'static str)
        ensures
            r@ == "RangeDynamic"@,
    {
        "RangeDynamic"
    }

    /// The start, end and step scalars read from the three runtime
    /// inputs; accepted exactly when there are three inputs, each holding
    /// exactly one element.
    pub fn scalars(&self, xs: &Vec<NdArray>) -> (r: Option<(u32, u32, u32)>)
        ensures
            r is Some <==> xs@.len() == 3 && xs@[0].data@.len() == 1 && xs@[1].data@.len() == 1
                && xs@[2].data@.len() == 1,
            r matches Some(s) ==> s.0 == xs@[0].data@[0] && s.1 == xs@[1].data@[0]
                && s.2 == xs@[2].data@[0],
    {
        if xs.len() == 3 && xs[0].data.len() == 1 && xs[1].data.len() == 1
            && xs[2].data.len() == 1 {
            Some((xs[0].data[0], xs[1].data[0], xs[2].data[0]))
        } else {
            None
        }
    }

    /// No differentiable inputs: the backward pass is empty.
    pub fn grad<T>(&self, _y: &T, _xs: &Vec<T>, _gy: &T) -> (r: Vec<Option<T>>)
        ensures
            r@.len() == 0,
    {
        Vec::new()
    }
}

} // verus!
