//! The operator contract: the interface every differentiable
//! computation-graph operation implements, and the source operations that
//! produce leaf values for a graph.
//!
//! Graph nodes and gradient values are external to this layer: the
//! contract only passes their handles through, as the type parameter `T`.

pub mod generator_ops;

use vstd::prelude::*;
use crate::ndarray_ext::NdArray;

verus! {

/// A differentiable operation, one per computation-graph node.
///
/// `T` is the external graph's handle type for nodes and gradient values;
/// this layer never looks inside one.  Each implementation pins down, with
/// `compute_req` and `compute_ens`, when its forward pass may run and what
/// the forward value is, and with `grad_ens` what its backward pass hands
/// back: one optional gradient handle per differentiable input.
pub trait Op<T> {
    /// When `compute` may be invoked on the given input values.
    spec fn compute_req(&self, xs: Seq<NdArray>) -> bool;

    /// What `compute` returns for the given input values.
    spec fn compute_ens(&self, xs: Seq<NdArray>, r: NdArray) -> bool;

    /// What `grad` returns.
    spec fn grad_ens(&self, r: Seq<Option<T>>) -> bool;

    /// The operation's stable, human-readable identifier.
    spec fn name_spec(&self) -> Seq<char>;

    /// A stable, human-readable identifier for diagnostics and graph
    /// introspection.
    fn name(&self) -> (r: &'static str)
        ensures
            r@ == self.name_spec(),
    ;

    /// Forward evaluation over the evaluated input values, producing a
    /// freshly owned array.  `is_training` is passed through for
    /// operations whose forward behavior differs between training and
    /// inference; the source operations here ignore it.
    fn compute(&self, xs: &Vec<NdArray>, is_training: bool) -> (r: NdArray)
        requires
            self.compute_req(xs@),
        ensures
            r.wf(),
            self.compute_ens(xs@, r),
    ;

    /// Reverse-mode contribution: one optional gradient handle per input,
    /// given the output node, the input nodes and the gradient flowing
    /// into the output.
    fn grad(&self, y: &T, xs: &Vec<T>, gy: &T) -> (r: Vec<Option<T>>)
        ensures
            self.grad_ens(r@),
    ;
}

} // verus!
