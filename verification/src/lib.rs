//! Operator layer of a computation-graph automatic-differentiation engine:
//! a contract for differentiable operations, together with the dense numeric
//! array utilities that back their forward values.

pub mod ndarray_ext;
pub mod ops;
