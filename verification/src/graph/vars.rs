//! Visibility of the model's variables, and the columns that hold them.

use crate::tensor::{copy_dims, Column, VarTensor, VarTensorView};
use vstd::prelude::*;

verus! {

/// Whether a variable is bound to a column the verifier sees.
#[derive(Clone, Copy, Debug, PartialEq, Eq, Structural)]
pub enum Visibility {
    /// Bound to an advice column.
    Private,
    /// Bound to an instance or fixed column.
    Public,
}

impl Visibility {
    /// Whether the variable is public.
    pub fn is_public(&self) -> (r: bool)
        ensures
            r == (*self == Visibility::Public),
    {
        matches!(self, Visibility::Public)
    }
}

/// The visibility of the inputs, the parameters and the outputs of a model. It is chosen
/// before compilation and does not change.
#[derive(Clone, Copy, Debug, PartialEq, Eq, Structural)]
pub struct VarVisibility {
    pub input: Visibility,
    pub params: Visibility,
    pub output: Visibility,
}

/// The columns that a circuit was allocated: how many advice and fixed groups, and the
/// shape of each instance.
#[derive(Clone, Debug, PartialEq, Eq)]
pub struct ModelVars {
    pub num_advice: usize,
    pub num_fixed: usize,
    pub instance_shapes: Vec<Vec<usize>>,
}

impl ModelVars {
    /// Records an allocation of the given size.
    pub fn new(num_advice: usize, num_fixed: usize, instance_shapes: Vec<Vec<usize>>) -> (vars:
        ModelVars)
        ensures
            vars.num_advice == num_advice,
            vars.num_fixed == num_fixed,
            vars.instance_shapes == instance_shapes,
    {
        ModelVars { num_advice, num_fixed, instance_shapes }
    }

    /// The advice group at `slot`, read in shape `dims`.
    pub fn advice(&self, slot: usize, dims: &Vec<usize>) -> (out: VarTensor)
        requires
            slot < self.num_advice,
        ensures
            out@ == (VarTensorView { column: Column::Advice(slot), dims: dims@ }),
    {
        VarTensor { column: Column::Advice(slot), dims: copy_dims(dims) }
    }

    /// The fixed group at `slot`, read in shape `dims`.
    pub fn fixed(&self, slot: usize, dims: &Vec<usize>) -> (out: VarTensor)
        requires
            slot < self.num_fixed,
        ensures
            out@ == (VarTensorView { column: Column::Fixed(slot), dims: dims@ }),
    {
        VarTensor { column: Column::Fixed(slot), dims: copy_dims(dims) }
    }
}

} // verus!
