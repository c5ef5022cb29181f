//! Fused polynomial gates.

use crate::tensor::{view_all, VarTensor, VarTensorView};
use vstd::prelude::*;

verus! {

/// An operation that a polynomial constraint can express.
#[derive(Clone, Copy, Debug, PartialEq, Eq, Structural)]
pub enum PolyOp {
    /// The operand as it is.
    Identity,
    /// The operand in another shape.
    Reshape,
    /// The operand in one dimension.
    Flatten,
    /// Elementwise sum.
    Add,
    /// Elementwise difference.
    Sub,
    /// Sum over all cells.
    Sum,
    /// Elementwise product.
    Mult,
    /// Matrix product.
    Matmul,
    /// Inner product.
    Dot,
    /// Matrix product with a bias added.
    Affine,
    /// Batch normalisation with fixed statistics.
    BatchNorm,
    /// Elementwise scaling and shifting.
    ScaleAndShift,
    /// Convolution.
    Conv,
    /// Sum over sliding windows.
    SumPool,
    /// Sum over each channel.
    GlobalSumPool,
    /// Elementwise power with the given exponent.
    Pow(u32),
}

/// Where an operand of a fused operation comes from.
#[derive(Clone, Copy, Debug, PartialEq, Eq, Structural)]
pub enum PolyInputType {
    /// The external input bound at the given place of the inputs of a fused gate.
    Input(usize),
    /// The intermediate value with the given number, counted over the whole gate.
    Inter(usize),
}

/// One operation of a fused gate, with the provenance of each operand in order.
#[derive(Clone, Debug, PartialEq, Eq)]
pub struct PolyNode {
    pub op: PolyOp,
    pub input_order: Vec<PolyInputType>,
}

/// What a [`PolyNode`] stands for.
pub struct PolyNodeView {
    pub op: PolyOp,
    pub input_order: Seq<PolyInputType>,
}

impl View for PolyNode {
    type V = PolyNodeView;

    open spec fn view(&self) -> PolyNodeView {
        PolyNodeView { op: self.op, input_order: self.input_order@ }
    }
}

/// A fused gate: the columns of its external inputs, the column of its output, and its
/// operations in evaluation order.
#[derive(Clone, Debug, PartialEq, Eq)]
pub struct PolyConfig {
    pub inputs: Vec<VarTensor>,
    pub output: VarTensor,
    pub nodes: Vec<PolyNode>,
}

/// What a [`PolyConfig`] stands for.
pub struct PolyConfigView {
    pub inputs: Seq<VarTensorView>,
    pub output: VarTensorView,
    pub nodes: Seq<PolyNodeView>,
}

impl View for PolyConfig {
    type V = PolyConfigView;

    open spec fn view(&self) -> PolyConfigView {
        PolyConfigView {
            inputs: view_all(self.inputs@),
            output: self.output@,
            nodes: view_all(self.nodes@),
        }
    }
}

impl PolyConfig {
    /// Describes a fused gate over the given columns.
    pub fn configure(inputs: Vec<VarTensor>, output: VarTensor, nodes: Vec<PolyNode>) -> (config:
        PolyConfig)
        ensures
            config@ == (PolyConfigView {
                inputs: view_all(inputs@),
                output: output@,
                nodes: view_all(nodes@),
            }),
    {
        PolyConfig { inputs, output, nodes }
    }
}

} // verus!
