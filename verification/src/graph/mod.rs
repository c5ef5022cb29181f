//! The computation graph and its compilation.

pub mod config;
pub mod configure;
pub mod fusion;
pub mod ingest;
pub mod layout;
pub mod model;
pub mod schedule;
pub mod node;
pub mod operands;
pub mod resources;
pub mod vars;

use crate::graph::node::OpKindView;
use vstd::prelude::*;

pub use crate::graph::config::{Entry, ModelConfig, NodeConfig};
pub use crate::graph::layout::{Binding, Layout, Region, Seed};
pub use crate::graph::model::{Mode, Model};
pub use crate::graph::node::{Node, NodeGraph, OpKind};
pub use crate::graph::vars::{ModelVars, VarVisibility, Visibility};

verus! {

/// Why a compilation step gave up. None of these can be retried.
#[derive(Clone, Debug, PartialEq, Eq)]
pub enum GraphError {
    /// The graph could not be ingested.
    ModelLoad,
    /// A node names a producer that has no place in the schedule yet.
    MissingNode(usize),
    /// A routine was handed a node of a kind it does not handle.
    WrongMethod(usize, OpKind),
    /// A lookup does not have exactly one input.
    InvalidLookupInputs,
    /// A compiled configuration matches no layout case.
    UnsupportedOp,
}

/// What a [`GraphError`] stands for.
pub enum GraphErrorView {
    ModelLoad,
    MissingNode(usize),
    WrongMethod(usize, OpKindView),
    InvalidLookupInputs,
    UnsupportedOp,
}

impl View for GraphError {
    type V = GraphErrorView;

    open spec fn view(&self) -> GraphErrorView {
        match self {
            GraphError::ModelLoad => GraphErrorView::ModelLoad,
            GraphError::MissingNode(i) => GraphErrorView::MissingNode(*i),
            GraphError::WrongMethod(i, kind) => GraphErrorView::WrongMethod(*i, kind@),
            GraphError::InvalidLookupInputs => GraphErrorView::InvalidLookupInputs,
            GraphError::UnsupportedOp => GraphErrorView::UnsupportedOp,
        }
    }
}

} // verus!
