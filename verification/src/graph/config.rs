//! What compilation hands to the proof system: one configuration for each region.

use crate::circuit::lookup::{LookupConfig, LookupConfigView, LookupTable, LookupTableView};
use crate::circuit::polynomial::{PolyConfig, PolyConfigView};
use crate::circuit::range::{RangeCheckConfig, RangeCheckConfigView};
use crate::graph::vars::ModelVars;
use crate::tensor::view_all;
use vstd::prelude::*;

verus! {

/// The compiled form of a node.
#[derive(Clone, Debug, PartialEq, Eq)]
pub enum NodeConfig {
    /// A lookup into a table, with the indices of the nodes that feed it.
    Lookup(LookupConfig, Vec<usize>),
    /// A fused gate, with the indices of the nodes that feed its inputs, in input order.
    Poly(PolyConfig, Vec<usize>),
    /// A constant: it has no columns, its value is bound where it is consumed.
    Const,
    /// An input of the graph: it has no columns.
    Input,
    /// A node that was not compiled.
    NotConfigured,
}

/// What a [`NodeConfig`] stands for.
pub enum NodeConfigView {
    Lookup(LookupConfigView, Seq<usize>),
    Poly(PolyConfigView, Seq<usize>),
    Const,
    Input,
    NotConfigured,
}

impl View for NodeConfig {
    type V = NodeConfigView;

    open spec fn view(&self) -> NodeConfigView {
        match self {
            NodeConfig::Lookup(config, inputs) => NodeConfigView::Lookup(config@, inputs@),
            NodeConfig::Poly(config, inputs) => NodeConfigView::Poly(config@, inputs@),
            NodeConfig::Const => NodeConfigView::Const,
            NodeConfig::Input => NodeConfigView::Input,
            NodeConfig::NotConfigured => NodeConfigView::NotConfigured,
        }
    }
}

/// A configuration with the index of the node under which its result is recorded.
#[derive(Clone, Debug, PartialEq, Eq)]
pub struct Entry {
    pub index: usize,
    pub config: NodeConfig,
}

/// What an [`Entry`] stands for.
pub struct EntryView {
    pub index: usize,
    pub config: NodeConfigView,
}

impl View for Entry {
    type V = EntryView;

    open spec fn view(&self) -> EntryView {
        EntryView { index: self.index, config: self.config@ }
    }
}

/// The configuration of a whole model.
#[derive(Clone, Debug, PartialEq, Eq)]
pub struct ModelConfig {
    /// The configurations in layout order: by bucket, and by index within a bucket.
    pub configs: Vec<Entry>,
    /// The tables that the lookups share. A lookup names its table by its place here.
    pub tables: Vec<LookupTable>,
    /// The range checks of the outputs, if the outputs are public.
    pub public_outputs: Vec<RangeCheckConfig>,
    /// The columns that the configurations were bound to.
    pub vars: ModelVars,
}

/// What a [`ModelConfig`] stands for.
pub struct ModelConfigView {
    pub configs: Seq<EntryView>,
    pub tables: Seq<LookupTableView>,
    pub public_outputs: Seq<RangeCheckConfigView>,
    pub num_advice: usize,
    pub num_fixed: usize,
    pub instance_shapes: Seq<Seq<usize>>,
}

impl View for ModelConfig {
    type V = ModelConfigView;

    open spec fn view(&self) -> ModelConfigView {
        ModelConfigView {
            configs: view_all(self.configs@),
            tables: view_all(self.tables@),
            public_outputs: view_all(self.public_outputs@),
            num_advice: self.vars.num_advice,
            num_fixed: self.vars.num_fixed,
            instance_shapes: view_all(self.vars.instance_shapes@),
        }
    }
}

} // verus!
