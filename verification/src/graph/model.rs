//! The model: a scheduled graph with the parameters of its circuit.

use crate::graph::node::{has_node, node_of, NodeGraph, NodeView};
use crate::graph::schedule::graph_wf;
use crate::graph::vars::{VarVisibility, Visibility};
use crate::tensor::{copy_dims, dims_fit, dims_product, size_of_dims, view_all};
use vstd::prelude::*;

verus! {

/// Mode we're using the model in.
#[derive(Clone, Copy, Debug, PartialEq, Eq, Structural)]
pub enum Mode {
    /// Initialize the model and display the operations table / graph
    Table,
    /// Initialize the model and generate a mock proof
    Mock,
    /// Initialize the model and generate a proof
    Prove,
    /// Initialize the model, generate a proof, and verify
    FullProve,
    /// Initialize the model and verify an already generated proof
    Verify,
}

/// A computation graph whose nodes have their buckets, ready to be turned into a circuit.
#[derive(Clone, Debug, PartialEq, Eq)]
pub struct Model {
    /// The nodes with their buckets.
    pub nodes: NodeGraph,
    /// The indices of the nodes that take the graph's inputs, in input order.
    pub inputs: Vec<usize>,
    /// The indices of the nodes that deliver the graph's outputs, in output order.
    pub outputs: Vec<usize>,
    /// Bits used in lookup tables.
    pub bits: usize,
    /// Log rows available in circuit.
    pub logrows: u32,
    /// Maximum number of permitted rotations.
    pub max_rotations: usize,
    /// Exponent used in the fixed point representation.
    pub scale: i32,
    /// The divergence from the expected output that a public output may show, in absolute
    /// value and in each cell.
    pub tolerance: usize,
    /// The [Mode] we're using the model in.
    pub mode: Mode,
    /// Which of inputs, parameters and outputs are public.
    pub visibility: VarVisibility,
}

/// Whether the cells of every shape of a node can be counted, and the node has the shape of
/// an operand.
pub open spec fn node_sized(n: NodeView) -> bool {
    &&& n.in_dims.len() > 0
    &&& forall|i: int| 0 <= i < n.in_dims.len() ==> dims_fit(#[trigger] n.in_dims[i])
    &&& dims_fit(n.out_dims)
}

/// The number of operands in the graph, over all nodes.
pub open spec fn edge_count(g: Seq<NodeView>) -> nat
    decreases g.len(),
{
    if g.len() == 0 {
        0
    } else {
        edge_count(g.drop_last()) + g.last().inputs.len()
    }
}

/// Whether every index of `ids` names a node of `g`.
pub open spec fn all_present(g: Seq<NodeView>, ids: Seq<usize>) -> bool {
    forall|k: int| 0 <= k < ids.len() ==> has_node(g, #[trigger] ids[k])
}

/// Whether the sizes of a graph and of its lists of inputs and outputs leave room for the
/// column counts, which are sums of them.
pub open spec fn within_limits(g: Seq<NodeView>, inputs: Seq<usize>, outputs: Seq<usize>) -> bool {
    &&& 2 * edge_count(g) + 2 <= usize::MAX
    &&& inputs.len() + outputs.len() <= usize::MAX
}

/// The shapes of the results of the nodes `ids`.
pub open spec fn shapes_of(g: Seq<NodeView>, ids: Seq<usize>) -> Seq<Seq<usize>> {
    Seq::new(ids.len(), |k: int| node_of(g, ids[k]).out_dims)
}

/// The fixed-point exponents of the results of the nodes `ids`.
pub open spec fn scales_of(g: Seq<NodeView>, ids: Seq<usize>) -> Seq<i32> {
    Seq::new(ids.len(), |k: int| node_of(g, ids[k]).out_scale)
}

/// The largest number of cells among `shapes`.
pub open spec fn max_cells(shapes: Seq<Seq<usize>>) -> nat
    decreases shapes.len(),
{
    if shapes.len() == 0 {
        0
    } else {
        let rest = max_cells(shapes.drop_last());
        let here = dims_product(shapes.last());
        if here > rest {
            here
        } else {
            rest
        }
    }
}

/// The largest number of cells among the operands and the result of a node.
pub open spec fn node_cells(n: NodeView) -> nat {
    let ins = max_cells(n.in_dims);
    let out = dims_product(n.out_dims);
    if out > ins {
        out
    } else {
        ins
    }
}

/// The largest number of cells among the operands and results of all nodes.
pub open spec fn spec_max_node_size(g: Seq<NodeView>) -> nat
    decreases g.len(),
{
    if g.len() == 0 {
        0
    } else {
        let rest = spec_max_node_size(g.drop_last());
        let here = node_cells(g.last());
        if here > rest {
            here
        } else {
            rest
        }
    }
}

/// The number of instance columns: one for each input if the inputs are public, and one for
/// each output if the outputs are.
pub open spec fn spec_num_instances(inputs: nat, outputs: nat, visibility: VarVisibility) -> nat {
    (if visibility.input == Visibility::Public {
        inputs
    } else {
        0
    }) + (if visibility.output == Visibility::Public {
        outputs
    } else {
        0
    })
}

/// The shapes of the instance columns: those of the inputs if the inputs are public, then
/// those of the outputs if the outputs are.
pub open spec fn spec_instance_shapes(
    g: Seq<NodeView>,
    inputs: Seq<usize>,
    outputs: Seq<usize>,
    visibility: VarVisibility,
) -> Seq<Seq<usize>> {
    (if visibility.input == Visibility::Public {
        shapes_of(g, inputs)
    } else {
        Seq::empty()
    }) + (if visibility.output == Visibility::Public {
        shapes_of(g, outputs)
    } else {
        Seq::empty()
    })
}

impl Model {
    /// A well-formed model: its graph is scheduled, the cells of every shape can be
    /// counted, its inputs and outputs name nodes of the graph, and its sizes are within
    /// the limits of the machine.
    pub open spec fn wf(&self) -> bool {
        &&& graph_wf(self.nodes@)
        &&& forall|p: int| 0 <= p < self.nodes@.len() ==> node_sized(#[trigger] self.nodes@[p])
        &&& all_present(self.nodes@, self.inputs@)
        &&& all_present(self.nodes@, self.outputs@)
        &&& within_limits(self.nodes@, self.inputs@, self.outputs@)
    }

    /// The shapes of the results of the nodes `ids`, which the graph holds.
    fn shapes(&self, ids: &Vec<usize>) -> (out: Vec<Vec<usize>>)
        requires
            self.wf(),
            all_present(self.nodes@, ids@),
        ensures
            view_all(out@) == shapes_of(self.nodes@, ids@),
    {
        let mut out: Vec<Vec<usize>> = Vec::new();
        let mut k: usize = 0;
        while k < ids.len()
            invariant
                k <= ids.len(),
                self.wf(),
                all_present(self.nodes@, ids@),
                out.len() == k,
                forall|i: int|
                    0 <= i < k ==> (#[trigger] out@[i])@ == node_of(self.nodes@, ids@[i]).out_dims,
            decreases ids.len() - k,
        {
            assert(has_node(self.nodes@, ids@[k as int]));
            out.push(copy_dims(&self.nodes.get(ids[k]).out_dims));
            k += 1;
        }
        assert(view_all(out@) =~= shapes_of(self.nodes@, ids@));
        out
    }

    /// Returns the indices of the nodes that take the computational graph's inputs.
    pub fn input_outlets(&self) -> (out: Vec<usize>)
        ensures
            out@ == self.inputs@,
    {
        copy_dims(&self.inputs)
    }

    /// Returns the indices of the nodes that deliver the computational graph's outputs.
    pub fn output_outlets(&self) -> (out: Vec<usize>)
        ensures
            out@ == self.outputs@,
    {
        copy_dims(&self.outputs)
    }

    /// Returns the number of the computational graph's inputs
    pub fn num_inputs(&self) -> (n: usize)
        ensures
            n == self.inputs@.len(),
    {
        self.inputs.len()
    }

    /// Returns shapes of the computational graph's inputs
    pub fn input_shapes(&self) -> (out: Vec<Vec<usize>>)
        requires
            self.wf(),
        ensures
            view_all(out@) == shapes_of(self.nodes@, self.inputs@),
    {
        self.shapes(&self.inputs)
    }

    /// Returns the number of the computational graph's outputs
    pub fn num_outputs(&self) -> (n: usize)
        ensures
            n == self.outputs@.len(),
    {
        self.outputs.len()
    }

    /// Returns shapes of the computational graph's outputs
    pub fn output_shapes(&self) -> (out: Vec<Vec<usize>>)
        requires
            self.wf(),
        ensures
            view_all(out@) == shapes_of(self.nodes@, self.outputs@),
    {
        self.shapes(&self.outputs)
    }

    /// Returns the fixed point scale of the computational graph's outputs
    pub fn get_output_scales(&self) -> (out: Vec<i32>)
        requires
            self.wf(),
        ensures
            out@ == scales_of(self.nodes@, self.outputs@),
    {
        let mut out: Vec<i32> = Vec::new();
        let mut k: usize = 0;
        while k < self.outputs.len()
            invariant
                k <= self.outputs.len(),
                self.wf(),
                out.len() == k,
                forall|i: int|
                    0 <= i < k ==> #[trigger] out@[i] == node_of(self.nodes@, self.outputs@[i]).out_scale,
            decreases self.outputs.len() - k,
        {
            assert(has_node(self.nodes@, self.outputs@[k as int]));
            out.push(self.nodes.get(self.outputs[k]).out_scale);
            k += 1;
        }
        assert(out@ =~= scales_of(self.nodes@, self.outputs@));
        out
    }

    /// Max number of inlets or outlets to a node: the largest number of cells that an
    /// operand or a result of a node has.
    pub fn max_node_size(&self) -> (n: usize)
        requires
            self.wf(),
            self.nodes@.len() > 0,
        ensures
            n == spec_max_node_size(self.nodes@),
    {
        let mut largest: usize = 0;
        let mut p: usize = 0;
        assert(self.nodes@.take(0) == Seq::<NodeView>::empty());
        while p < self.nodes.nodes.len()
            invariant
                p <= self.nodes.nodes.len(),
                self.wf(),
                largest == spec_max_node_size(self.nodes@.take(p as int)),
            decreases self.nodes.nodes.len() - p,
        {
            let node = &self.nodes.nodes[p];
            assert(self.nodes@.take(p + 1).drop_last() == self.nodes@.take(p as int));
            assert(self.nodes@.take(p + 1).last() == node@);
            assert(node_sized(self.nodes@[p as int]));
            let mut here: usize = 0;
            let mut i: usize = 0;
            assert(node@.in_dims.take(0) == Seq::<Seq<usize>>::empty());
            while i < node.in_dims.len()
                invariant
                    i <= node.in_dims.len(),
                    node_sized(node@),
                    here == max_cells(node@.in_dims.take(i as int)),
                decreases node.in_dims.len() - i,
            {
                assert(node@.in_dims.take(i + 1).drop_last() == node@.in_dims.take(i as int));
                assert(node@.in_dims.take(i + 1).last() == node.in_dims@[i as int]@);
                assert(node@.in_dims[i as int] == node.in_dims@[i as int]@);
                let cells = size_of_dims(&node.in_dims[i]);
                if cells > here {
                    here = cells;
                }
                i += 1;
            }
            assert(node@.in_dims.take(node.in_dims.len() as int) == node@.in_dims);
            let out = size_of_dims(&node.out_dims);
            if out > here {
                here = out;
            }
            if here > largest {
                largest = here;
            }
            p += 1;
        }
        assert(self.nodes@.take(self.nodes@.len() as int) == self.nodes@);
        largest
    }

    /// Number of instances used by the circuit, and their shapes.
    pub fn num_instances(&self) -> (r: (usize, Vec<Vec<usize>>))
        requires
            self.wf(),
        ensures
            r.0 == spec_num_instances(self.inputs@.len(), self.outputs@.len(), self.visibility),
            view_all(r.1@) == spec_instance_shapes(
                self.nodes@,
                self.inputs@,
                self.outputs@,
                self.visibility,
            ),
    {
        let mut num_instances: usize = 0;
        let mut instance_shapes: Vec<Vec<usize>> = Vec::new();
        if self.visibility.input.is_public() {
            num_instances += self.num_inputs();
            let mut shapes = self.input_shapes();
            let ghost added = view_all(shapes@);
            instance_shapes.append(&mut shapes);
            assert(view_all(instance_shapes@) =~= added);
        }
        let ghost first = view_all(instance_shapes@);
        if self.visibility.output.is_public() {
            num_instances += self.num_outputs();
            let mut shapes = self.output_shapes();
            let ghost added = view_all(shapes@);
            instance_shapes.append(&mut shapes);
            assert(view_all(instance_shapes@) =~= first + added);
        }
        assert(view_all(instance_shapes@) =~= spec_instance_shapes(
            self.nodes@,
            self.inputs@,
            self.outputs@,
            self.visibility,
        ));
        (num_instances, instance_shapes)
    }
}

} // verus!
