//! Construction of a model from the nodes of an ingested graph.

use crate::graph::model::{all_present, edge_count, node_sized, within_limits, Mode, Model};
use crate::graph::node::{
    ascending, has_node, lemma_position_unique, node_position, Node, NodeView,
};
use crate::graph::operands::is_constant_of;
use crate::graph::resources::lemma_edge_count_prefix;
use crate::graph::schedule::{has_operand, schedulable, schedule};
use crate::graph::vars::VarVisibility;
use crate::graph::{GraphError, GraphErrorView};
use crate::tensor::{checked_size, view_all};
use vstd::prelude::*;

verus! {

/// What a model can be made of: nodes that can be scheduled and whose shapes can be counted,
/// inputs and outputs that name nodes, and sizes within the limits of the machine.
pub open spec fn ingestible(nodes: Seq<NodeView>, inputs: Seq<usize>, outputs: Seq<usize>) -> bool {
    &&& schedulable(nodes)
    &&& forall|p: int| 0 <= p < nodes.len() ==> node_sized(#[trigger] nodes[p])
    &&& within_limits(nodes, inputs, outputs)
    &&& all_present(nodes, inputs)
    &&& all_present(nodes, outputs)
}

/// Two lists of the same nodes, bucket apart, have the same number of operands.
pub proof fn lemma_edge_count_same(a: Seq<NodeView>, b: Seq<NodeView>)
    requires
        a.len() == b.len(),
        forall|p: int| 0 <= p < a.len() ==> (#[trigger] a[p]).inputs == b[p].inputs,
    ensures
        edge_count(a) == edge_count(b),
    decreases a.len(),
{
    if a.len() > 0 {
        assert forall|p: int| 0 <= p < a.drop_last().len() implies (#[trigger] a.drop_last()[p]).inputs
            == b.drop_last()[p].inputs by {
            assert(a[p].inputs == b[p].inputs);
        }
        lemma_edge_count_same(a.drop_last(), b.drop_last());
        assert(a[a.len() - 1].inputs == b[a.len() - 1].inputs);
    }
}

/// The place among the first `upto` nodes of the node of index `id`, if there is one.
fn index_before(nodes: &Vec<Node>, upto: usize, id: usize) -> (r: Option<usize>)
    requires
        upto <= nodes.len(),
    ensures
        r is Some <==> has_node(view_all(nodes@).take(upto as int), id),
        r matches Some(q) ==> q < upto && nodes@[q as int].idx == id,
{
    let ghost front = view_all(nodes@).take(upto as int);
    let mut q: usize = 0;
    while q < upto
        invariant
            q <= upto,
            upto <= nodes.len(),
            front == view_all(nodes@).take(upto as int),
            forall|p: int| 0 <= p < q ==> (#[trigger] front[p]).idx != id,
        decreases upto - q,
    {
        if nodes[q].idx == id {
            assert(front[q as int].idx == id);
            return Some(q);
        }
        q += 1;
    }
    None
}

/// Whether the indices of the nodes grow strictly.
fn indices_ascend(nodes: &Vec<Node>) -> (r: bool)
    ensures
        r == ascending(view_all(nodes@)),
{
    let ghost nv = view_all(nodes@);
    let mut k: usize = 1;
    while k < nodes.len()
        invariant
            1 <= k,
            nv == view_all(nodes@),
            forall|i: int, j: int| 0 <= i < j < k && j < nv.len() ==> (#[trigger] nv[i]).idx < (
            #[trigger] nv[j]).idx,
        decreases nodes.len() - k,
    {
        if nodes[k - 1].idx >= nodes[k].idx {
            assert(!(nv[k - 1].idx < nv[k as int].idx));
            return false;
        }
        assert forall|i: int, j: int| 0 <= i < j < k + 1 && j < nv.len() implies (#[trigger] nv[i]).idx < (
        #[trigger] nv[j]).idx by {
            if j == k && i < k - 1 {
                assert(nv[i].idx < nv[k - 1].idx);
            }
        }
        k += 1;
    }
    true
}

/// Whether the cells of every shape of the node can be counted, and it has the shape of an
/// operand.
fn is_sized(node: &Node) -> (r: bool)
    ensures
        r == node_sized(node@),
{
    if node.in_dims.len() == 0 {
        return false;
    }
    let mut i: usize = 0;
    while i < node.in_dims.len()
        invariant
            i <= node.in_dims.len(),
            forall|j: int| 0 <= j < i ==> crate::tensor::dims_fit(#[trigger] node@.in_dims[j]),
        decreases node.in_dims.len() - i,
    {
        assert(node@.in_dims[i as int] == node.in_dims@[i as int]@);
        if checked_size(&node.in_dims[i]).is_none() {
            return false;
        }
        i += 1;
    }
    checked_size(&node.out_dims).is_some()
}

/// Whether every node is sized.
fn all_sized(nodes: &Vec<Node>) -> (r: bool)
    ensures
        r == forall|p: int| 0 <= p < nodes.len() ==> node_sized(#[trigger] view_all(nodes@)[p]),
{
    let mut p: usize = 0;
    while p < nodes.len()
        invariant
            p <= nodes.len(),
            forall|q: int| 0 <= q < p ==> node_sized(#[trigger] view_all(nodes@)[q]),
        decreases nodes.len() - p,
    {
        if !is_sized(&nodes[p]) {
            assert(!node_sized(view_all(nodes@)[p as int]));
            return false;
        }
        p += 1;
    }
    true
}

/// Whether the node at place `p` has an operand that is not a constant before it.
fn has_open_operand(nodes: &Vec<Node>, p: usize) -> (r: bool)
    requires
        p < nodes.len(),
        ascending(view_all(nodes@)),
    ensures
        r == has_operand(view_all(nodes@), p as int),
{
    let ghost nv = view_all(nodes@);
    let ghost front = nv.take(p as int);
    let node = &nodes[p];
    assert(ascending(front)) by {
        assert forall|i: int, j: int| 0 <= i < j < front.len() implies (#[trigger] front[i]).idx < (
        #[trigger] front[j]).idx by {
            assert(nv[i].idx < nv[j].idx);
        }
    }
    let mut k: usize = 0;
    while k < node.inputs.len()
        invariant
            k <= node.inputs.len(),
            p < nodes.len(),
            nv == view_all(nodes@),
            front == nv.take(p as int),
            ascending(front),
            node@ == nv[p as int],
            forall|j: int| 0 <= j < k ==> is_constant_of(front, #[trigger] nv[p as int].inputs[j]),
        decreases node.inputs.len() - k,
    {
        let id = node.inputs[k];
        match index_before(nodes, p, id) {
            None => {
                assert(!is_constant_of(front, nv[p as int].inputs[k as int]));
                return true;
            },
            Some(q) => {
                proof {
                    assert(front[q as int].idx == id);
                    lemma_position_unique(front, id, q as int);
                }
                if !nodes[q].opkind.is_const() {
                    assert(!is_constant_of(front, nv[p as int].inputs[k as int]));
                    return true;
                }
            },
        }
        k += 1;
    }
    false
}

/// Whether every operation has an operand that is not a constant before it.
fn operands_ready(nodes: &Vec<Node>) -> (r: bool)
    requires
        ascending(view_all(nodes@)),
    ensures
        r == schedulable(view_all(nodes@)),
{
    let ghost nv = view_all(nodes@);
    let mut p: usize = 0;
    while p < nodes.len()
        invariant
            p <= nodes.len(),
            nv == view_all(nodes@),
            ascending(nv),
            forall|q: int|
                0 <= q < p && ((#[trigger] nv[q]).opkind is Poly || nv[q].opkind is Lookup)
                    ==> has_operand(nv, q),
        decreases nodes.len() - p,
    {
        let node = &nodes[p];
        assert(node@ == nv[p as int]);
        if (node.opkind.is_poly() || node.opkind.is_lookup()) && !has_open_operand(nodes, p) {
            return false;
        }
        p += 1;
    }
    true
}

/// Whether the sizes are within the limits of the machine.
fn fits_machine(nodes: &Vec<Node>, inputs: &Vec<usize>, outputs: &Vec<usize>) -> (r: bool)
    ensures
        r == within_limits(view_all(nodes@), inputs@, outputs@),
{
    let ghost nv = view_all(nodes@);
    let mut total: usize = 0;
    let mut p: usize = 0;
    assert(nv.take(0) == Seq::<NodeView>::empty());
    while p < nodes.len()
        invariant
            p <= nodes.len(),
            nv == view_all(nodes@),
            total == edge_count(nv.take(p as int)),
        decreases nodes.len() - p,
    {
        assert(nv.take(p + 1).drop_last() == nv.take(p as int));
        assert(nv.take(p + 1).last() == nodes@[p as int]@);
        match total.checked_add(nodes[p].inputs.len()) {
            Some(next) => {
                total = next;
            },
            None => {
                proof {
                    lemma_edge_count_prefix(nv, p + 1);
                }
                return false;
            },
        }
        p += 1;
    }
    assert(nv.take(nodes.len() as int) == nv);
    if total > (usize::MAX - 2) / 2 {
        return false;
    }
    inputs.len().checked_add(outputs.len()).is_some()
}

/// Whether every index of `ids` names a node.
fn all_named(nodes: &Vec<Node>, ids: &Vec<usize>) -> (r: bool)
    ensures
        r == all_present(view_all(nodes@), ids@),
{
    let ghost nv = view_all(nodes@);
    let mut k: usize = 0;
    assert(nv.take(nodes.len() as int) == nv);
    while k < ids.len()
        invariant
            k <= ids.len(),
            nv == view_all(nodes@),
            nv.take(nodes.len() as int) == nv,
            forall|j: int| 0 <= j < k ==> has_node(nv, #[trigger] ids@[j]),
        decreases ids.len() - k,
    {
        if index_before(nodes, nodes.len(), ids[k]).is_none() {
            assert(!has_node(nv, ids@[k as int]));
            return false;
        }
        k += 1;
    }
    true
}

impl Model {
    /// Creates a `Model` from the nodes of an ingested graph.
    /// # Arguments
    ///
    /// * `nodes` - The nodes, in ascending order of index.
    /// * `inputs` - The indices of the nodes that take the graph's inputs.
    /// * `outputs` - The indices of the nodes that deliver the graph's outputs.
    /// * `scale` - The denominator used for fixed point arithmetic (relevant for quantizing input data and model parameters).
    /// * `bits` - Number of bits to use.
    /// * `logrows` -  Log rows available in circuit.
    /// * `max_rotations` - Maximum number of permitted rotations.
    /// * `tolerance` - How much each quantized output is allowed to be off by
    /// * `mode` - The [Mode] we're using the model in.
    /// * `visibility` - Which inputs to the model are public and private (params, inputs, outputs) using [VarVisibility].
    ///
    /// A graph that is not [`ingestible`] is refused with `ModelLoad`. Otherwise the nodes
    /// get their buckets; an error of the assignment is handed on.
    #[allow(clippy::too_many_arguments)]
    pub fn new(
        nodes: Vec<Node>,
        inputs: Vec<usize>,
        outputs: Vec<usize>,
        scale: i32,
        bits: usize,
        logrows: u32,
        max_rotations: usize,
        tolerance: usize,
        mode: Mode,
        visibility: VarVisibility,
    ) -> (r: Result<Model, GraphError>)
        ensures
            !ingestible(view_all(nodes@), inputs@, outputs@) ==> (r matches Err(e) && e@
                == GraphErrorView::ModelLoad),
            ingestible(view_all(nodes@), inputs@, outputs@) ==> match schedule(view_all(nodes@)) {
                Err(e) => r matches Err(re) && re@ == e,
                Ok(g) => r matches Ok(m) && m.nodes@ == g && m.wf() && m.inputs@ == inputs@
                    && m.outputs@ == outputs@ && m.scale == scale && m.bits == bits && m.logrows
                    == logrows && m.max_rotations == max_rotations && m.tolerance == tolerance
                    && m.mode == mode && m.visibility == visibility,
            },
    {
        let ghost nv = view_all(nodes@);
        if !indices_ascend(&nodes) {
            return Err(GraphError::ModelLoad);
        }
        if !operands_ready(&nodes) || !all_sized(&nodes) || !fits_machine(&nodes, &inputs, &outputs)
            || !all_named(&nodes, &inputs) || !all_named(&nodes, &outputs) {
            return Err(GraphError::ModelLoad);
        }
        assert(ingestible(nv, inputs@, outputs@));
        match Model::assign_execution_buckets(nodes) {
            Err(e) => Err(e),
            Ok(graph) => {
                proof {
                    let g = graph@;
                    assert forall|p: int| 0 <= p < g.len() implies node_sized(#[trigger] g[p]) by {
                        assert(node_sized(nv[p]));
                    }
                    assert forall|k: int| 0 <= k < inputs@.len() implies has_node(
                        g,
                        #[trigger] inputs@[k],
                    ) by {
                        let q = node_position(nv, inputs@[k]);
                        assert(g[q].idx == inputs@[k]);
                    }
                    assert forall|k: int| 0 <= k < outputs@.len() implies has_node(
                        g,
                        #[trigger] outputs@[k],
                    ) by {
                        let q = node_position(nv, outputs@[k]);
                        assert(g[q].idx == outputs@[k]);
                    }
                    assert forall|p: int| 0 <= p < g.len() implies (#[trigger] g[p]).inputs
                        == nv[p].inputs by {}
                    lemma_edge_count_same(g, nv);
                }
                Ok(
                    Model {
                        nodes: graph,
                        inputs,
                        outputs,
                        bits,
                        logrows,
                        max_rotations,
                        scale,
                        tolerance,
                        mode,
                        visibility,
                    },
                )
            },
        }
    }
}

} // verus!
