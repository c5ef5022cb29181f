//! Fusion of the polynomial operations of one bucket into a single gate.
//!
//! An operand that a node of the group produces is an intermediate value of the fused gate;
//! every other operand is an external input and is bound to a column. An external input
//! that several operations share is bound once. Constants take fixed columns if the
//! parameters are public, and advice columns like the other inputs if they are not. The
//! output takes the advice column behind those of the inputs.

use crate::circuit::polynomial::{PolyConfig, PolyInputType, PolyNode, PolyNodeView, PolyConfigView};
use crate::graph::config::{NodeConfig, NodeConfigView};
use crate::graph::model::Model;
use crate::graph::node::{ascending, has_node, node_of, node_position, NodeView};
use crate::graph::operands::{
    external_operands, fused_inputs, group_operands, holds, inside, is_constant_of,
    lemma_first_occurrences_contains, lemma_first_occurrences_distinct, outside, outside_of,
    place_of, unique,
};
use crate::graph::schedule::{graph_wf, lemma_operand_present};
use crate::graph::vars::{ModelVars, Visibility};
use crate::graph::{GraphError, GraphErrorView};
use crate::tensor::{view_all, Column, VarTensor, VarTensorView};
use vstd::prelude::*;

verus! {

/// The predicate of the external inputs that take a fixed column.
pub open spec fn takes_fixed(g: Seq<NodeView>, public: bool) -> spec_fn(usize) -> bool {
    |id: usize| public && is_constant_of(g, id)
}

/// The predicate of the external inputs that take an advice column.
pub open spec fn takes_advice(g: Seq<NodeView>, public: bool) -> spec_fn(usize) -> bool {
    |id: usize| !(public && is_constant_of(g, id))
}

/// The column and shape of the external input at place `k` of `ext`: the next unused
/// column of its kind, in the shape of the node that produces it.
pub open spec fn input_tensor(g: Seq<NodeView>, ext: Seq<usize>, k: int, public: bool) -> VarTensorView {
    VarTensorView {
        column: if takes_fixed(g, public)(ext[k]) {
            Column::Fixed(ext.take(k).filter(takes_fixed(g, public)).len() as usize)
        } else {
            Column::Advice(ext.take(k).filter(takes_advice(g, public)).len() as usize)
        },
        dims: node_of(g, ext[k]).out_dims,
    }
}

/// The number of fixed columns that the fused gate of `group` binds.
pub open spec fn fixed_needed(g: Seq<NodeView>, group: Seq<usize>, public: bool) -> nat {
    fused_inputs(g, group).filter(takes_fixed(g, public)).len()
}

/// The number of advice columns that the fused gate of `group` binds: those of its inputs, and
/// one for its output.
pub open spec fn advice_needed(g: Seq<NodeView>, group: Seq<usize>, public: bool) -> nat {
    fused_inputs(g, group).filter(takes_advice(g, public)).len() + 1
}

/// The column and shape of the fused gate's output: the advice column behind those of the
/// inputs, in the shape of the group's last node.
pub open spec fn output_tensor(g: Seq<NodeView>, group: Seq<usize>, public: bool) -> VarTensorView {
    VarTensorView {
        column: Column::Advice((advice_needed(g, group, public) - 1) as usize),
        dims: node_of(g, group.last()).out_dims,
    }
}

/// The number of intermediate values that the fused gate refers to before operand `j` of the
/// node at place `k` of the group.
pub open spec fn inter_before(g: Seq<NodeView>, group: Seq<usize>, k: int, j: int) -> nat {
    (group_operands(g, group.take(k)) + node_of(g, group[k]).inputs.take(j)).filter(
        inside(group),
    ).len()
}

/// Where operand `j` of the node at place `k` of the group comes from.
pub open spec fn operand_source(g: Seq<NodeView>, group: Seq<usize>, k: int, j: int) -> PolyInputType {
    let id = node_of(g, group[k]).inputs[j];
    if group.contains(id) {
        PolyInputType::Inter(inter_before(g, group, k, j) as usize)
    } else {
        PolyInputType::Input(fused_inputs(g, group).index_of(id) as usize)
    }
}

/// The operation of the node at place `k` of the group, with the provenance of its operands.
pub open spec fn fused_node(g: Seq<NodeView>, group: Seq<usize>, k: int) -> PolyNodeView {
    let n = node_of(g, group[k]);
    PolyNodeView {
        op: n.opkind->Poly_0,
        input_order: Seq::new(n.inputs.len(), |j: int| operand_source(g, group, k, j)),
    }
}

/// The fused gate of the operations of `group`, with the indices of its external inputs.
pub open spec fn fused_gate(g: Seq<NodeView>, group: Seq<usize>, public: bool) -> NodeConfigView {
    let ext = fused_inputs(g, group);
    NodeConfigView::Poly(
        PolyConfigView {
            inputs: Seq::new(ext.len(), |k: int| input_tensor(g, ext, k, public)),
            output: output_tensor(g, group, public),
            nodes: Seq::new(group.len(), |k: int| fused_node(g, group, k)),
        },
        ext,
    )
}

/// What fusion asks of a group: it is not empty, its indices grow strictly and each names a
/// node of the graph.
pub open spec fn group_ok(g: Seq<NodeView>, group: Seq<usize>) -> bool {
    &&& group.len() > 0
    &&& forall|k: int| 0 <= k < group.len() ==> has_node(g, #[trigger] group[k])
    &&& forall|i: int, j: int| 0 <= i < j < group.len() ==> group[i] < group[j]
}

/// Whether every node of the group is a polynomial operation.
pub open spec fn all_poly(g: Seq<NodeView>, group: Seq<usize>) -> bool {
    forall|k: int| 0 <= k < group.len() ==> node_of(g, #[trigger] group[k]).opkind is Poly
}

/// Whether the node at place `k` is the first of the group that is no polynomial operation.
pub open spec fn stray_at(g: Seq<NodeView>, group: Seq<usize>, k: int) -> bool {
    &&& 0 <= k < group.len()
    &&& !(node_of(g, group[k]).opkind is Poly)
    &&& forall|j: int| 0 <= j < k ==> node_of(g, #[trigger] group[j]).opkind is Poly
}

/// The operands of the first nodes of a group are among the operands of the group.
pub proof fn lemma_group_operands_take(g: Seq<NodeView>, group: Seq<usize>, k: int)
    requires
        0 <= k <= group.len(),
    ensures
        group_operands(g, group.take(k)).len() <= group_operands(g, group).len(),
    decreases group.len() - k,
{
    if k < group.len() {
        assert(group.take(k + 1).drop_last() == group.take(k));
        lemma_group_operands_take(g, group, k + 1);
    } else {
        assert(group.take(k) == group);
    }
}

/// Each operand of each node of a group is among the operands of the group.
pub proof fn lemma_operand_in_group(g: Seq<NodeView>, group: Seq<usize>, k: int, j: int)
    requires
        0 <= k < group.len(),
        0 <= j < node_of(g, group[k]).inputs.len(),
    ensures
        group_operands(g, group).contains(node_of(g, group[k]).inputs[j]),
    decreases group.len(),
{
    let front = group.drop_last();
    let before = group_operands(g, front);
    let all = group_operands(g, group);
    if k < group.len() - 1 {
        assert(front[k] == group[k]);
        lemma_operand_in_group(g, front, k, j);
        let i = choose|i: int| 0 <= i < before.len() && before[i] == node_of(g, group[k]).inputs[j];
        assert(all[i] == before[i]);
    } else {
        assert(all[before.len() + j] == node_of(g, group[k]).inputs[j]);
    }
}

/// Each operand of a group is an operand of one of its nodes.
pub proof fn lemma_group_operand_origin(g: Seq<NodeView>, group: Seq<usize>, id: usize) -> (r: (
    int,
    int,
))
    requires
        group_operands(g, group).contains(id),
    ensures
        0 <= r.0 < group.len(),
        0 <= r.1 < node_of(g, group[r.0]).inputs.len(),
        node_of(g, group[r.0]).inputs[r.1] == id,
    decreases group.len(),
{
    let all = group_operands(g, group);
    let i = choose|i: int| 0 <= i < all.len() && all[i] == id;
    if group.len() == 0 {
        (0, 0)
    } else {
        let front = group.drop_last();
        let before = group_operands(g, front);
        if i < before.len() {
            assert(before[i] == id);
            let r = lemma_group_operand_origin(g, front, id);
            assert(front[r.0] == group[r.0]);
            r
        } else {
            (group.len() - 1, i - before.len())
        }
    }
}

/// In a scheduled graph every external input of a group names a node.
pub proof fn lemma_fused_inputs_present(g: Seq<NodeView>, group: Seq<usize>)
    requires
        graph_wf(g),
        forall|k: int| 0 <= k < group.len() ==> has_node(g, #[trigger] group[k]),
    ensures
        forall|k: int|
            0 <= k < fused_inputs(g, group).len() ==> has_node(g, #[trigger] fused_inputs(g, group)[k]),
        fused_inputs(g, group).no_duplicates(),
{
    let ext = fused_inputs(g, group);
    lemma_first_occurrences_distinct(external_operands(g, group));
    assert forall|k: int| 0 <= k < ext.len() implies has_node(g, #[trigger] ext[k]) by {
        let id = ext[k];
        assert(ext.contains(id));
        lemma_first_occurrences_contains(external_operands(g, group), id);
        group_operands(g, group).lemma_filter_contains_rev(outside(group), id);
        let r = lemma_group_operand_origin(g, group, id);
        assert(has_node(g, group[r.0]));
        let p = node_position(g, group[r.0]);
        lemma_operand_present(g, p, r.1);
    }
}

impl Model {
    /// Binds each external input of a gate to the next unused column of its kind, and
    /// counts the advice columns that were bound.
    fn input_columns(&self, ext: &Vec<usize>, vars: &ModelVars) -> (r: (Vec<VarTensor>, usize))
        requires
            ascending(self.nodes@),
            forall|k: int| 0 <= k < ext.len() ==> has_node(self.nodes@, #[trigger] ext@[k]),
            ext@.filter(takes_advice(self.nodes@, self.visibility.params == Visibility::Public)).len()
                <= vars.num_advice,
            ext@.filter(takes_fixed(self.nodes@, self.visibility.params == Visibility::Public)).len()
                <= vars.num_fixed,
        ensures
            view_all(r.0@) == Seq::new(
                ext@.len(),
                |k: int|
                    input_tensor(self.nodes@, ext@, k, self.visibility.params == Visibility::Public),
            ),
            r.1 == ext@.filter(
                takes_advice(self.nodes@, self.visibility.params == Visibility::Public),
            ).len(),
    {
        let public = self.visibility.params.is_public();
        let ghost g = self.nodes@;
        let ghost fixed = takes_fixed(g, public);
        let ghost advice = takes_advice(g, public);
        let mut tensors: Vec<VarTensor> = Vec::new();
        let mut advice_idx: usize = 0;
        let mut fixed_idx: usize = 0;
        let mut k: usize = 0;
        proof {
            reveal(Seq::filter);
            assert(ext@.take(0).filter(fixed).len() == 0);
            assert(ext@.take(0).filter(advice).len() == 0);
        }
        while k < ext.len()
            invariant
                k <= ext.len(),
                g == self.nodes@,
                ascending(g),
                public == (self.visibility.params == Visibility::Public),
                fixed == takes_fixed(g, public),
                advice == takes_advice(g, public),
                forall|k: int| 0 <= k < ext.len() ==> has_node(g, #[trigger] ext@[k]),
                ext@.filter(advice).len() <= vars.num_advice,
                ext@.filter(fixed).len() <= vars.num_fixed,
                fixed_idx == ext@.take(k as int).filter(fixed).len(),
                advice_idx == ext@.take(k as int).filter(advice).len(),
                tensors.len() == k,
                forall|i: int| 0 <= i < k ==> (#[trigger] tensors@[i])@ == input_tensor(g, ext@, i, public),
            decreases ext.len() - k,
        {
            let id = ext[k];
            assert(has_node(g, ext@[k as int]));
            let node = self.nodes.get(id);
            proof {
                assert(ext@.take(k + 1) == ext@.take(k as int).push(id));
                ext@.take(k as int).lemma_filter_push(id, fixed);
                ext@.take(k as int).lemma_filter_push(id, advice);
                ext@.lemma_filter_take_len(fixed, k + 1);
                ext@.lemma_filter_take_len(advice, k + 1);
            }
            if node.opkind.is_const() && public {
                tensors.push(vars.fixed(fixed_idx, &node.out_dims));
                fixed_idx += 1;
            } else {
                tensors.push(vars.advice(advice_idx, &node.out_dims));
                advice_idx += 1;
            }
            k += 1;
        }
        assert(ext@.take(ext.len() as int) == ext@);
        assert(view_all(tensors@) =~= Seq::new(
            ext@.len(),
            |k: int| input_tensor(g, ext@, k, public),
        ));
        (tensors, advice_idx)
    }

    /// Resolves the operands of each operation of a group, in the order of the group.
    fn fuse_nodes(&self, group: &Vec<usize>, ext: &Vec<usize>, operands: &Vec<usize>) -> (out: Vec<
        PolyNode,
    >)
        requires
            graph_wf(self.nodes@),
            group_ok(self.nodes@, group@),
            all_poly(self.nodes@, group@),
            ext@ == fused_inputs(self.nodes@, group@),
            operands@ == group_operands(self.nodes@, group@),
        ensures
            view_all(out@) == Seq::new(
                group@.len(),
                |k: int| fused_node(self.nodes@, group@, k),
            ),
    {
        let ghost g = self.nodes@;
        let ghost within = inside(group@);
        let mut out: Vec<PolyNode> = Vec::new();
        let mut inter_counter: usize = 0;
        let mut k: usize = 0;
        proof {
            reveal(Seq::filter);
            assert(group@.take(0) == Seq::<usize>::empty());
            assert(group_operands(g, group@.take(0)).filter(within).len() == 0);
            lemma_first_occurrences_distinct(external_operands(g, group@));
        }
        while k < group.len()
            invariant
                k <= group.len(),
                g == self.nodes@,
                within == inside(group@),
                graph_wf(g),
                group_ok(g, group@),
                all_poly(g, group@),
                ext@ == fused_inputs(g, group@),
                ext@.no_duplicates(),
                operands@ == group_operands(g, group@),
                inter_counter == group_operands(g, group@.take(k as int)).filter(within).len(),
                out.len() == k,
                forall|i: int| 0 <= i < k ==> (#[trigger] out@[i])@ == fused_node(g, group@, i),
            decreases group.len() - k,
        {
            let ghost before = group_operands(g, group@.take(k as int));
            assert(has_node(g, group@[k as int]));
            let node = self.nodes.get(group[k]);
            assert(node@ == node_of(g, group@[k as int]));
            proof {
                assert(group@.take(k + 1).drop_last() == group@.take(k as int));
                assert(group@.take(k + 1).last() == group@[k as int]);
                assert(group_operands(g, group@.take(k + 1)) == before + node@.inputs);
                lemma_group_operands_take(g, group@, k + 1);
                assert(before + node@.inputs.take(0) == before);
            }
            let mut order: Vec<PolyInputType> = Vec::new();
            let mut j: usize = 0;
            while j < node.inputs.len()
                invariant
                    j <= node.inputs.len(),
                    k < group.len(),
                    within == inside(group@),
                    node@ == node_of(g, group@[k as int]),
                    before == group_operands(g, group@.take(k as int)),
                    before.len() + node@.inputs.len() <= operands.len(),
                    ext@ == fused_inputs(g, group@),
                    ext@.no_duplicates(),
                    inter_counter == inter_before(g, group@, k as int, j as int),
                    order.len() == j,
                    forall|i: int|
                        0 <= i < j ==> #[trigger] order@[i] == operand_source(g, group@, k as int, i),
                decreases node.inputs.len() - j,
            {
                let id = node.inputs[j];
                proof {
                    let sofar = before + node@.inputs.take(j as int);
                    assert(before + node@.inputs.take(j + 1) == sofar.push(id));
                    sofar.lemma_filter_push(id, within);
                    sofar.lemma_filter_len(within);
                    assert(inter_counter == sofar.filter(within).len());
                    assert(sofar.len() == before.len() + j);
                    assert(operands.len() <= usize::MAX);
                }
                if holds(group, id) {
                    order.push(PolyInputType::Inter(inter_counter));
                    inter_counter += 1;
                } else {
                    proof {
                        lemma_operand_in_group(g, group@, k as int, j as int);
                        let all = group_operands(g, group@);
                        let i = choose|i: int| 0 <= i < all.len() && all[i] == id;
                        all.lemma_filter_contains(outside(group@), i);
                        lemma_first_occurrences_contains(external_operands(g, group@), id);
                    }
                    order.push(PolyInputType::Input(place_of(ext, id).unwrap()));
                }
                j += 1;
            }
            assert(node@.inputs.take(node.inputs.len() as int) == node@.inputs);
            let fused = PolyNode { op: node.opkind.as_poly().unwrap(), input_order: order };
            assert(fused@.input_order =~= fused_node(g, group@, k as int).input_order);
            out.push(fused);
            k += 1;
        }
        assert(view_all(out@) =~= Seq::new(group@.len(), |k: int| fused_node(g, group@, k)));
        out
    }

    /// Configures the polynomial operations of `group` as a single gate.
    ///
    /// `group` holds the indices of the operations in ascending order. A node of the group
    /// that is no polynomial operation stops the configuration with `WrongMethod`; the first
    /// such node is reported.
    pub fn conf_poly_ops(&self, group: &Vec<usize>, vars: &ModelVars) -> (r: Result<
        NodeConfig,
        GraphError,
    >)
        requires
            self.wf(),
            group_ok(self.nodes@, group@),
            all_poly(self.nodes@, group@) ==> advice_needed(
                self.nodes@,
                group@,
                self.visibility.params == Visibility::Public,
            ) <= vars.num_advice && fixed_needed(
                self.nodes@,
                group@,
                self.visibility.params == Visibility::Public,
            ) <= vars.num_fixed,
        ensures
            r is Ok <==> all_poly(self.nodes@, group@),
            r matches Ok(config) ==> all_poly(self.nodes@, group@) && config@ == fused_gate(
                self.nodes@,
                group@,
                self.visibility.params == Visibility::Public,
            ),
            r matches Err(e) ==> exists|k: int|
                #[trigger] stray_at(self.nodes@, group@, k) && e@ == GraphErrorView::WrongMethod(
                    group@[k],
                    node_of(self.nodes@, group@[k]).opkind,
                ),
    {
        let ghost g = self.nodes@;
        let ghost public = self.visibility.params == Visibility::Public;
        let mut k: usize = 0;
        while k < group.len()
            invariant
                k <= group.len(),
                g == self.nodes@,
                ascending(g),
                group_ok(g, group@),
                forall|j: int| 0 <= j < k ==> node_of(g, #[trigger] group@[j]).opkind is Poly,
            decreases group.len() - k,
        {
            assert(has_node(g, group@[k as int]));
            let node = self.nodes.get(group[k]);
            if !node.opkind.is_poly() {
                assert(stray_at(g, group@, k as int));
                return Err(GraphError::WrongMethod(node.idx, node.opkind.duplicate()));
            }
            k += 1;
        }
        assert(all_poly(g, group@));
        let operands = self.nodes.group_operands(group);
        let ext = unique(outside_of(&operands, group));
        proof {
            lemma_fused_inputs_present(g, group@);
        }
        let (inputs, advice_idx) = self.input_columns(&ext, vars);
        assert(has_node(g, group@[group.len() - 1]));
        let last = self.nodes.get(group[group.len() - 1]);
        let output = vars.advice(advice_idx, &last.out_dims);
        let nodes = self.fuse_nodes(group, &ext, &operands);
        Ok(NodeConfig::Poly(PolyConfig::configure(inputs, output, nodes), ext))
    }
}

} // verus!
