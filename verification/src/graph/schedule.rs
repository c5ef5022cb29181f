//! Assignment of execution buckets.
//!
//! Nodes are visited in ascending order of index. An input stands in bucket 0 and a
//! constant in none. A polynomial operation stands in the latest bucket of its operands
//! that are not constants, so that it can be fused with them; a lookup stands in the
//! bucket behind that one, so that it opens a region of its own.

use crate::graph::model::Model;
use crate::graph::operands::is_constant_of;
use crate::graph::node::{
    ascending, has_node, lemma_node_of_prefix, lemma_position_unique, node_of, node_position,
    Node, NodeGraph, NodeView, OpKind, OpKindView,
};
use crate::graph::{GraphError, GraphErrorView};
use crate::tensor::view_all;
use vstd::prelude::*;

verus! {

/// The bucket that the node of index `id` hands on to its consumers: none where `g` has no
/// such node, or a constant.
pub open spec fn producer_bucket(g: Seq<NodeView>, id: usize) -> Option<usize> {
    if has_node(g, id) && !(node_of(g, id).opkind is Const) {
        node_of(g, id).bucket
    } else {
        None
    }
}

/// The later of two buckets, where no bucket comes before every bucket.
pub open spec fn later(a: Option<usize>, b: Option<usize>) -> Option<usize> {
    match (a, b) {
        (None, _) => b,
        (_, None) => a,
        (Some(x), Some(y)) => Some(if x >= y { x } else { y }),
    }
}

/// The latest bucket among those that the operands `inputs` hand on.
pub open spec fn max_input_bucket(g: Seq<NodeView>, inputs: Seq<usize>) -> Option<usize>
    decreases inputs.len(),
{
    if inputs.len() == 0 {
        None
    } else {
        later(max_input_bucket(g, inputs.drop_last()), producer_bucket(g, inputs.last()))
    }
}

/// The first of `inputs` that names no node of `g`.
pub open spec fn first_missing(g: Seq<NodeView>, inputs: Seq<usize>) -> Option<usize>
    decreases inputs.len(),
{
    if inputs.len() == 0 {
        None
    } else {
        match first_missing(g, inputs.drop_last()) {
            Some(m) => Some(m),
            None => if has_node(g, inputs.last()) {
                None
            } else {
                Some(inputs.last())
            },
        }
    }
}

/// The bucket of node `n`, given the nodes `g` that were scheduled before it.
pub open spec fn assigned_bucket(g: Seq<NodeView>, n: NodeView) -> Result<
    Option<usize>,
    GraphErrorView,
> {
    match first_missing(g, n.inputs) {
        Some(m) => Err(GraphErrorView::MissingNode(m)),
        None => match n.opkind {
            OpKindView::Input => Ok(Some(0)),
            OpKindView::Const(_) => Ok(None),
            OpKindView::Poly(_) => Ok(max_input_bucket(g, n.inputs)),
            OpKindView::Lookup(_) => Ok(
                match max_input_bucket(g, n.inputs) {
                    Some(b) => Some((b + 1) as usize),
                    None => None,
                },
            ),
            OpKindView::Unknown => Err(GraphErrorView::WrongMethod(n.idx, n.opkind)),
        },
    }
}

/// The nodes with their buckets, or the error of the first node that cannot be placed.
pub open spec fn schedule(nodes: Seq<NodeView>) -> Result<Seq<NodeView>, GraphErrorView>
    decreases nodes.len(),
{
    if nodes.len() == 0 {
        Ok(Seq::empty())
    } else {
        match schedule(nodes.drop_last()) {
            Err(e) => Err(e),
            Ok(g) => match assigned_bucket(g, nodes.last()) {
                Err(e) => Err(e),
                Ok(b) => Ok(g.push(nodes.last().in_bucket(b))),
            },
        }
    }
}

/// Whether the node at place `p` has an operand that is not a constant before it.
pub open spec fn has_operand(nodes: Seq<NodeView>, p: int) -> bool {
    exists|k: int|
        0 <= k < nodes[p].inputs.len() && !is_constant_of(
            nodes.take(p),
            #[trigger] nodes[p].inputs[k],
        )
}

/// What bucket assignment asks of its nodes: indices grow strictly, and no operation has
/// constants for all its operands.
pub open spec fn schedulable(nodes: Seq<NodeView>) -> bool {
    &&& ascending(nodes)
    &&& forall|p: int|
        0 <= p < nodes.len() && ((#[trigger] nodes[p]).opkind is Poly || nodes[p].opkind is Lookup)
            ==> has_operand(nodes, p)
}

/// Whether the node at place `p` stands where the rules put it.
pub open spec fn placed(g: Seq<NodeView>, p: int) -> bool {
    &&& assigned_bucket(g.take(p), g[p]) == Ok::<Option<usize>, GraphErrorView>(g[p].bucket)
    &&& g[p].bucket is None <==> g[p].opkind is Const
    &&& g[p].bucket matches Some(b) ==> b <= p
}

/// A scheduled graph: indices grow strictly and every node stands where the rules put it.
pub open spec fn graph_wf(g: Seq<NodeView>) -> bool {
    &&& g.len() <= usize::MAX
    &&& ascending(g)
    &&& forall|p: int| 0 <= p < g.len() ==> #[trigger] placed(g, p)
}

/// An error among the first nodes is the error of the whole list.
pub proof fn lemma_schedule_error(nodes: Seq<NodeView>, k: int)
    requires
        0 <= k <= nodes.len(),
        schedule(nodes.take(k)) is Err,
    ensures
        schedule(nodes) == schedule(nodes.take(k)),
    decreases nodes.len() - k,
{
    if k < nodes.len() {
        assert(nodes.take(k + 1).drop_last() == nodes.take(k));
        lemma_schedule_error(nodes, k + 1);
    } else {
        assert(nodes.take(k) == nodes);
    }
}

/// None of the first operands is missing exactly if each of them names a node.
pub proof fn lemma_first_missing(g: Seq<NodeView>, inputs: Seq<usize>)
    ensures
        first_missing(g, inputs) is None <==> forall|k: int|
            0 <= k < inputs.len() ==> has_node(g, #[trigger] inputs[k]),
        first_missing(g, inputs) matches Some(m) ==> !has_node(g, m) && inputs.contains(m),
    decreases inputs.len(),
{
    if inputs.len() > 0 {
        lemma_first_missing(g, inputs.drop_last());
        let front = inputs.drop_last();
        if first_missing(g, front) is None {
            assert forall|k: int| 0 <= k < front.len() implies has_node(g, #[trigger] inputs[k]) by {
                assert(front[k] == inputs[k]);
            }
            if has_node(g, inputs.last()) {
                assert forall|k: int| 0 <= k < inputs.len() implies has_node(
                    g,
                    #[trigger] inputs[k],
                ) by {
                    if k < front.len() {
                        assert(front[k] == inputs[k]);
                    }
                }
            } else {
                assert(inputs[inputs.len() - 1] == inputs.last());
            }
        } else {
            let m = first_missing(g, front).unwrap();
            let j = choose|j: int| 0 <= j < front.len() && front[j] == m;
            assert(inputs[j] == m);
        }
    }
}

/// The latest bucket of the operands is no earlier than the bucket of any of them, and is
/// the bucket of one of them.
pub proof fn lemma_max_input_bucket(g: Seq<NodeView>, inputs: Seq<usize>)
    ensures
        forall|k: int|
            0 <= k < inputs.len() ==> (#[trigger] producer_bucket(g, inputs[k]) matches Some(b)
                ==> max_input_bucket(g, inputs) matches Some(m) && b <= m),
        max_input_bucket(g, inputs) is Some ==> exists|k: int|
            0 <= k < inputs.len() && #[trigger] producer_bucket(g, inputs[k]) == max_input_bucket(
                g,
                inputs,
            ),
    decreases inputs.len(),
{
    if inputs.len() > 0 {
        let front = inputs.drop_last();
        lemma_max_input_bucket(g, front);
        assert forall|k: int| 0 <= k < inputs.len() implies (#[trigger] producer_bucket(
            g,
            inputs[k],
        ) matches Some(b) ==> max_input_bucket(g, inputs) matches Some(m) && b <= m) by {
            if k < front.len() {
                assert(front[k] == inputs[k]);
            }
        }
        if max_input_bucket(g, inputs) is Some {
            if max_input_bucket(g, inputs) == producer_bucket(g, inputs.last()) {
                assert(producer_bucket(g, inputs[inputs.len() - 1]) == max_input_bucket(g, inputs));
            } else {
                let k = choose|k: int|
                    0 <= k < front.len() && #[trigger] producer_bucket(g, front[k])
                        == max_input_bucket(g, front);
                assert(front[k] == inputs[k]);
                assert(producer_bucket(g, inputs[k]) == max_input_bucket(g, inputs));
            }
        }
    }
}

/// In a scheduled graph every operand names a node that stands before its consumer.
pub proof fn lemma_operand_present(g: Seq<NodeView>, p: int, j: int)
    requires
        graph_wf(g),
        0 <= p < g.len(),
        0 <= j < g[p].inputs.len(),
    ensures
        has_node(g, g[p].inputs[j]),
        node_position(g, g[p].inputs[j]) < p,
        node_of(g, g[p].inputs[j]) == node_of(g.take(p), g[p].inputs[j]),
{
    assert(placed(g, p));
    lemma_first_missing(g.take(p), g[p].inputs);
    lemma_node_of_prefix(g, p, g[p].inputs[j]);
}

impl Model {
    /// Assigns an execution bucket to every node.
    ///
    /// The nodes are taken in the order of the list. A node whose operand names no node
    /// before it stops the assignment with `MissingNode` and the operand's index, whatever
    /// its kind; a node of unknown kind stops it with `WrongMethod`. Otherwise the graph
    /// holds the same nodes, each in the bucket that the rules of this module give it. So
    /// the assignment succeeds exactly if every operand names a node before its consumer
    /// and no node is of unknown kind.
    pub fn assign_execution_buckets(nodes: Vec<Node>) -> (r: Result<NodeGraph, GraphError>)
        requires
            schedulable(view_all(nodes@)),
        ensures
            r matches Ok(g) ==> schedule(view_all(nodes@)) == Ok::<Seq<NodeView>, GraphErrorView>(g@)
                && graph_wf(g@) && g@.len() == nodes.len(),
            r matches Ok(g) ==> forall|p: int|
                0 <= p < nodes.len() ==> #[trigger] g@[p] == nodes@[p]@.in_bucket(g@[p].bucket),
            r matches Err(e) ==> schedule(view_all(nodes@)) == Err::<
                Seq<NodeView>,
                GraphErrorView,
            >(e@),
            r is Ok <==> producers_precede(view_all(nodes@)) && all_known(view_all(nodes@)),
    {
        let ghost nv = view_all(nodes@);
        proof {
            lemma_schedule_succeeds(nv);
        }
        let mut graph = NodeGraph::new();
        let mut i: usize = 0;
        assert(nv.take(0) == Seq::<NodeView>::empty());
        while i < nodes.len()
            invariant
                i <= nodes.len(),
                nv == view_all(nodes@),
                schedulable(nv),
                schedule(nv) is Ok <==> producers_precede(nv) && all_known(nv),
                graph@.len() == i,
                schedule(nv.take(i as int)) == Ok::<Seq<NodeView>, GraphErrorView>(graph@),
                graph_wf(graph@),
                forall|p: int| 0 <= p < i ==> #[trigger] graph@[p] == nv[p].in_bucket(graph@[p].bucket),
            decreases nodes.len() - i,
        {
            let node = &nodes[i];
            let ghost n = nv[i as int];
            let ghost g = graph@;
            assert(n == node@);
            assert(nv.take(i + 1).drop_last() == nv.take(i as int));
            assert(nv.take(i + 1).last() == n);
            let mut prev: Option<usize> = None;
            let mut k: usize = 0;
            while k < node.inputs.len()
                invariant
                    k <= node.inputs.len(),
                    i < nodes.len(),
                    nv == view_all(nodes@),
                    schedule(nv) is Ok <==> producers_precede(nv) && all_known(nv),
                    n == node@,
                    n == nv[i as int],
                    g == graph@,
                    graph_wf(g),
                    g.len() == i,
                    schedule(nv.take(i as int)) == Ok::<Seq<NodeView>, GraphErrorView>(g),
                    first_missing(g, n.inputs.take(k as int)) is None,
                    prev == max_input_bucket(g, n.inputs.take(k as int)),
                    prev matches Some(b) ==> b < i,
                decreases node.inputs.len() - k,
            {
                let id = node.inputs[k];
                assert(n.inputs.take(k + 1).drop_last() == n.inputs.take(k as int));
                assert(n.inputs.take(k + 1).last() == id);
                match graph.filter(id) {
                    None => {
                        proof {
                            assert(first_missing(g, n.inputs.take(k + 1)) == Some(id));
                            lemma_missing_prefix(g, n.inputs, k + 1);
                            assert(assigned_bucket(g, n) == Err::<Option<usize>, GraphErrorView>(
                                GraphErrorView::MissingNode(id),
                            ));
                            assert(nv.take(i + 1).drop_last() == nv.take(i as int));
                            assert(nv.take(i + 1).last() == n);
                            assert(schedule(nv.take(i + 1)) == Err::<Seq<NodeView>, GraphErrorView>(
                                GraphErrorView::MissingNode(id),
                            ));
                            lemma_schedule_error(nv, i + 1);
                        }
                        return Err(GraphError::MissingNode(id));
                    },
                    Some(producer) => {
                        let ghost q = node_position(g, id);
                        assert(0 <= q < g.len() && g[q].idx == id);
                        assert(placed(g, q));
                        if !producer.opkind.is_const() {
                            // a node of the graph that is no constant has its bucket
                            let b = producer.bucket.unwrap();
                            prev = match prev {
                                Some(a) => Some(if a >= b { a } else { b }),
                                None => Some(b),
                            };
                        }
                    },
                }
                k += 1;
            }
            assert(n.inputs.take(node.inputs.len() as int) == n.inputs);
            let bucket: Option<usize> = match &node.opkind {
                OpKind::Input => Some(0),
                OpKind::Const(_) => None,
                OpKind::Poly(_) => prev,
                OpKind::Lookup(_) => match prev {
                    Some(b) => Some(b + 1),
                    None => None,
                },
                OpKind::Unknown => {
                    proof {
                        lemma_schedule_error(nv, i + 1);
                    }
                    return Err(GraphError::WrongMethod(node.idx, node.opkind.duplicate()));
                },
            };
            proof {
                assert(assigned_bucket(g, n) == Ok::<Option<usize>, GraphErrorView>(bucket));
                if n.opkind is Poly || n.opkind is Lookup {
                    lemma_operand_gives_bucket(nv, g, i as int);
                }
            }
            graph.insert(node.with_bucket(bucket));
            proof {
                let g2 = graph@;
                assert(g2 == g.push(n.in_bucket(bucket)));
                assert forall|a: int, b: int| 0 <= a < b < g2.len() implies (#[trigger] g2[a]).idx < (
                #[trigger] g2[b]).idx by {
                    assert(g2[a].idx == nv[a].idx);
                    assert(g2[b].idx == nv[b].idx);
                }
                assert forall|p: int| 0 <= p < g2.len() implies #[trigger] placed(g2, p) by {
                    if p < i {
                        assert(g2.take(p) == g.take(p));
                        assert(placed(g, p));
                    } else {
                        assert(g2.take(p) == g);
                    }
                }
            }
            i += 1;
        }
        assert(nv.take(nodes.len() as int) == nv);
        Ok(graph)
    }
}

/// Whether every operand names a node that stands before its consumer.
pub open spec fn producers_precede(nodes: Seq<NodeView>) -> bool {
    forall|p: int, k: int|
        0 <= p < nodes.len() && 0 <= k < nodes[p].inputs.len() ==> has_node(
            nodes.take(p),
            #[trigger] nodes[p].inputs[k],
        )
}

/// Whether no node is of unknown kind.
pub open spec fn all_known(nodes: Seq<NodeView>) -> bool {
    forall|p: int| 0 <= p < nodes.len() ==> !((#[trigger] nodes[p]).opkind is Unknown)
}

/// A schedule holds the nodes it was made of, in their order, each with its bucket.
pub proof fn lemma_schedule_shape(nodes: Seq<NodeView>)
    requires
        schedule(nodes) is Ok,
    ensures
        schedule(nodes)->Ok_0.len() == nodes.len(),
        forall|p: int|
            0 <= p < nodes.len() ==> #[trigger] schedule(nodes)->Ok_0[p] == nodes[p].in_bucket(
                schedule(nodes)->Ok_0[p].bucket,
            ),
    decreases nodes.len(),
{
    if nodes.len() > 0 {
        lemma_schedule_shape(nodes.drop_last());
    }
}

/// Two lists of the same nodes, buckets apart, hold the same indices.
pub proof fn lemma_same_indices(a: Seq<NodeView>, b: Seq<NodeView>, id: usize)
    requires
        a.len() == b.len(),
        forall|p: int| 0 <= p < a.len() ==> #[trigger] a[p] == b[p].in_bucket(a[p].bucket),
    ensures
        has_node(a, id) <==> has_node(b, id),
{
    if has_node(a, id) {
        let q = choose|q: int| 0 <= q < a.len() && (#[trigger] a[q]).idx == id;
        assert(a[q] == b[q].in_bucket(a[q].bucket));
        assert(b[q].idx == id);
    }
    if has_node(b, id) {
        let q = choose|q: int| 0 <= q < b.len() && (#[trigger] b[q]).idx == id;
        assert(a[q] == b[q].in_bucket(a[q].bucket));
        assert(a[q].idx == id);
    }
}

/// When bucket assignment succeeds: exactly if every operand names a node that stands
/// before its consumer, and no node is of unknown kind.
pub proof fn lemma_schedule_succeeds(nodes: Seq<NodeView>)
    ensures
        schedule(nodes) is Ok <==> producers_precede(nodes) && all_known(nodes),
    decreases nodes.len(),
{
    if nodes.len() > 0 {
        let front = nodes.drop_last();
        let n = nodes.last();
        let last = nodes.len() - 1;
        lemma_schedule_succeeds(front);
        assert(front == nodes.take(last));
        assert(nodes[last] == n);
        assert forall|p: int| 0 <= p < front.len() implies front.take(p) == nodes.take(p) by {}
        if schedule(front) is Ok {
            let g = schedule(front)->Ok_0;
            lemma_schedule_shape(front);
            lemma_first_missing(g, n.inputs);
            assert forall|k: int| 0 <= k < n.inputs.len() implies (has_node(g, #[trigger] n.inputs[k])
                <==> has_node(front, n.inputs[k])) by {
                lemma_same_indices(g, front, n.inputs[k]);
            }
            if schedule(nodes) is Ok {
                assert forall|p: int, k: int|
                    0 <= p < nodes.len() && 0 <= k < nodes[p].inputs.len() implies has_node(
                    nodes.take(p),
                    #[trigger] nodes[p].inputs[k],
                ) by {
                    if p < last {
                        assert(front[p] == nodes[p]);
                        assert(front.take(p) == nodes.take(p));
                    }
                }
                assert forall|p: int| 0 <= p < nodes.len() implies !((#[trigger] nodes[p]).opkind is Unknown) by {
                    if p < last {
                        assert(front[p] == nodes[p]);
                    }
                }
            }
            if producers_precede(nodes) && all_known(nodes) {
                assert forall|k: int| 0 <= k < n.inputs.len() implies has_node(
                    front,
                    #[trigger] n.inputs[k],
                ) by {
                    assert(has_node(nodes.take(last), nodes[last].inputs[k]));
                }
            }
        } else {
            if producers_precede(nodes) && all_known(nodes) {
                assert forall|p: int, k: int|
                    0 <= p < front.len() && 0 <= k < front[p].inputs.len() implies has_node(
                    front.take(p),
                    #[trigger] front[p].inputs[k],
                ) by {
                    assert(front[p] == nodes[p]);
                    assert(front.take(p) == nodes.take(p));
                    assert(has_node(nodes.take(p), nodes[p].inputs[k]));
                }
                assert forall|p: int| 0 <= p < front.len() implies !((#[trigger] front[p]).opkind is Unknown) by {
                    assert(front[p] == nodes[p]);
                }
            }
        }
    }
}

/// What the operands hand on does not change with the nodes behind them.
pub proof fn lemma_max_input_bucket_prefix(g: Seq<NodeView>, p: int, inputs: Seq<usize>)
    requires
        ascending(g),
        0 <= p <= g.len(),
        forall|k: int| 0 <= k < inputs.len() ==> has_node(g.take(p), #[trigger] inputs[k]),
    ensures
        max_input_bucket(g, inputs) == max_input_bucket(g.take(p), inputs),
    decreases inputs.len(),
{
    if inputs.len() > 0 {
        let front = inputs.drop_last();
        assert forall|k: int| 0 <= k < front.len() implies has_node(g.take(p), #[trigger] front[k]) by {
            assert(front[k] == inputs[k]);
        }
        lemma_max_input_bucket_prefix(g, p, front);
        assert(inputs.last() == inputs[inputs.len() - 1]);
        lemma_node_of_prefix(g, p, inputs.last());
    }
}

/// Where each kind of node stands in a scheduled graph.
///
/// An input stands in bucket 0. A constant has no bucket, and it alone. A polynomial
/// operation stands in the latest bucket of its operands that are not constants, and a
/// lookup in the bucket behind that one.
pub proof fn lemma_bucket_rules(g: Seq<NodeView>, p: int)
    requires
        graph_wf(g),
        0 <= p < g.len(),
    ensures
        g[p].opkind is Input ==> g[p].bucket == Some(0usize),
        g[p].opkind is Const <==> g[p].bucket is None,
        g[p].opkind is Poly ==> g[p].bucket is Some && g[p].bucket == max_input_bucket(
            g,
            g[p].inputs,
        ),
        g[p].opkind is Lookup ==> (max_input_bucket(g, g[p].inputs) is Some),
        g[p].opkind is Lookup ==> (g[p].bucket is Some),
        g[p].opkind is Lookup ==> (g[p].bucket->Some_0 == max_input_bucket(g, g[p].inputs)->Some_0
            + 1),
        !(g[p].opkind is Unknown),
{
    assert(placed(g, p));
    lemma_first_missing(g.take(p), g[p].inputs);
    lemma_max_input_bucket_prefix(g, p, g[p].inputs);
    if g[p].opkind is Lookup {
        let m = max_input_bucket(g, g[p].inputs);
        lemma_max_input_bucket(g, g[p].inputs);
        let k = choose|k: int|
            0 <= k < g[p].inputs.len() && #[trigger] producer_bucket(g, g[p].inputs[k]) == m;
        assert(m is Some);
        assert(0 <= k < g[p].inputs.len() && producer_bucket(g, g[p].inputs[k]) == m);
        lemma_operand_present(g, p, k);
        let q = node_position(g, g[p].inputs[k]);
        assert(placed(g, q));
        assert(g[q].bucket == m);
        assert(m->Some_0 <= q);
    }
}

/// The bucket of an operation against the bucket of one of its operands: an operand that is
/// not a constant has a bucket, a polynomial operation stands in that bucket or a later one,
/// and a lookup stands in a later one.
pub proof fn lemma_bucket_order(g: Seq<NodeView>, p: int, k: int)
    requires
        graph_wf(g),
        0 <= p < g.len(),
        0 <= k < g[p].inputs.len(),
        g[p].opkind is Poly || g[p].opkind is Lookup,
        !is_constant_of(g, g[p].inputs[k]),
    ensures
        has_node(g, g[p].inputs[k]),
        node_of(g, g[p].inputs[k]).bucket is Some,
        g[p].bucket is Some,
        g[p].opkind is Poly ==> node_of(g, g[p].inputs[k]).bucket->Some_0 <= g[p].bucket->Some_0,
        g[p].opkind is Lookup ==> node_of(g, g[p].inputs[k]).bucket->Some_0 < g[p].bucket->Some_0,
{
    lemma_bucket_rules(g, p);
    lemma_operand_present(g, p, k);
    let q = node_position(g, g[p].inputs[k]);
    assert(placed(g, q));
    lemma_max_input_bucket(g, g[p].inputs);
    assert(producer_bucket(g, g[p].inputs[k]) is Some);
}

/// Scheduling a scheduled graph again leaves every node in its bucket.
pub proof fn lemma_schedule_again(g: Seq<NodeView>, upto: int)
    requires
        graph_wf(g),
        0 <= upto <= g.len(),
    ensures
        schedule(g.take(upto)) == Ok::<Seq<NodeView>, GraphErrorView>(g.take(upto)),
    decreases upto,
{
    if upto > 0 {
        lemma_schedule_again(g, upto - 1);
        assert(g.take(upto).drop_last() == g.take(upto - 1));
        assert(g.take(upto).last() == g[upto - 1]);
        assert(placed(g, upto - 1));
        assert(g[upto - 1].in_bucket(g[upto - 1].bucket) == g[upto - 1]);
        assert(g.take(upto - 1).push(g[upto - 1]) == g.take(upto));
    } else {
        assert(g.take(0) == Seq::<NodeView>::empty());
    }
}

/// The buckets that a node comes with have no part in the schedule: two lists of the same
/// nodes, buckets apart, get the same schedule.
pub proof fn lemma_schedule_ignores_buckets(a: Seq<NodeView>, b: Seq<NodeView>)
    requires
        a.len() == b.len(),
        forall|p: int| 0 <= p < a.len() ==> #[trigger] a[p] == b[p].in_bucket(a[p].bucket),
    ensures
        schedule(a) == schedule(b),
    decreases a.len(),
{
    if a.len() > 0 {
        let fa = a.drop_last();
        let fb = b.drop_last();
        assert forall|p: int| 0 <= p < fa.len() implies #[trigger] fa[p] == fb[p].in_bucket(
            fa[p].bucket,
        ) by {
            assert(a[p] == b[p].in_bucket(a[p].bucket));
        }
        lemma_schedule_ignores_buckets(fa, fb);
        assert(a[a.len() - 1] == b[a.len() - 1].in_bucket(a[a.len() - 1].bucket));
        if let Ok(g) = schedule(fa) {
            let na = a.last();
            let nb = b.last();
            assert(na.inputs == nb.inputs && na.opkind == nb.opkind && na.idx == nb.idx);
            if let Ok(bucket) = assigned_bucket(g, na) {
                assert(na.in_bucket(bucket) == nb.in_bucket(bucket));
            }
        }
    }
}

/// Compiling a compiled graph once more gives the same buckets: a scheduled graph is its
/// own schedule.
pub proof fn lemma_schedule_idempotent(nodes: Seq<NodeView>)
    requires
        schedule(nodes) is Ok,
        graph_wf(schedule(nodes)->Ok_0),
    ensures
        schedule(schedule(nodes)->Ok_0) == schedule(nodes),
{
    let g = schedule(nodes)->Ok_0;
    lemma_schedule_again(g, g.len() as int);
    assert(g.take(g.len() as int) == g);
}

/// A missing operand among the first operands is the first missing operand of all.
pub proof fn lemma_missing_prefix(g: Seq<NodeView>, inputs: Seq<usize>, k: int)
    requires
        0 <= k <= inputs.len(),
        first_missing(g, inputs.take(k)) is Some,
    ensures
        first_missing(g, inputs) == first_missing(g, inputs.take(k)),
    decreases inputs.len() - k,
{
    if k < inputs.len() {
        assert(inputs.take(k + 1).drop_last() == inputs.take(k));
        lemma_missing_prefix(g, inputs, k + 1);
    } else {
        assert(inputs.take(k) == inputs);
    }
}

/// An operation with an operand that is not a constant gets a bucket from its operands,
/// once the nodes before it are scheduled and none of its operands is missing.
pub proof fn lemma_operand_gives_bucket(nodes: Seq<NodeView>, g: Seq<NodeView>, i: int)
    requires
        0 <= i < nodes.len(),
        g.len() == i,
        graph_wf(g),
        forall|p: int| 0 <= p < i ==> #[trigger] g[p] == nodes[p].in_bucket(g[p].bucket),
        has_operand(nodes, i),
        first_missing(g, nodes[i].inputs) is None,
    ensures
        max_input_bucket(g, nodes[i].inputs) is Some,
{
    let inputs = nodes[i].inputs;
    let k = choose|k: int|
        0 <= k < inputs.len() && !is_constant_of(nodes.take(i), #[trigger] inputs[k]);
    let id = inputs[k];
    lemma_first_missing(g, inputs);
    assert(has_node(g, id));
    let q = node_position(g, id);
    assert(0 <= q < i && g[q].idx == id);
    assert(nodes.take(i)[q].idx == id);
    assert(ascending(nodes.take(i))) by {
        assert forall|a: int, b: int| 0 <= a < b < i implies (#[trigger] nodes.take(i)[a]).idx < (
        #[trigger] nodes.take(i)[b]).idx by {
            assert(g[a].idx < g[b].idx);
        }
    }
    lemma_position_unique(nodes.take(i), id, q);
    assert(!(g[q].opkind is Const));
    assert(placed(g, q));
    assert(producer_bucket(g, id) is Some);
    lemma_max_input_bucket(g, inputs);
}

} // verus!
