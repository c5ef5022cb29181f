//! Nodes of the computation graph, and the graph once every node has its bucket.

use crate::circuit::lookup::LookupOp;
use crate::circuit::polynomial::PolyOp;
use crate::tensor::{copy_dims, view_all};
use vstd::prelude::*;

verus! {

/// What a node does.
#[derive(Clone, Debug, PartialEq, Eq)]
pub enum OpKind {
    /// A value that is supplied from outside when the circuit is laid out.
    Input,
    /// A constant, with its quantized value.
    Const(Vec<i32>),
    /// An operation that a polynomial constraint expresses.
    Poly(PolyOp),
    /// An operation that is constrained through a lookup table.
    Lookup(LookupOp),
    /// An operation that was not recognised.
    Unknown,
}

/// What an [`OpKind`] stands for.
pub enum OpKindView {
    Input,
    Const(Seq<i32>),
    Poly(PolyOp),
    Lookup(LookupOp),
    Unknown,
}

impl View for OpKind {
    type V = OpKindView;

    open spec fn view(&self) -> OpKindView {
        match self {
            OpKind::Input => OpKindView::Input,
            OpKind::Const(value) => OpKindView::Const(value@),
            OpKind::Poly(op) => OpKindView::Poly(*op),
            OpKind::Lookup(op) => OpKindView::Lookup(*op),
            OpKind::Unknown => OpKindView::Unknown,
        }
    }
}

/// Copies a list of quantized values.
pub fn copy_values(values: &Vec<i32>) -> (out: Vec<i32>)
    ensures
        out@ == values@,
{
    let mut out: Vec<i32> = Vec::new();
    let mut k: usize = 0;
    while k < values.len()
        invariant
            k <= values.len(),
            out@ == values@.take(k as int),
        decreases values.len() - k,
    {
        out.push(values[k]);
        assert(values@.take(k + 1) == values@.take(k as int).push(values@[k as int]));
        k += 1;
    }
    assert(values@.take(values.len() as int) == values@);
    out
}

/// Copies a list of shapes.
pub fn copy_shapes(shapes: &Vec<Vec<usize>>) -> (out: Vec<Vec<usize>>)
    ensures
        view_all(out@) == view_all(shapes@),
{
    let mut out: Vec<Vec<usize>> = Vec::new();
    let mut k: usize = 0;
    while k < shapes.len()
        invariant
            k <= shapes.len(),
            out.len() == k,
            forall|j: int| 0 <= j < k ==> out@[j]@ == shapes@[j]@,
        decreases shapes.len() - k,
    {
        out.push(copy_dims(&shapes[k]));
        k += 1;
    }
    assert(view_all(out@) =~= view_all(shapes@));
    out
}

impl OpKind {
    /// Whether the node is an input of the graph.
    pub fn is_input(&self) -> (r: bool)
        ensures
            r == (self@ is Input),
    {
        matches!(self, OpKind::Input)
    }

    /// Whether the node is a constant.
    pub fn is_const(&self) -> (r: bool)
        ensures
            r == (self@ is Const),
    {
        matches!(self, OpKind::Const(_))
    }

    /// Whether the node is a polynomial operation.
    pub fn is_poly(&self) -> (r: bool)
        ensures
            r == (self@ is Poly),
    {
        matches!(self, OpKind::Poly(_))
    }

    /// Whether the node is a lookup.
    pub fn is_lookup(&self) -> (r: bool)
        ensures
            r == (self@ is Lookup),
    {
        matches!(self, OpKind::Lookup(_))
    }

    /// The polynomial operation, if the kind is one.
    pub fn as_poly(&self) -> (r: Option<PolyOp>)
        ensures
            r is Some <==> self@ is Poly,
            r matches Some(op) ==> self@ == OpKindView::Poly(op),
    {
        match self {
            OpKind::Poly(op) => Some(*op),
            _ => None,
        }
    }

    /// A copy of the kind, value included.
    pub fn duplicate(&self) -> (out: OpKind)
        ensures
            out@ == self@,
    {
        match self {
            OpKind::Input => OpKind::Input,
            OpKind::Const(value) => OpKind::Const(copy_values(value)),
            OpKind::Poly(op) => OpKind::Poly(*op),
            OpKind::Lookup(op) => OpKind::Lookup(*op),
            OpKind::Unknown => OpKind::Unknown,
        }
    }
}

/// One operation of the graph.
#[derive(Clone, Debug, PartialEq, Eq)]
pub struct Node {
    /// The index of the node: no other node of the graph has it.
    pub idx: usize,
    pub opkind: OpKind,
    /// The indices of the nodes that produce the operands, in operand order.
    pub inputs: Vec<usize>,
    /// The shapes of the operands.
    pub in_dims: Vec<Vec<usize>>,
    /// The shape of the result.
    pub out_dims: Vec<usize>,
    /// The fixed-point exponent of the result.
    pub out_scale: i32,
    /// The execution bucket, once assigned. A constant has none.
    pub bucket: Option<usize>,
}

/// What a [`Node`] stands for.
pub struct NodeView {
    pub idx: usize,
    pub opkind: OpKindView,
    pub inputs: Seq<usize>,
    pub in_dims: Seq<Seq<usize>>,
    pub out_dims: Seq<usize>,
    pub out_scale: i32,
    pub bucket: Option<usize>,
}

impl View for Node {
    type V = NodeView;

    open spec fn view(&self) -> NodeView {
        NodeView {
            idx: self.idx,
            opkind: self.opkind@,
            inputs: self.inputs@,
            in_dims: view_all(self.in_dims@),
            out_dims: self.out_dims@,
            out_scale: self.out_scale,
            bucket: self.bucket,
        }
    }
}

impl NodeView {
    /// The same node in another bucket.
    pub open spec fn in_bucket(self, bucket: Option<usize>) -> NodeView {
        NodeView { bucket, ..self }
    }
}

impl Node {
    /// A copy of the node, placed in `bucket`.
    pub fn with_bucket(&self, bucket: Option<usize>) -> (out: Node)
        ensures
            out@ == self@.in_bucket(bucket),
    {
        Node {
            idx: self.idx,
            opkind: self.opkind.duplicate(),
            inputs: copy_dims(&self.inputs),
            in_dims: copy_shapes(&self.in_dims),
            out_dims: copy_dims(&self.out_dims),
            out_scale: self.out_scale,
            bucket,
        }
    }

    /// A copy of the node.
    pub fn duplicate(&self) -> (out: Node)
        ensures
            out@ == self@,
    {
        self.with_bucket(self.bucket)
    }
}

/// Whether the indices of `g` grow strictly from each node to the next.
pub open spec fn ascending(g: Seq<NodeView>) -> bool {
    forall|i: int, j: int| 0 <= i < j < g.len() ==> (#[trigger] g[i]).idx < (#[trigger] g[j]).idx
}

/// Whether `g` holds a node of index `id`.
pub open spec fn has_node(g: Seq<NodeView>, id: usize) -> bool {
    exists|q: int| 0 <= q < g.len() && (#[trigger] g[q]).idx == id
}

/// The place in `g` of the node of index `id`, where there is one.
pub open spec fn node_position(g: Seq<NodeView>, id: usize) -> int {
    choose|q: int| 0 <= q < g.len() && (#[trigger] g[q]).idx == id
}

/// The node of index `id` in `g`, where there is one.
pub open spec fn node_of(g: Seq<NodeView>, id: usize) -> NodeView {
    g[node_position(g, id)]
}

/// In an ascending graph an index names one place only.
pub proof fn lemma_position_unique(g: Seq<NodeView>, id: usize, q: int)
    requires
        ascending(g),
        0 <= q < g.len(),
        g[q].idx == id,
    ensures
        has_node(g, id),
        node_position(g, id) == q,
{
    let p = node_position(g, id);
    assert(0 <= p < g.len() && g[p].idx == id);
    if p < q {
        assert(g[p].idx < g[q].idx);
    } else if q < p {
        assert(g[q].idx < g[p].idx);
    }
}

/// A node of a prefix of an ascending graph is the same node of the whole graph.
pub proof fn lemma_node_of_prefix(g: Seq<NodeView>, k: int, id: usize)
    requires
        ascending(g),
        0 <= k <= g.len(),
        has_node(g.take(k), id),
    ensures
        has_node(g, id),
        node_position(g, id) == node_position(g.take(k), id),
        node_position(g, id) < k,
        node_of(g, id) == node_of(g.take(k), id),
{
    let q = node_position(g.take(k), id);
    assert(0 <= q < k && g.take(k)[q].idx == id);
    assert(g[q] == g.take(k)[q]);
    lemma_position_unique(g, id, q);
}

/// The graph of nodes with their buckets, in ascending order of index.
///
/// The nodes of one bucket are those whose `bucket` field holds its key; read in the order
/// of the list they are in ascending order of index. Buckets are visited from the one
/// without a key, which holds the constants, through the numbered ones in ascending order.
#[derive(Clone, Debug, PartialEq, Eq)]
pub struct NodeGraph {
    pub nodes: Vec<Node>,
}

impl View for NodeGraph {
    type V = Seq<NodeView>;

    open spec fn view(&self) -> Seq<NodeView> {
        view_all(self.nodes@)
    }
}

impl NodeGraph {
    /// A graph without nodes.
    pub fn new() -> (g: NodeGraph)
        ensures
            g@ == Seq::<NodeView>::empty(),
    {
        let g = NodeGraph { nodes: Vec::new() };
        assert(g@ =~= Seq::<NodeView>::empty());
        g
    }

    /// The number of nodes.
    pub fn len(&self) -> (n: usize)
        ensures
            n == self@.len(),
    {
        self.nodes.len()
    }

    /// The place of the node of index `idx`, if the graph holds one.
    pub fn position(&self, idx: usize) -> (r: Option<usize>)
        ensures
            r is Some <==> has_node(self@, idx),
            r matches Some(q) ==> q < self@.len() && self@[q as int].idx == idx,
            r matches Some(q) ==> ascending(self@) ==> q == node_position(self@, idx),
    {
        let mut q: usize = 0;
        while q < self.nodes.len()
            invariant
                q <= self.nodes.len(),
                forall|p: int| 0 <= p < q ==> (#[trigger] self@[p]).idx != idx,
            decreases self.nodes.len() - q,
        {
            if self.nodes[q].idx == idx {
                assert(self@[q as int].idx == idx);
                proof {
                    if ascending(self@) {
                        lemma_position_unique(self@, idx, q as int);
                    }
                }
                return Some(q);
            }
            q += 1;
        }
        None
    }

    /// The node of index `idx`, if the graph holds one.
    pub fn filter(&self, idx: usize) -> (r: Option<&Node>)
        ensures
            r is Some <==> has_node(self@, idx),
            r matches Some(node) ==> node@.idx == idx && self@.contains(node@),
            r matches Some(node) ==> ascending(self@) ==> node@ == node_of(self@, idx),
    {
        match self.position(idx) {
            Some(q) => {
                assert(self@[q as int] == self.nodes@[q as int]@);
                Some(&self.nodes[q])
            },
            None => None,
        }
    }

    /// The node of index `idx`, which the graph holds.
    pub fn get(&self, idx: usize) -> (node: &Node)
        requires
            has_node(self@, idx),
        ensures
            node@.idx == idx,
            self@.contains(node@),
            ascending(self@) ==> node@ == node_of(self@, idx),
    {
        let q = self.position(idx).unwrap();
        assert(self@[q as int] == self.nodes@[q as int]@);
        &self.nodes[q]
    }

    /// The nodes in ascending order of index, copied.
    pub fn flatten(&self) -> (out: Vec<Node>)
        ensures
            view_all(out@) == self@,
    {
        let mut out: Vec<Node> = Vec::new();
        let mut k: usize = 0;
        while k < self.nodes.len()
            invariant
                k <= self.nodes.len(),
                out.len() == k,
                forall|j: int| 0 <= j < k ==> out@[j]@ == self.nodes@[j]@,
            decreases self.nodes.len() - k,
        {
            out.push(self.nodes[k].duplicate());
            k += 1;
        }
        assert(view_all(out@) =~= self@);
        out
    }

    /// Adds a node behind the others.
    pub(crate) fn insert(&mut self, node: Node)
        ensures
            final(self)@ == old(self)@.push(node@),
    {
        self.nodes.push(node);
        assert(self@ =~= old(self)@.push(node@));
    }
}

} // verus!
