//! The operands of a group of fused operations: which come from outside the group, which of
//! those are constants, and each of them once only.

use crate::graph::node::{ascending, has_node, node_of, NodeGraph, NodeView};
use itertools::Itertools;
use vstd::prelude::*;

verus! {

/// The items of `s` without repeats: each stands where it occurs first.
pub open spec fn first_occurrences(s: Seq<usize>) -> Seq<usize>
    decreases s.len(),
{
    if s.len() == 0 {
        Seq::empty()
    } else {
        let rest = first_occurrences(s.drop_last());
        if rest.contains(s.last()) {
            rest
        } else {
            rest.push(s.last())
        }
    }
}

/// Calls `Itertools::unique` on the items of `ids` and collects what it lets through.
///
/// The contract restates the adaptor's documentation: it is stable, hands on the items in
/// the order in which they occur, and of equal items keeps the one it meets first.
#[verifier::external_body]
pub(crate) fn unique(ids: Vec<usize>) -> (out: Vec<usize>)
    ensures
        out@ == first_occurrences(ids@),
{
    ids.into_iter().unique().collect()
}

/// `first_occurrences` keeps exactly the items that occur.
pub proof fn lemma_first_occurrences_contains(s: Seq<usize>, x: usize)
    ensures
        first_occurrences(s).contains(x) <==> s.contains(x),
    decreases s.len(),
{
    if s.len() > 0 {
        let front = s.drop_last();
        let rest = first_occurrences(front);
        lemma_first_occurrences_contains(front, x);
        lemma_first_occurrences_contains(front, s.last());
        if s.contains(x) {
            let i = choose|i: int| 0 <= i < s.len() && s[i] == x;
            if i < front.len() {
                assert(front[i] == x);
                assert(rest.contains(x));
                if !rest.contains(s.last()) {
                    let j = choose|j: int| 0 <= j < rest.len() && rest[j] == x;
                    assert(rest.push(s.last())[j] == x);
                }
            } else {
                if !rest.contains(s.last()) {
                    assert(rest.push(s.last())[rest.len() as int] == x);
                }
            }
        }
        if first_occurrences(s).contains(x) {
            let fo = first_occurrences(s);
            let j = choose|j: int| 0 <= j < fo.len() && fo[j] == x;
            if j < rest.len() {
                assert(rest[j] == x);
                assert(front.contains(x));
                let i = choose|i: int| 0 <= i < front.len() && front[i] == x;
                assert(s[i] == x);
            } else {
                assert(s[s.len() - 1] == x);
            }
        }
    }
}

/// `first_occurrences` holds no item twice and is no longer than its argument.
pub proof fn lemma_first_occurrences_distinct(s: Seq<usize>)
    ensures
        first_occurrences(s).no_duplicates(),
        first_occurrences(s).len() <= s.len(),
    decreases s.len(),
{
    if s.len() > 0 {
        lemma_first_occurrences_distinct(s.drop_last());
    }
}

/// Leaving items out before or after the repeats are dropped gives the same list.
pub proof fn lemma_first_occurrences_filter(s: Seq<usize>, pred: spec_fn(usize) -> bool)
    ensures
        first_occurrences(s).filter(pred) == first_occurrences(s.filter(pred)),
    decreases s.len(),
{
    reveal(Seq::filter);
    if s.len() > 0 {
        let front = s.drop_last();
        let x = s.last();
        let rest = first_occurrences(front);
        lemma_first_occurrences_filter(front, pred);
        lemma_first_occurrences_contains(front, x);
        lemma_first_occurrences_contains(front.filter(pred), x);
        rest.lemma_filter_push(x, pred);
        if pred(x) {
            assert(s.filter(pred) == front.filter(pred).push(x));
            assert(s.filter(pred).drop_last() == front.filter(pred));
            if front.contains(x) {
                let i = choose|i: int| 0 <= i < front.len() && front[i] == x;
                front.lemma_filter_contains(pred, i);
            }
            if front.filter(pred).contains(x) {
                front.lemma_filter_contains_rev(pred, x);
            }
        } else {
            assert(s.filter(pred) == front.filter(pred));
        }
    } else {
        assert(s.filter(pred) == s);
        assert(first_occurrences(s).filter(pred) == first_occurrences(s));
    }
}

/// The predicate of the indices that are in `group`.
pub open spec fn inside(group: Seq<usize>) -> spec_fn(usize) -> bool {
    |id: usize| group.contains(id)
}

/// The predicate of the indices that are not in `group`.
pub open spec fn outside(group: Seq<usize>) -> spec_fn(usize) -> bool {
    |id: usize| !group.contains(id)
}

/// Whether `id` names a constant of `g`.
pub open spec fn is_constant_of(g: Seq<NodeView>, id: usize) -> bool {
    has_node(g, id) && node_of(g, id).opkind is Const
}

/// The predicate of the indices that name a constant of `g`.
pub open spec fn constant_in(g: Seq<NodeView>) -> spec_fn(usize) -> bool {
    |id: usize| is_constant_of(g, id)
}

/// The predicate of the indices that name no constant of `g`.
pub open spec fn variable_in(g: Seq<NodeView>) -> spec_fn(usize) -> bool {
    |id: usize| !is_constant_of(g, id)
}

/// Whether a node is a polynomial operation of bucket `b`.
pub open spec fn is_member(n: NodeView, b: usize) -> bool {
    n.bucket == Some(b) && n.opkind is Poly
}

/// The indices of the polynomial operations of bucket `b`, in ascending order.
pub open spec fn poly_group(g: Seq<NodeView>, b: usize) -> Seq<usize>
    decreases g.len(),
{
    if g.len() == 0 {
        Seq::empty()
    } else {
        let rest = poly_group(g.drop_last(), b);
        if is_member(g.last(), b) {
            rest.push(g.last().idx)
        } else {
            rest
        }
    }
}

/// The operands of the nodes named by `group`, node after node and in operand order.
pub open spec fn group_operands(g: Seq<NodeView>, group: Seq<usize>) -> Seq<usize>
    decreases group.len(),
{
    if group.len() == 0 {
        Seq::empty()
    } else {
        group_operands(g, group.drop_last()) + node_of(g, group.last()).inputs
    }
}

/// The operands of the group that no node of the group produces, repeats included.
pub open spec fn external_operands(g: Seq<NodeView>, group: Seq<usize>) -> Seq<usize> {
    group_operands(g, group).filter(outside(group))
}

/// The external inputs of a fused group: its operands from outside, each once, in the order
/// in which they are met first.
pub open spec fn fused_inputs(g: Seq<NodeView>, group: Seq<usize>) -> Seq<usize> {
    first_occurrences(external_operands(g, group))
}

/// The constants among the external inputs of a group.
pub open spec fn group_params(g: Seq<NodeView>, group: Seq<usize>) -> Seq<usize> {
    first_occurrences(external_operands(g, group).filter(constant_in(g)))
}

/// The external inputs of a group that are not constants.
pub open spec fn group_vars(g: Seq<NodeView>, group: Seq<usize>) -> Seq<usize> {
    first_occurrences(external_operands(g, group).filter(variable_in(g)))
}

/// Whether `id` names a polynomial operation of bucket `b`.
pub open spec fn names_member(g: Seq<NodeView>, b: usize, id: usize) -> bool {
    exists|p: int| 0 <= p < g.len() && is_member(#[trigger] g[p], b) && g[p].idx == id
}

/// Every index of `poly_group` names a polynomial operation of the bucket, and every such
/// operation is named.
pub proof fn lemma_poly_group(g: Seq<NodeView>, b: usize)
    ensures
        forall|k: int|
            0 <= k < poly_group(g, b).len() ==> has_node(g, #[trigger] poly_group(g, b)[k]),
        forall|p: int|
            0 <= p < g.len() && is_member(#[trigger] g[p], b) ==> poly_group(g, b).contains(
                g[p].idx,
            ),
        forall|k: int|
            0 <= k < poly_group(g, b).len() ==> names_member(g, b, #[trigger] poly_group(g, b)[k]),
        poly_group(g, b).len() <= g.len(),
    decreases g.len(),
{
    if g.len() > 0 {
        let front = g.drop_last();
        let rest = poly_group(front, b);
        let all = poly_group(g, b);
        lemma_poly_group(front, b);
        assert forall|k: int| 0 <= k < all.len() implies names_member(g, b, #[trigger] all[k]) by {
            if k < rest.len() {
                assert(names_member(front, b, rest[k]));
                let p = choose|p: int|
                    0 <= p < front.len() && is_member(#[trigger] front[p], b) && front[p].idx
                        == rest[k];
                assert(g[p] == front[p]);
            } else {
                assert(g[g.len() - 1] == g.last());
            }
        }
        assert forall|k: int| 0 <= k < all.len() implies has_node(g, #[trigger] all[k]) by {
            assert(names_member(g, b, all[k]));
            let p = choose|p: int|
                0 <= p < g.len() && is_member(#[trigger] g[p], b) && g[p].idx == all[k];
            assert(g[p].idx == all[k]);
        }
        assert forall|p: int| 0 <= p < g.len() && is_member(#[trigger] g[p], b) implies all.contains(
            g[p].idx,
        ) by {
            if p < front.len() {
                assert(front[p] == g[p]);
                let k = choose|k: int| 0 <= k < rest.len() && rest[k] == g[p].idx;
                assert(all[k] == g[p].idx);
            } else {
                assert(all[all.len() - 1] == g[p].idx);
            }
        }
    }
}

/// Whether `ids` holds `id`.
pub fn holds(ids: &Vec<usize>, id: usize) -> (r: bool)
    ensures
        r == ids@.contains(id),
{
    let mut k: usize = 0;
    while k < ids.len()
        invariant
            k <= ids.len(),
            forall|j: int| 0 <= j < k ==> ids@[j] != id,
        decreases ids.len() - k,
    {
        if ids[k] == id {
            return true;
        }
        k += 1;
    }
    false
}

/// The place of `id` in `ids`, if it is there.
pub fn place_of(ids: &Vec<usize>, id: usize) -> (r: Option<usize>)
    ensures
        r is Some <==> ids@.contains(id),
        r matches Some(k) ==> k < ids.len() && ids@[k as int] == id,
        r matches Some(k) ==> ids@.no_duplicates() ==> k == ids@.index_of(id),
{
    let mut k: usize = 0;
    while k < ids.len()
        invariant
            k <= ids.len(),
            forall|j: int| 0 <= j < k ==> ids@[j] != id,
        decreases ids.len() - k,
    {
        if ids[k] == id {
            proof {
                if ids@.no_duplicates() {
                    let w = ids@.index_of(id);
                    assert(0 <= w < ids@.len() && ids@[w] == id);
                }
            }
            return Some(k);
        }
        k += 1;
    }
    None
}

/// The items of `ids` that `group` does not hold, in their order.
pub fn outside_of(ids: &Vec<usize>, group: &Vec<usize>) -> (out: Vec<usize>)
    ensures
        out@ == ids@.filter(outside(group@)),
{
    let ghost keep = outside(group@);
    let mut out: Vec<usize> = Vec::new();
    let mut k: usize = 0;
    assert(ids@.take(0).filter(keep) == Seq::<usize>::empty()) by {
        reveal(Seq::filter);
    }
    while k < ids.len()
        invariant
            k <= ids.len(),
            keep == outside(group@),
            out@ == ids@.take(k as int).filter(keep),
        decreases ids.len() - k,
    {
        let id = ids[k];
        proof {
            assert(ids@.take(k + 1) == ids@.take(k as int).push(id));
            ids@.take(k as int).lemma_filter_push(id, keep);
        }
        if !holds(group, id) {
            out.push(id);
        }
        k += 1;
    }
    assert(ids@.take(ids.len() as int) == ids@);
    out
}

impl NodeGraph {
    /// The indices of the polynomial operations of a bucket, in ascending order.
    pub fn poly_ops(&self, bucket: usize) -> (group: Vec<usize>)
        ensures
            group@ == poly_group(self@, bucket),
    {
        let mut group: Vec<usize> = Vec::new();
        let mut p: usize = 0;
        assert(self@.take(0) == Seq::<NodeView>::empty());
        while p < self.nodes.len()
            invariant
                p <= self.nodes.len(),
                group@ == poly_group(self@.take(p as int), bucket),
            decreases self.nodes.len() - p,
        {
            let node = &self.nodes[p];
            assert(self@.take(p + 1).drop_last() == self@.take(p as int));
            assert(self@.take(p + 1).last() == node@);
            let here = match node.bucket {
                Some(b) => b == bucket,
                None => false,
            };
            if here && node.opkind.is_poly() {
                group.push(node.idx);
            }
            p += 1;
        }
        assert(self@.take(self.nodes.len() as int) == self@);
        group
    }

    /// Whether `id` names a constant of the graph.
    pub fn is_constant(&self, id: usize) -> (r: bool)
        requires
            ascending(self@),
        ensures
            r == is_constant_of(self@, id),
    {
        match self.filter(id) {
            Some(node) => node.opkind.is_const(),
            None => false,
        }
    }

    /// The operands of the nodes of `group`, node after node and in operand order.
    pub fn group_operands(&self, group: &Vec<usize>) -> (out: Vec<usize>)
        requires
            ascending(self@),
            forall|k: int| 0 <= k < group.len() ==> has_node(self@, #[trigger] group@[k]),
        ensures
            out@ == group_operands(self@, group@),
    {
        let mut out: Vec<usize> = Vec::new();
        let mut k: usize = 0;
        assert(group@.take(0) == Seq::<usize>::empty());
        while k < group.len()
            invariant
                k <= group.len(),
                ascending(self@),
                forall|k: int| 0 <= k < group.len() ==> has_node(self@, #[trigger] group@[k]),
                out@ == group_operands(self@, group@.take(k as int)),
            decreases group.len() - k,
        {
            let ghost before = out@;
            assert(has_node(self@, group@[k as int]));
            assert(group@.take(k + 1).drop_last() == group@.take(k as int));
            assert(group@.take(k + 1).last() == group@[k as int]);
            let node = self.get(group[k]);
            let mut j: usize = 0;
            assert(before + node@.inputs.take(0) == before);
            while j < node.inputs.len()
                invariant
                    j <= node.inputs.len(),
                    out@ == before + node@.inputs.take(j as int),
                decreases node.inputs.len() - j,
            {
                out.push(node.inputs[j]);
                assert(before + node@.inputs.take(j + 1) == (before + node@.inputs.take(j as int)).push(
                    node@.inputs[j as int],
                ));
                j += 1;
            }
            assert(node@.inputs.take(node.inputs.len() as int) == node@.inputs);
            k += 1;
        }
        assert(group@.take(group.len() as int) == group@);
        out
    }

    /// The operands of the nodes of `group` that no node of the group produces, node after
    /// node and in operand order, repeats included.
    pub fn external_operands(&self, group: &Vec<usize>) -> (out: Vec<usize>)
        requires
            ascending(self@),
            forall|k: int| 0 <= k < group.len() ==> has_node(self@, #[trigger] group@[k]),
        ensures
            out@ == external_operands(self@, group@),
    {
        let operands = self.group_operands(group);
        outside_of(&operands, group)
    }

    /// The items of `ids` that name a constant of the graph, if `constants` is set, or those
    /// that name none, if it is not.
    pub fn select(&self, ids: &Vec<usize>, constants: bool) -> (out: Vec<usize>)
        requires
            ascending(self@),
        ensures
            out@ == ids@.filter(
                if constants {
                    constant_in(self@)
                } else {
                    variable_in(self@)
                },
            ),
    {
        let ghost keep = if constants {
            constant_in(self@)
        } else {
            variable_in(self@)
        };
        let mut out: Vec<usize> = Vec::new();
        let mut k: usize = 0;
        assert(ids@.take(0).filter(keep) == Seq::<usize>::empty()) by {
            reveal(Seq::filter);
        }
        while k < ids.len()
            invariant
                k <= ids.len(),
                ascending(self@),
                keep == if constants {
                    constant_in(self@)
                } else {
                    variable_in(self@)
                },
                out@ == ids@.take(k as int).filter(keep),
            decreases ids.len() - k,
        {
            let id = ids[k];
            proof {
                assert(ids@.take(k + 1) == ids@.take(k as int).push(id));
                ids@.take(k as int).lemma_filter_push(id, keep);
            }
            if self.is_constant(id) == constants {
                out.push(id);
            }
            k += 1;
        }
        assert(ids@.take(ids.len() as int) == ids@);
        out
    }
}

} // verus!
