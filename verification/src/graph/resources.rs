//! The column budget of the whole circuit.
//!
//! Buckets are laid out one after the other in the same columns, so each count is that of
//! the bucket that needs most, not a sum over buckets.

use crate::graph::fusion::{advice_needed, fixed_needed, takes_advice, takes_fixed};
use crate::graph::model::{edge_count, Model};
use crate::graph::node::{ascending, lemma_position_unique, NodeView};
use crate::graph::operands::{
    constant_in, external_operands, fused_inputs, group_operands, group_params, group_vars,
    is_member, lemma_first_occurrences_distinct, lemma_first_occurrences_filter, lemma_poly_group,
    names_member, outside, poly_group, unique, variable_in,
};
use crate::graph::configure::spec_configure;
use crate::graph::model::spec_num_instances;
use crate::graph::schedule::{graph_wf, lemma_bucket_rules, lemma_schedule_again, placed, schedule};
use crate::graph::GraphErrorView;
use crate::graph::vars::{ModelVars, Visibility};
use vstd::prelude::*;

verus! {

/// The external inputs of the fused group of bucket `b` that are constants, if `constants`
/// is set, or those that are not, if it is not.
pub open spec fn counted_inputs(g: Seq<NodeView>, b: usize, constants: bool) -> Seq<usize> {
    if constants {
        group_params(g, poly_group(g, b))
    } else {
        group_vars(g, poly_group(g, b))
    }
}

/// The largest number of counted inputs over the first `buckets` buckets.
pub open spec fn max_counted(g: Seq<NodeView>, buckets: nat, constants: bool) -> nat
    decreases buckets,
{
    if buckets == 0 {
        0
    } else {
        let rest = max_counted(g, (buckets - 1) as nat, constants);
        let here = counted_inputs(g, (buckets - 1) as usize, constants).len();
        if here > rest {
            here
        } else {
            rest
        }
    }
}

/// The largest number of operands of a node that is no polynomial operation.
pub open spec fn max_plain_inputs(g: Seq<NodeView>) -> nat
    decreases g.len(),
{
    if g.len() == 0 {
        0
    } else {
        let rest = max_plain_inputs(g.drop_last());
        if !(g.last().opkind is Poly) && g.last().inputs.len() > rest {
            g.last().inputs.len()
        } else {
            rest
        }
    }
}

/// The largest number of constants that one fused group takes from outside.
pub open spec fn spec_max_node_params(g: Seq<NodeView>) -> nat {
    max_counted(g, g.len(), true)
}

/// The largest number of values other than constants that one fused group takes from
/// outside, and one more for its output.
pub open spec fn spec_max_node_vars_fused(g: Seq<NodeView>) -> nat {
    max_counted(g, g.len(), false) + 1
}

/// The largest number of operands of a node outside the fused groups, and one more for its
/// output.
pub open spec fn spec_max_node_vars_non_fused(g: Seq<NodeView>) -> nat {
    max_plain_inputs(g) + 1
}

/// The number of advice columns of the circuit.
pub open spec fn spec_num_advice(g: Seq<NodeView>, params: Visibility) -> nat {
    let plain = spec_max_node_vars_non_fused(g);
    let fused = if params == Visibility::Public {
        spec_max_node_vars_fused(g)
    } else {
        spec_max_node_params(g) + spec_max_node_vars_fused(g)
    };
    if plain >= fused {
        plain
    } else {
        fused
    }
}

/// The number of fixed columns of the circuit.
pub open spec fn spec_num_fixed(g: Seq<NodeView>, params: Visibility) -> nat {
    if params == Visibility::Public {
        spec_max_node_params(g)
    } else {
        0
    }
}

/// The operands of the polynomial operations of a bucket are operands of the graph.
pub proof fn lemma_group_operands_bound(g: Seq<NodeView>, b: usize, upto: int)
    requires
        ascending(g),
        0 <= upto <= g.len(),
    ensures
        group_operands(g, poly_group(g.take(upto), b)).len() <= edge_count(g.take(upto)),
        edge_count(g.take(upto)) <= edge_count(g),
{
    lemma_edge_count_prefix(g, upto);
    lemma_group_operands_prefix(g, b, upto);
}

/// The operands of a prefix of the graph are among the operands of the graph.
pub proof fn lemma_edge_count_prefix(g: Seq<NodeView>, upto: int)
    requires
        0 <= upto <= g.len(),
    ensures
        edge_count(g.take(upto)) <= edge_count(g),
    decreases g.len() - upto,
{
    if upto < g.len() {
        assert(g.take(upto + 1).drop_last() == g.take(upto));
        lemma_edge_count_prefix(g, upto + 1);
    } else {
        assert(g.take(upto) == g);
    }
}

proof fn lemma_group_operands_prefix(g: Seq<NodeView>, b: usize, upto: int)
    requires
        ascending(g),
        0 <= upto <= g.len(),
    ensures
        group_operands(g, poly_group(g.take(upto), b)).len() <= edge_count(g.take(upto)),
    decreases upto,
{
    if upto > 0 {
        lemma_group_operands_prefix(g, b, upto - 1);
        assert(g.take(upto).drop_last() == g.take(upto - 1));
        let n = g[upto - 1];
        assert(g.take(upto).last() == n);
        if is_member(n, b) {
            let group = poly_group(g.take(upto), b);
            assert(group.drop_last() == poly_group(g.take(upto - 1), b));
            lemma_position_unique(g, n.idx, upto - 1);
        }
    }
}

/// No group counts more inputs than the graph has operands.
pub proof fn lemma_counted_bound(g: Seq<NodeView>, b: usize, constants: bool)
    requires
        ascending(g),
    ensures
        counted_inputs(g, b, constants).len() <= edge_count(g),
{
    let group = poly_group(g, b);
    let ext = external_operands(g, group);
    assert(g.take(g.len() as int) == g);
    lemma_group_operands_bound(g, b, g.len() as int);
    group_operands(g, group).lemma_filter_len(outside(group));
    if constants {
        ext.lemma_filter_len(constant_in(g));
        lemma_first_occurrences_distinct(ext.filter(constant_in(g)));
    } else {
        ext.lemma_filter_len(variable_in(g));
        lemma_first_occurrences_distinct(ext.filter(variable_in(g)));
    }
}

/// The largest count is the count of no bucket less, and no more than the operands of the
/// graph.
pub proof fn lemma_max_counted(g: Seq<NodeView>, buckets: nat, constants: bool)
    requires
        ascending(g),
    ensures
        max_counted(g, buckets, constants) <= edge_count(g),
        forall|b: usize|
            b < buckets ==> (#[trigger] counted_inputs(g, b, constants)).len() <= max_counted(
                g,
                buckets,
                constants,
            ),
    decreases buckets,
{
    if buckets > 0 {
        lemma_max_counted(g, (buckets - 1) as nat, constants);
        lemma_counted_bound(g, (buckets - 1) as usize, constants);
    }
}

/// No node has more operands than the graph.
pub proof fn lemma_max_plain_inputs(g: Seq<NodeView>)
    ensures
        max_plain_inputs(g) <= edge_count(g),
        forall|p: int|
            0 <= p < g.len() && !((#[trigger] g[p]).opkind is Poly) ==> g[p].inputs.len()
                <= max_plain_inputs(g),
    decreases g.len(),
{
    if g.len() > 0 {
        let front = g.drop_last();
        lemma_max_plain_inputs(front);
        assert forall|p: int| 0 <= p < g.len() && !((#[trigger] g[p]).opkind is Poly) implies g[p].inputs.len()
            <= max_plain_inputs(g) by {
            if p < front.len() {
                assert(front[p] == g[p]);
            }
        }
    }
}

/// A list splits into the items that meet a predicate and those that meet its opposite.
pub proof fn lemma_filter_split(
    s: Seq<usize>,
    yes: spec_fn(usize) -> bool,
    no: spec_fn(usize) -> bool,
)
    requires
        forall|x: usize| #[trigger] yes(x) != no(x),
    ensures
        s.filter(yes).len() + s.filter(no).len() == s.len(),
    decreases s.len(),
{
    reveal(Seq::filter);
    if s.len() > 0 {
        lemma_filter_split(s.drop_last(), yes, no);
    }
}

/// A predicate that no item meets leaves nothing of a list.
pub proof fn lemma_filter_none(s: Seq<usize>, pred: spec_fn(usize) -> bool)
    requires
        forall|x: usize| !#[trigger] pred(x),
    ensures
        s.filter(pred).len() == 0,
    decreases s.len(),
{
    reveal(Seq::filter);
    if s.len() > 0 {
        lemma_filter_none(s.drop_last(), pred);
    }
}

/// A bucket whose number is not smaller than the number of nodes holds no node.
pub proof fn lemma_far_bucket_empty(g: Seq<NodeView>, b: usize)
    requires
        graph_wf(g),
        b >= g.len(),
    ensures
        poly_group(g, b).len() == 0,
{
    lemma_poly_group(g, b);
    if poly_group(g, b).len() > 0 {
        assert(names_member(g, b, poly_group(g, b)[0]));
        let p = choose|p: int|
            0 <= p < g.len() && is_member(#[trigger] g[p], b) && g[p].idx == poly_group(g, b)[0];
        assert(placed(g, p));
    }
}

/// The columns counted for the whole circuit are enough for the fused group of every
/// bucket: no group binds more advice columns than `spec_num_advice` or more fixed columns
/// than `spec_num_fixed`.
pub proof fn lemma_columns_cover_bucket(g: Seq<NodeView>, params: Visibility, b: usize)
    requires
        graph_wf(g),
    ensures
        advice_needed(g, poly_group(g, b), params == Visibility::Public) <= spec_num_advice(
            g,
            params,
        ),
        fixed_needed(g, poly_group(g, b), params == Visibility::Public) <= spec_num_fixed(g, params),
{
    let public = params == Visibility::Public;
    let group = poly_group(g, b);
    let outer = external_operands(g, group);
    let ext = fused_inputs(g, group);
    lemma_first_occurrences_filter(outer, constant_in(g));
    lemma_first_occurrences_filter(outer, variable_in(g));
    lemma_filter_split(ext, constant_in(g), variable_in(g));
    assert(ext.filter(constant_in(g)).len() == counted_inputs(g, b, true).len());
    assert(ext.filter(variable_in(g)).len() == counted_inputs(g, b, false).len());
    if b < g.len() {
        lemma_max_counted(g, g.len(), true);
        lemma_max_counted(g, g.len(), false);
    } else {
        lemma_far_bucket_empty(g, b);
        assert(group_operands(g, group).len() == 0);
        group_operands(g, group).lemma_filter_len(outside(group));
        lemma_first_occurrences_distinct(outer);
        ext.lemma_filter_len(constant_in(g));
        ext.lemma_filter_len(variable_in(g));
    }
    if public {
        assert(takes_fixed(g, public) =~= constant_in(g));
        assert(takes_advice(g, public) =~= variable_in(g));
    } else {
        lemma_filter_split(ext, takes_advice(g, public), takes_fixed(g, public));
        lemma_filter_none(ext, takes_fixed(g, public));
    }
}

/// The columns counted for the whole circuit are enough for every lookup: a graph with a
/// lookup has two advice columns at least.
pub proof fn lemma_columns_cover_lookup(g: Seq<NodeView>, params: Visibility, p: int)
    requires
        graph_wf(g),
        0 <= p < g.len(),
        g[p].opkind is Lookup,
    ensures
        2 <= spec_num_advice(g, params),
{
    lemma_bucket_rules(g, p);
    lemma_max_plain_inputs(g);
    assert(g[p].inputs.len() > 0);
}

impl Model {
    /// Two models of the same graph under the same policy are compiled alike: a scheduled
    /// graph is its own schedule, and the configurations, the tables and the column counts
    /// are those of the graph, the width of the tables and the visibility.
    pub proof fn lemma_recompiled_alike(&self, other: &Model)
        requires
            self.wf(),
            self.nodes@ == other.nodes@,
            self.inputs@ == other.inputs@,
            self.outputs@ == other.outputs@,
            self.bits == other.bits,
            self.visibility == other.visibility,
        ensures
            schedule(self.nodes@) == Ok::<Seq<NodeView>, GraphErrorView>(other.nodes@),
            spec_configure(self.nodes@, self.bits, self.visibility.params == Visibility::Public)
                == spec_configure(
                other.nodes@,
                other.bits,
                other.visibility.params == Visibility::Public,
            ),
            spec_num_advice(self.nodes@, self.visibility.params) == spec_num_advice(
                other.nodes@,
                other.visibility.params,
            ),
            spec_num_fixed(self.nodes@, self.visibility.params) == spec_num_fixed(
                other.nodes@,
                other.visibility.params,
            ),
            spec_num_instances(self.inputs@.len(), self.outputs@.len(), self.visibility)
                == spec_num_instances(other.inputs@.len(), other.outputs@.len(), other.visibility),
    {
        lemma_schedule_again(self.nodes@, self.nodes@.len() as int);
        assert(self.nodes@.take(self.nodes@.len() as int) == self.nodes@);
    }

    /// Columns in the numbers that `num_advice` and `num_fixed` give are enough to configure
    /// the model, if two advice columns are there for the range checks of public outputs.
    pub proof fn lemma_allocation_suffices(&self, vars: &ModelVars)
        requires
            self.wf(),
            vars.num_advice >= spec_num_advice(self.nodes@, self.visibility.params),
            vars.num_fixed >= spec_num_fixed(self.nodes@, self.visibility.params),
            self.visibility.output == Visibility::Public && self.outputs@.len() > 0
                ==> vars.num_advice >= 2,
        ensures
            self.columns_suffice(vars),
    {
        let g = self.nodes@;
        let public = self.visibility.params == Visibility::Public;
        assert forall|b: usize| (#[trigger] poly_group(g, b)).len() > 0 implies advice_needed(
            g,
            poly_group(g, b),
            public,
        ) <= vars.num_advice && fixed_needed(g, poly_group(g, b), public) <= vars.num_fixed by {
            lemma_columns_cover_bucket(g, self.visibility.params, b);
        }
        if exists|p: int| 0 <= p < g.len() && (#[trigger] g[p]).opkind is Lookup {
            let p = choose|p: int| 0 <= p < g.len() && (#[trigger] g[p]).opkind is Lookup;
            lemma_columns_cover_lookup(g, self.visibility.params, p);
        }
    }

    /// The largest number of external inputs of one kind that a fused group has, over the
    /// buckets: of constants if `constants` is set, of the others if it is not.
    fn max_fused_inputs(&self, constants: bool) -> (n: usize)
        requires
            ascending(self.nodes@),
        ensures
            n == max_counted(self.nodes@, self.nodes@.len(), constants),
    {
        let mut maximum: usize = 0;
        let mut bucket: usize = 0;
        let buckets = self.nodes.len();
        while bucket < buckets
            invariant
                bucket <= buckets,
                buckets == self.nodes@.len(),
                ascending(self.nodes@),
                maximum == max_counted(self.nodes@, bucket as nat, constants),
            decreases buckets - bucket,
        {
            let fused_ops = self.nodes.poly_ops(bucket);
            proof {
                lemma_poly_group(self.nodes@, bucket);
            }
            let outer = self.nodes.external_operands(&fused_ops);
            let counted = unique(self.nodes.select(&outer, constants));
            if counted.len() > maximum {
                maximum = counted.len();
            }
            bucket += 1;
        }
        maximum
    }

    /// Max number of parameters, that is of constants taken from outside, over the fused
    /// groups of the graph.
    pub fn max_node_params(&self) -> (n: usize)
        requires
            self.wf(),
        ensures
            n == spec_max_node_params(self.nodes@),
    {
        self.max_fused_inputs(true)
    }

    /// Maximum number of input variables in fused layers, and one for the output.
    pub fn max_node_vars_fused(&self) -> (n: usize)
        requires
            self.wf(),
        ensures
            n == spec_max_node_vars_fused(self.nodes@),
    {
        proof {
            lemma_max_counted(self.nodes@, self.nodes@.len(), false);
        }
        self.max_fused_inputs(false) + 1
    }

    /// Maximum number of input variables in non-fused layers, and one for the output.
    pub fn max_node_vars_non_fused(&self) -> (n: usize)
        requires
            self.wf(),
        ensures
            n == spec_max_node_vars_non_fused(self.nodes@),
    {
        let mut maximum: usize = 0;
        let mut p: usize = 0;
        assert(self.nodes@.take(0) == Seq::<NodeView>::empty());
        while p < self.nodes.nodes.len()
            invariant
                p <= self.nodes.nodes.len(),
                maximum == max_plain_inputs(self.nodes@.take(p as int)),
            decreases self.nodes.nodes.len() - p,
        {
            let node = &self.nodes.nodes[p];
            assert(self.nodes@.take(p + 1).drop_last() == self.nodes@.take(p as int));
            assert(self.nodes@.take(p + 1).last() == node@);
            if !node.opkind.is_poly() && node.inputs.len() > maximum {
                maximum = node.inputs.len();
            }
            p += 1;
        }
        assert(self.nodes@.take(self.nodes@.len() as int) == self.nodes@);
        proof {
            lemma_max_plain_inputs(self.nodes@);
        }
        maximum + 1
    }

    /// Number of advice columns used by the circuit.
    pub fn num_advice(&self) -> (n: usize)
        requires
            self.wf(),
        ensures
            n == spec_num_advice(self.nodes@, self.visibility.params),
    {
        proof {
            lemma_max_counted(self.nodes@, self.nodes@.len(), false);
            lemma_max_counted(self.nodes@, self.nodes@.len(), true);
        }
        let plain = self.max_node_vars_non_fused();
        let fused = if self.visibility.params.is_public() {
            self.max_node_vars_fused()
        } else {
            self.max_node_params() + self.max_node_vars_fused()
        };
        if plain >= fused {
            plain
        } else {
            fused
        }
    }

    /// Number of fixed columns used by the circuit.
    pub fn num_fixed(&self) -> (n: usize)
        requires
            self.wf(),
        ensures
            n == spec_num_fixed(self.nodes@, self.visibility.params),
    {
        if self.visibility.params.is_public() {
            self.max_node_params()
        } else {
            0
        }
    }
}

} // verus!
