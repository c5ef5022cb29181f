//! Configuration of a model, one execution bucket at a time.
//!
//! The bucket of the constants comes first, then the numbered buckets in ascending order;
//! within a bucket the nodes are taken in ascending order of index. An input or a constant
//! gets a configuration without columns, a lookup gets a lookup into the table of its
//! operation, and the polynomial operations of a bucket get one fused gate between them,
//! which stands under the largest of their indices.

use crate::circuit::lookup::{
    distinct_keys, handle_for, lemma_tables_with, tables_with, LookupConfig, LookupConfigView,
    LookupOp, LookupTableView, LookupTables,
};
use crate::circuit::range::{RangeCheckConfig, RangeCheckConfigView};
use crate::graph::config::{Entry, EntryView, ModelConfig, NodeConfig, NodeConfigView};
use crate::graph::fusion::{advice_needed, all_poly, fixed_needed, fused_gate, group_ok};
use crate::graph::model::{node_sized, Model};
use crate::graph::node::{
    ascending, copy_shapes, has_node, lemma_position_unique, node_of, node_position, Node,
    NodeView, OpKind, OpKindView,
};
use crate::graph::operands::{is_member, lemma_poly_group, names_member, poly_group};
use crate::graph::schedule::{graph_wf, placed};
use crate::graph::vars::{ModelVars, Visibility};
use crate::graph::{GraphError, GraphErrorView};
use crate::tensor::{dims_product, size_of_dims, view_all, Column, VarTensorView};
use vstd::prelude::*;

verus! {

/// What has been configured so far: the configurations in layout order, and the tables.
pub struct Compiled {
    pub configs: Seq<EntryView>,
    pub tables: Seq<LookupTableView>,
}

impl Compiled {
    /// Nothing configured yet.
    pub open spec fn empty() -> Compiled {
        Compiled { configs: Seq::empty(), tables: Seq::empty() }
    }

    /// The same with one more configuration.
    pub open spec fn with(self, index: usize, config: NodeConfigView) -> Compiled {
        Compiled { configs: self.configs.push(EntryView { index, config }), tables: self.tables }
    }
}

/// A column group read as a tensor of one dimension.
pub open spec fn flat_tensor(column: Column, len: nat) -> VarTensorView {
    VarTensorView { column, dims: seq![len as usize] }
}

/// The configuration of a node that is an input or a constant.
pub open spec fn non_op_config(n: NodeView) -> Result<NodeConfigView, GraphErrorView> {
    match n.opkind {
        OpKindView::Const(_) => Ok(NodeConfigView::Const),
        OpKindView::Input => Ok(NodeConfigView::Input),
        _ => Err(GraphErrorView::WrongMethod(n.idx, n.opkind)),
    }
}

/// The configuration of a lookup node and the tables after it, given the tables before it.
///
/// The lookup reads the first advice group and writes the second, both as long as the
/// node's first operand has cells.
pub open spec fn lookup_step(n: NodeView, tables: Seq<LookupTableView>, bits: usize) -> Result<
    (NodeConfigView, Seq<LookupTableView>),
    GraphErrorView,
> {
    match n.opkind {
        OpKindView::Lookup(op) => if n.inputs.len() != 1 {
            Err(GraphErrorView::InvalidLookupInputs)
        } else {
            let len = dims_product(n.in_dims[0]);
            Ok(
                (
                    NodeConfigView::Lookup(
                        LookupConfigView {
                            table: handle_for(tables, seq![op]),
                            input: flat_tensor(Column::Advice(0), len),
                            output: flat_tensor(Column::Advice(1), len),
                        },
                        n.inputs,
                    ),
                    tables_with(tables, seq![op], bits),
                ),
            )
        },
        _ => Err(GraphErrorView::WrongMethod(n.idx, n.opkind)),
    }
}

/// What the node at place `p` adds when the bucket `key` is configured.
pub open spec fn configure_node(
    g: Seq<NodeView>,
    bits: usize,
    public: bool,
    key: Option<usize>,
    p: int,
    state: Compiled,
) -> Result<Compiled, GraphErrorView> {
    let n = g[p];
    if n.bucket != key {
        Ok(state)
    } else {
        match n.opkind {
            OpKindView::Input => Ok(state.with(n.idx, NodeConfigView::Input)),
            OpKindView::Const(_) => Ok(state.with(n.idx, NodeConfigView::Const)),
            OpKindView::Lookup(_) => match lookup_step(n, state.tables, bits) {
                Err(e) => Err(e),
                Ok((config, tables)) => Ok(
                    Compiled {
                        configs: state.configs.push(EntryView { index: n.idx, config }),
                        tables,
                    },
                ),
            },
            OpKindView::Poly(_) => match key {
                Some(b) => if poly_group(g, b).len() > 0 && poly_group(g, b).last() == n.idx {
                    Ok(state.with(n.idx, fused_gate(g, poly_group(g, b), public)))
                } else {
                    Ok(state)
                },
                None => Ok(state),
            },
            OpKindView::Unknown => Ok(state),
        }
    }
}

/// What the first `upto` nodes add when the bucket `key` is configured.
pub open spec fn configure_bucket(
    g: Seq<NodeView>,
    bits: usize,
    public: bool,
    key: Option<usize>,
    upto: int,
    state: Compiled,
) -> Result<Compiled, GraphErrorView>
    decreases upto,
{
    if upto <= 0 {
        Ok(state)
    } else {
        match configure_bucket(g, bits, public, key, upto - 1, state) {
            Err(e) => Err(e),
            Ok(s) => configure_node(g, bits, public, key, upto - 1, s),
        }
    }
}

/// What the first `count` numbered buckets add.
pub open spec fn configure_numbered(
    g: Seq<NodeView>,
    bits: usize,
    public: bool,
    count: int,
    state: Compiled,
) -> Result<Compiled, GraphErrorView>
    decreases count,
{
    if count <= 0 {
        Ok(state)
    } else {
        match configure_numbered(g, bits, public, count - 1, state) {
            Err(e) => Err(e),
            Ok(s) => configure_bucket(g, bits, public, Some((count - 1) as usize), g.len() as int, s),
        }
    }
}

/// The configurations and tables of a graph: those of the bucket of the constants, then
/// those of the numbered buckets.
pub open spec fn spec_configure(g: Seq<NodeView>, bits: usize, public: bool) -> Result<
    Compiled,
    GraphErrorView,
> {
    match configure_bucket(g, bits, public, None, g.len() as int, Compiled::empty()) {
        Err(e) => Err(e),
        Ok(s) => configure_numbered(g, bits, public, g.len() as int, s),
    }
}

/// The range checks of the outputs `outputs`: each compares the first advice group with the
/// second, in the shape of the output.
pub open spec fn range_checks(g: Seq<NodeView>, outputs: Seq<usize>, tolerance: usize) -> Seq<
    RangeCheckConfigView,
> {
    Seq::new(
        outputs.len(),
        |k: int|
            RangeCheckConfigView {
                input: VarTensorView {
                    column: Column::Advice(0),
                    dims: node_of(g, outputs[k]).out_dims,
                },
                output: VarTensorView {
                    column: Column::Advice(1),
                    dims: node_of(g, outputs[k]).out_dims,
                },
                tolerance,
            },
    )
}

/// Whether a configuration is a lookup into the table of handle `t`.
pub open spec fn uses_table(e: EntryView, t: int) -> bool {
    match e.config {
        NodeConfigView::Lookup(config, _) => config.table == t,
        _ => false,
    }
}

/// Whether a configuration, if it is a lookup, stands under the index of a lookup node and
/// goes into a table whose key is the operation of that node.
pub open spec fn lookup_in_place(g: Seq<NodeView>, tables: Seq<LookupTableView>, e: EntryView) -> bool {
    match e.config {
        NodeConfigView::Lookup(config, _) => has_node(g, e.index) && 0 <= config.table
            < tables.len() && match node_of(g, e.index).opkind {
            OpKindView::Lookup(op) => tables[config.table].ops == seq![op],
            _ => false,
        },
        _ => true,
    }
}

/// Whether some configuration is a lookup into the table of handle `t`.
pub open spec fn table_used(configs: Seq<EntryView>, t: int) -> bool {
    exists|i: int| 0 <= i < configs.len() && uses_table(#[trigger] configs[i], t)
}

/// Whether the lookups share their tables as they should: no two tables have the same key,
/// every lookup goes into the table of its operation, and every table has a lookup.
///
/// So two lookups of the same operation go into the same table, two lookups of different
/// operations go into different tables, and there are as many tables as there are different
/// operations among the lookups.
pub open spec fn tables_shared(g: Seq<NodeView>, s: Compiled) -> bool {
    &&& distinct_keys(s.tables)
    &&& forall|i: int| 0 <= i < s.configs.len() ==> lookup_in_place(g, s.tables, #[trigger] s.configs[i])
    &&& forall|t: int| 0 <= t < s.tables.len() ==> #[trigger] table_used(s.configs, t)
}

/// Whether a configuration stands under the index of a node of its kind.
pub open spec fn entry_in_place(g: Seq<NodeView>, e: EntryView) -> bool {
    has_node(g, e.index) && match e.config {
        NodeConfigView::Input => node_of(g, e.index).opkind is Input,
        NodeConfigView::Const => node_of(g, e.index).opkind is Const,
        NodeConfigView::Lookup(_, inputs) => node_of(g, e.index).opkind is Lookup && inputs
            == node_of(g, e.index).inputs,
        NodeConfigView::Poly(_, _) => node_of(g, e.index).opkind is Poly,
        NodeConfigView::NotConfigured => false,
    }
}

/// Whether every configuration stands under the index of a node of its kind. So a
/// constant is configured as a constant and binds no column.
pub open spec fn kinds_agree(g: Seq<NodeView>, configs: Seq<EntryView>) -> bool {
    forall|i: int| 0 <= i < configs.len() ==> entry_in_place(g, #[trigger] configs[i])
}

/// Whether every lookup of the graph has exactly one input.
pub open spec fn single_input_lookups(g: Seq<NodeView>) -> bool {
    forall|p: int| 0 <= p < g.len() && (#[trigger] g[p]).opkind is Lookup ==> g[p].inputs.len() == 1
}

/// The keys of the tables, in the order of their handles.
pub open spec fn table_keys(tables: Seq<LookupTableView>) -> Seq<Seq<LookupOp>> {
    Seq::new(tables.len(), |t: int| tables[t].ops)
}

/// Whether some lookup of the graph has the key `key`.
pub open spec fn is_lookup_key(g: Seq<NodeView>, key: Seq<LookupOp>) -> bool {
    exists|p: int|
        0 <= p < g.len() && (#[trigger] g[p]).opkind is Lookup && key == seq![
            g[p].opkind->Lookup_0,
        ]
}

/// The keys of the lookups of the graph, each once.
pub open spec fn lookup_keys(g: Seq<NodeView>) -> Set<Seq<LookupOp>> {
    Set::new(|key: Seq<LookupOp>| is_lookup_key(g, key))
}

/// Whether a lookup is configured under the index `idx`.
pub open spec fn has_lookup(configs: Seq<EntryView>, idx: usize) -> bool {
    exists|i: int|
        0 <= i < configs.len() && (#[trigger] configs[i]).index == idx && configs[i].config is Lookup
}

/// Configuring a node keeps what was configured, and keeps the tables shared.
pub proof fn lemma_node_keeps_tables(
    g: Seq<NodeView>,
    bits: usize,
    public: bool,
    key: Option<usize>,
    p: int,
    s: Compiled,
)
    requires
        ascending(g),
        0 <= p < g.len(),
        tables_shared(g, s),
        kinds_agree(g, s.configs),
        configure_node(g, bits, public, key, p, s) is Ok,
    ensures
        tables_shared(g, configure_node(g, bits, public, key, p, s)->Ok_0),
        kinds_agree(g, configure_node(g, bits, public, key, p, s)->Ok_0.configs),
        s.configs.len() <= configure_node(g, bits, public, key, p, s)->Ok_0.configs.len(),
        forall|i: int|
            0 <= i < s.configs.len() ==> #[trigger] configure_node(
                g,
                bits,
                public,
                key,
                p,
                s,
            )->Ok_0.configs[i] == s.configs[i],
        g[p].bucket == key && g[p].opkind is Lookup ==> has_lookup(
            configure_node(g, bits, public, key, p, s)->Ok_0.configs,
            g[p].idx,
        ),
{
    let n = g[p];
    let s2 = configure_node(g, bits, public, key, p, s)->Ok_0;
    if n.bucket == key {
        lemma_position_unique(g, n.idx, p);
        if let OpKindView::Lookup(op) = n.opkind {
            lemma_tables_with(s.tables, seq![op], bits);
            assert(s2.configs[s.configs.len() as int].index == n.idx);
            assert(lookup_in_place(g, s2.tables, s2.configs[s.configs.len() as int]));
        }
        assert forall|i: int| 0 <= i < s2.configs.len() implies lookup_in_place(
            g,
            s2.tables,
            #[trigger] s2.configs[i],
        ) by {
            if i < s.configs.len() {
                assert(s2.configs[i] == s.configs[i]);
                assert(lookup_in_place(g, s.tables, s.configs[i]));
            }
        }
        assert forall|i: int| 0 <= i < s2.configs.len() implies entry_in_place(
            g,
            #[trigger] s2.configs[i],
        ) by {
            if i < s.configs.len() {
                assert(s2.configs[i] == s.configs[i]);
                assert(entry_in_place(g, s.configs[i]));
            }
        }
        assert forall|t: int| 0 <= t < s2.tables.len() implies #[trigger] table_used(
            s2.configs,
            t,
        ) by {
            if t < s.tables.len() {
                assert(table_used(s.configs, t));
                let i = choose|i: int| 0 <= i < s.configs.len() && uses_table(#[trigger] s.configs[i], t);
                assert(s2.configs[i] == s.configs[i]);
            } else {
                assert(uses_table(s2.configs[s.configs.len() as int], t));
            }
        }
    }
}

/// Configuring a bucket keeps what was configured, keeps the tables shared, and configures
/// the lookups of the bucket.
pub proof fn lemma_bucket_keeps_tables(
    g: Seq<NodeView>,
    bits: usize,
    public: bool,
    key: Option<usize>,
    upto: int,
    s: Compiled,
)
    requires
        ascending(g),
        0 <= upto <= g.len(),
        tables_shared(g, s),
        kinds_agree(g, s.configs),
        configure_bucket(g, bits, public, key, upto, s) is Ok,
    ensures
        tables_shared(g, configure_bucket(g, bits, public, key, upto, s)->Ok_0),
        kinds_agree(g, configure_bucket(g, bits, public, key, upto, s)->Ok_0.configs),
        s.configs.len() <= configure_bucket(g, bits, public, key, upto, s)->Ok_0.configs.len(),
        forall|i: int|
            0 <= i < s.configs.len() ==> #[trigger] configure_bucket(
                g,
                bits,
                public,
                key,
                upto,
                s,
            )->Ok_0.configs[i] == s.configs[i],
        forall|p: int|
            0 <= p < upto && (#[trigger] g[p]).bucket == key && g[p].opkind is Lookup ==> has_lookup(
                configure_bucket(g, bits, public, key, upto, s)->Ok_0.configs,
                g[p].idx,
            ),
    decreases upto,
{
    if upto > 0 {
        let mid = configure_bucket(g, bits, public, key, upto - 1, s)->Ok_0;
        let end = configure_bucket(g, bits, public, key, upto, s)->Ok_0;
        lemma_bucket_keeps_tables(g, bits, public, key, upto - 1, s);
        lemma_node_keeps_tables(g, bits, public, key, upto - 1, mid);
        assert forall|p: int|
            0 <= p < upto && (#[trigger] g[p]).bucket == key && g[p].opkind is Lookup implies has_lookup(
            end.configs,
            g[p].idx,
        ) by {
            if p < upto - 1 {
                lemma_has_lookup_kept(mid.configs, end.configs, g[p].idx);
            }
        }
    }
}

/// A lookup that is configured stays configured when configurations are added.
pub proof fn lemma_has_lookup_kept(before: Seq<EntryView>, after: Seq<EntryView>, idx: usize)
    requires
        before.len() <= after.len(),
        forall|i: int| 0 <= i < before.len() ==> #[trigger] after[i] == before[i],
        has_lookup(before, idx),
    ensures
        has_lookup(after, idx),
{
    let i = choose|i: int|
        0 <= i < before.len() && (#[trigger] before[i]).index == idx && before[i].config is Lookup;
    assert(after[i] == before[i]);
}

/// Configuring the numbered buckets keeps what was configured, keeps the tables shared,
/// and configures the lookups of those buckets.
pub proof fn lemma_numbered_keeps_tables(
    g: Seq<NodeView>,
    bits: usize,
    public: bool,
    count: int,
    s: Compiled,
)
    requires
        ascending(g),
        0 <= count <= g.len(),
        tables_shared(g, s),
        kinds_agree(g, s.configs),
        configure_numbered(g, bits, public, count, s) is Ok,
    ensures
        tables_shared(g, configure_numbered(g, bits, public, count, s)->Ok_0),
        kinds_agree(g, configure_numbered(g, bits, public, count, s)->Ok_0.configs),
        s.configs.len() <= configure_numbered(g, bits, public, count, s)->Ok_0.configs.len(),
        forall|i: int|
            0 <= i < s.configs.len() ==> #[trigger] configure_numbered(
                g,
                bits,
                public,
                count,
                s,
            )->Ok_0.configs[i] == s.configs[i],
        forall|p: int|
            0 <= p < g.len() && (#[trigger] g[p]).opkind is Lookup && (g[p].bucket matches Some(b)
                && b < count) ==> has_lookup(
                configure_numbered(g, bits, public, count, s)->Ok_0.configs,
                g[p].idx,
            ),
    decreases count,
{
    if count > 0 {
        let mid = configure_numbered(g, bits, public, count - 1, s)->Ok_0;
        let end = configure_numbered(g, bits, public, count, s)->Ok_0;
        lemma_numbered_keeps_tables(g, bits, public, count - 1, s);
        lemma_bucket_keeps_tables(g, bits, public, Some((count - 1) as usize), g.len() as int, mid);
        assert forall|p: int|
            0 <= p < g.len() && (#[trigger] g[p]).opkind is Lookup && (g[p].bucket matches Some(b)
                && b < count) implies has_lookup(end.configs, g[p].idx) by {
            if g[p].bucket->Some_0 < count - 1 {
                lemma_has_lookup_kept(mid.configs, end.configs, g[p].idx);
            }
        }
    }
}

/// In the configuration of a scheduled graph the lookups share their tables, every
/// configuration stands under the index of a node of its kind, and every lookup of the
/// graph is configured.
pub proof fn lemma_lookups_share_tables(g: Seq<NodeView>, bits: usize, public: bool)
    requires
        graph_wf(g),
        spec_configure(g, bits, public) is Ok,
    ensures
        tables_shared(g, spec_configure(g, bits, public)->Ok_0),
        kinds_agree(g, spec_configure(g, bits, public)->Ok_0.configs),
        forall|p: int|
            0 <= p < g.len() && (#[trigger] g[p]).opkind is Lookup ==> has_lookup(
                spec_configure(g, bits, public)->Ok_0.configs,
                g[p].idx,
            ),
{
    let first = configure_bucket(g, bits, public, None, g.len() as int, Compiled::empty())->Ok_0;
    lemma_bucket_keeps_tables(g, bits, public, None, g.len() as int, Compiled::empty());
    lemma_numbered_keeps_tables(g, bits, public, g.len() as int, first);
    assert forall|p: int| 0 <= p < g.len() && (#[trigger] g[p]).opkind is Lookup implies g[p].bucket is Some
        && g[p].bucket->Some_0 < g.len() by {
        assert(placed(g, p));
    }
}

/// There are as many tables as the lookups of the graph have different keys.
pub proof fn lemma_table_count(g: Seq<NodeView>, bits: usize, public: bool)
    requires
        graph_wf(g),
        spec_configure(g, bits, public) is Ok,
    ensures
        table_keys(spec_configure(g, bits, public)->Ok_0.tables).no_duplicates(),
        table_keys(spec_configure(g, bits, public)->Ok_0.tables).to_set() == lookup_keys(g),
        lookup_keys(g).finite(),
        lookup_keys(g).len() == spec_configure(g, bits, public)->Ok_0.tables.len(),
{
    let s = spec_configure(g, bits, public)->Ok_0;
    let keys = table_keys(s.tables);
    lemma_lookups_share_tables(g, bits, public);
    assert forall|i: int, j: int| 0 <= i < keys.len() && 0 <= j < keys.len() && i != j implies keys[i]
        != keys[j] by {
        if i < j {
            assert(s.tables[i].ops != s.tables[j].ops);
        } else {
            assert(s.tables[j].ops != s.tables[i].ops);
        }
    }
    assert forall|key: Seq<LookupOp>| keys.to_set().contains(key) <==> lookup_keys(g).contains(
        key,
    ) by {
        if keys.to_set().contains(key) {
            let t = choose|t: int| 0 <= t < keys.len() && keys[t] == key;
            assert(table_used(s.configs, t));
            let i = choose|i: int| 0 <= i < s.configs.len() && uses_table(#[trigger] s.configs[i], t);
            assert(lookup_in_place(g, s.tables, s.configs[i]));
            let q = node_position(g, s.configs[i].index);
            assert(g[q].opkind is Lookup);
            assert(is_lookup_key(g, key));
        }
        if lookup_keys(g).contains(key) {
            let p = choose|p: int|
                0 <= p < g.len() && (#[trigger] g[p]).opkind is Lookup && key == seq![
                    g[p].opkind->Lookup_0,
                ];
            assert(has_lookup(s.configs, g[p].idx));
            let i = choose|i: int|
                0 <= i < s.configs.len() && (#[trigger] s.configs[i]).index == g[p].idx
                    && s.configs[i].config is Lookup;
            assert(lookup_in_place(g, s.tables, s.configs[i]));
            lemma_position_unique(g, g[p].idx, p);
            let t = s.configs[i].config->Lookup_0.table;
            assert(keys[t] == key);
        }
    }
    assert(keys.to_set() =~= lookup_keys(g));
    keys.unique_seq_to_set();
    vstd::seq_lib::seq_to_set_is_finite(keys);
}

/// When the configuration of a bucket succeeds: exactly if each of its lookups among the
/// first `upto` nodes has one input.
pub proof fn lemma_bucket_succeeds(
    g: Seq<NodeView>,
    bits: usize,
    public: bool,
    key: Option<usize>,
    upto: int,
    s: Compiled,
)
    requires
        0 <= upto <= g.len(),
    ensures
        configure_bucket(g, bits, public, key, upto, s) is Ok <==> forall|p: int|
            0 <= p < upto && (#[trigger] g[p]).bucket == key && g[p].opkind is Lookup
                ==> g[p].inputs.len() == 1,
    decreases upto,
{
    if upto > 0 {
        lemma_bucket_succeeds(g, bits, public, key, upto - 1, s);
    }
}

/// When the configuration of the first numbered buckets succeeds: exactly if each of
/// their lookups has one input.
pub proof fn lemma_numbered_succeeds(
    g: Seq<NodeView>,
    bits: usize,
    public: bool,
    count: int,
    s: Compiled,
)
    requires
        0 <= count <= usize::MAX,
    ensures
        configure_numbered(g, bits, public, count, s) is Ok <==> forall|p: int|
            0 <= p < g.len() && (#[trigger] g[p]).opkind is Lookup && g[p].bucket is Some
                && g[p].bucket->Some_0 < count ==> g[p].inputs.len() == 1,
    decreases count,
{
    if count > 0 {
        lemma_numbered_succeeds(g, bits, public, count - 1, s);
        if let Ok(mid) = configure_numbered(g, bits, public, count - 1, s) {
            lemma_bucket_succeeds(g, bits, public, Some((count - 1) as usize), g.len() as int, mid);
        }
    }
}

/// When configuration succeeds: exactly if every lookup of the graph has one input.
pub proof fn lemma_configure_succeeds(g: Seq<NodeView>, bits: usize, public: bool)
    requires
        graph_wf(g),
    ensures
        spec_configure(g, bits, public) is Ok <==> single_input_lookups(g),
{
    lemma_bucket_succeeds(g, bits, public, None, g.len() as int, Compiled::empty());
    assert forall|p: int| 0 <= p < g.len() && (#[trigger] g[p]).opkind is Lookup implies g[p].bucket is Some
        && g[p].bucket->Some_0 < g.len() by {
        assert(placed(g, p));
    }
    if let Ok(first) = configure_bucket(g, bits, public, None, g.len() as int, Compiled::empty()) {
        lemma_numbered_succeeds(g, bits, public, g.len() as int, first);
    }
}

/// Two lookups go into the same table exactly if they are lookups of the same operation.
pub proof fn lemma_same_operation_same_table(g: Seq<NodeView>, s: Compiled, i: int, j: int)
    requires
        tables_shared(g, s),
        0 <= i < s.configs.len(),
        0 <= j < s.configs.len(),
        s.configs[i].config is Lookup,
        s.configs[j].config is Lookup,
    ensures
        node_of(g, s.configs[i].index).opkind is Lookup,
        node_of(g, s.configs[j].index).opkind is Lookup,
        node_of(g, s.configs[i].index).opkind == node_of(g, s.configs[j].index).opkind
            <==> s.configs[i].config->Lookup_0.table == s.configs[j].config->Lookup_0.table,
{
    assert(lookup_in_place(g, s.tables, s.configs[i]));
    assert(lookup_in_place(g, s.tables, s.configs[j]));
    let a = s.configs[i].config->Lookup_0.table;
    let b = s.configs[j].config->Lookup_0.table;
    let x = node_of(g, s.configs[i].index).opkind->Lookup_0;
    let y = node_of(g, s.configs[j].index).opkind->Lookup_0;
    assert(s.tables[a].ops == seq![x]);
    assert(s.tables[b].ops == seq![y]);
    assert(seq![x][0] == x);
    assert(seq![y][0] == y);
    if a < b {
        assert(s.tables[a].ops != s.tables[b].ops);
    } else if b < a {
        assert(s.tables[b].ops != s.tables[a].ops);
    }
}

/// An error among the first nodes of a bucket is the error of the bucket.
pub proof fn lemma_bucket_error(
    g: Seq<NodeView>,
    bits: usize,
    public: bool,
    key: Option<usize>,
    upto: int,
    state: Compiled,
)
    requires
        0 <= upto <= g.len(),
        configure_bucket(g, bits, public, key, upto, state) is Err,
    ensures
        configure_bucket(g, bits, public, key, g.len() as int, state) == configure_bucket(
            g,
            bits,
            public,
            key,
            upto,
            state,
        ),
    decreases g.len() - upto,
{
    if upto < g.len() {
        lemma_bucket_error(g, bits, public, key, upto + 1, state);
    }
}

/// An error among the first buckets is the error of the graph.
pub proof fn lemma_numbered_error(
    g: Seq<NodeView>,
    bits: usize,
    public: bool,
    count: int,
    state: Compiled,
)
    requires
        0 <= count <= g.len(),
        configure_numbered(g, bits, public, count, state) is Err,
    ensures
        configure_numbered(g, bits, public, g.len() as int, state) == configure_numbered(
            g,
            bits,
            public,
            count,
            state,
        ),
    decreases g.len() - count,
{
    if count < g.len() {
        lemma_numbered_error(g, bits, public, count + 1, state);
    }
}

/// The polynomial operations of a bucket form a group that can be fused.
pub proof fn lemma_poly_group_ok(g: Seq<NodeView>, b: usize)
    requires
        ascending(g),
    ensures
        forall|i: int, j: int|
            0 <= i < j < poly_group(g, b).len() ==> poly_group(g, b)[i] < poly_group(g, b)[j],
        forall|k: int|
            0 <= k < poly_group(g, b).len() ==> has_node(g, #[trigger] poly_group(g, b)[k]),
        all_poly(g, poly_group(g, b)),
        poly_group(g, b).len() > 0 ==> group_ok(g, poly_group(g, b)),
    decreases g.len(),
{
    let all = poly_group(g, b);
    lemma_poly_group(g, b);
    assert forall|k: int| 0 <= k < all.len() implies node_of(g, #[trigger] all[k]).opkind is Poly by {
        assert(names_member(g, b, all[k]));
        let p = choose|p: int| 0 <= p < g.len() && is_member(#[trigger] g[p], b) && g[p].idx == all[k];
        lemma_position_unique(g, all[k], p);
    }
    if g.len() > 0 {
        let front = g.drop_last();
        let rest = poly_group(front, b);
        assert(ascending(front)) by {
            assert forall|i: int, j: int| 0 <= i < j < front.len() implies (#[trigger] front[i]).idx < (
            #[trigger] front[j]).idx by {
                assert(g[i].idx < g[j].idx);
            }
        }
        lemma_poly_group_ok(front, b);
        lemma_poly_group(front, b);
        assert forall|i: int, j: int| 0 <= i < j < all.len() implies all[i] < all[j] by {
            if j < rest.len() {
            } else {
                assert(names_member(front, b, rest[i]));
                let p = choose|p: int|
                    0 <= p < front.len() && is_member(#[trigger] front[p], b) && front[p].idx
                        == rest[i];
                assert(g[p].idx < g[g.len() - 1].idx);
            }
        }
    }
}

/// Whether two buckets are the same.
pub fn same_bucket(a: Option<usize>, b: Option<usize>) -> (r: bool)
    ensures
        r == (a == b),
{
    match (a, b) {
        (None, None) => true,
        (Some(x), Some(y)) => x == y,
        _ => false,
    }
}

impl Model {
    /// Whether `vars` has the columns that the configuration binds: for each fused group
    /// those of its inputs and its output, and two advice groups wherever a lookup or a
    /// range check is configured.
    pub open spec fn columns_suffice(&self, vars: &ModelVars) -> bool {
        let g = self.nodes@;
        let public = self.visibility.params == Visibility::Public;
        &&& forall|b: usize|
            (#[trigger] poly_group(g, b)).len() > 0 ==> advice_needed(g, poly_group(g, b), public)
                <= vars.num_advice && fixed_needed(g, poly_group(g, b), public) <= vars.num_fixed
        &&& (exists|p: int| 0 <= p < g.len() && (#[trigger] g[p]).opkind is Lookup) ==> 2
            <= vars.num_advice
        &&& self.visibility.output == Visibility::Public && self.outputs.len() > 0 ==> 2
            <= vars.num_advice
    }

    /// Configures non op related nodes (eg. representing an input or const value). A node of
    /// another kind is refused with `WrongMethod`.
    pub fn conf_non_op_node(&self, node: &Node) -> (r: Result<NodeConfig, GraphError>)
        ensures
            match non_op_config(node@) {
                Ok(config) => r matches Ok(c) && c@ == config,
                Err(e) => r matches Err(re) && re@ == e,
            },
    {
        match &node.opkind {
            OpKind::Const(_) => Ok(NodeConfig::Const),
            OpKind::Input => Ok(NodeConfig::Input),
            _ => Err(GraphError::WrongMethod(node.idx, node.opkind.duplicate())),
        }
    }

    /// Configures a lookup table based operation.
    ///
    /// A node that is no lookup is refused with `WrongMethod`, a lookup that does not have
    /// exactly one input with `InvalidLookupInputs`; the tables are then left as they were.
    /// Otherwise the lookup goes into the table of its operation: the one that `tables`
    /// holds for it, or a new one.
    pub fn conf_table(&self, node: &Node, vars: &ModelVars, tables: &mut LookupTables) -> (r: Result<
        NodeConfig,
        GraphError,
    >)
        requires
            distinct_keys(old(tables)@),
            node_sized(node@),
            vars.num_advice >= 2,
        ensures
            match lookup_step(node@, old(tables)@, self.bits) {
                Ok((config, after)) => r matches Ok(c) && c@ == config && final(tables)@ == after,
                Err(e) => r matches Err(re) && re@ == e && final(tables)@ == old(tables)@,
            },
            distinct_keys(final(tables)@),
    {
        let op: LookupOp = match &node.opkind {
            OpKind::Lookup(l) => *l,
            _ => {
                return Err(GraphError::WrongMethod(node.idx, node.opkind.duplicate()));
            },
        };
        if node.inputs.len() != 1 {
            return Err(GraphError::InvalidLookupInputs);
        }
        assert(node@.in_dims[0] == node.in_dims@[0]@);
        let input_len = size_of_dims(&node.in_dims[0]);
        let mut dims: Vec<usize> = Vec::new();
        dims.push(input_len);
        assert(dims@ =~= seq![input_len]);
        let input = vars.advice(0, &dims);
        let output = vars.advice(1, &dims);
        let mut key: Vec<LookupOp> = Vec::new();
        key.push(op);
        assert(key@ =~= seq![op]);
        let table = tables.get_or_create_table(key, self.bits);
        let node_inputs = crate::tensor::copy_dims(&node.inputs);
        Ok(NodeConfig::Lookup(LookupConfig { table, input, output }, node_inputs))
    }

    /// Configures the range checks of the outputs: one for each output of the graph, in the
    /// shape of the node that delivers it.
    pub fn range_check_outputs(&self, vars: &ModelVars) -> (configs: Vec<RangeCheckConfig>)
        requires
            self.wf(),
            self.outputs.len() > 0 ==> vars.num_advice >= 2,
        ensures
            view_all(configs@) == range_checks(self.nodes@, self.outputs@, self.tolerance),
    {
        let mut configs: Vec<RangeCheckConfig> = Vec::new();
        let mut k: usize = 0;
        while k < self.outputs.len()
            invariant
                k <= self.outputs.len(),
                self.wf(),
                self.outputs.len() > 0 ==> vars.num_advice >= 2,
                configs.len() == k,
                forall|i: int|
                    0 <= i < k ==> (#[trigger] configs@[i])@ == range_checks(
                        self.nodes@,
                        self.outputs@,
                        self.tolerance,
                    )[i],
            decreases self.outputs.len() - k,
        {
            assert(has_node(self.nodes@, self.outputs@[k as int]));
            let node = self.nodes.get(self.outputs[k]);
            let input = vars.advice(0, &node.out_dims);
            let output = vars.advice(1, &node.out_dims);
            configs.push(RangeCheckConfig::configure(input, output, self.tolerance));
            k += 1;
        }
        assert(view_all(configs@) =~= range_checks(self.nodes@, self.outputs@, self.tolerance));
        configs
    }

    /// Configures the nodes of one bucket.
    fn configure_bucket(
        &self,
        key: Option<usize>,
        vars: &ModelVars,
        results: &mut Vec<Entry>,
        tables: &mut LookupTables,
    ) -> (r: Result<(), GraphError>)
        requires
            self.wf(),
            self.columns_suffice(vars),
            distinct_keys(old(tables)@),
        ensures
            match configure_bucket(
                self.nodes@,
                self.bits,
                self.visibility.params == Visibility::Public,
                key,
                self.nodes@.len() as int,
                Compiled { configs: view_all(old(results)@), tables: old(tables)@ },
            ) {
                Ok(s) => r is Ok && view_all(final(results)@) == s.configs && final(tables)@
                    == s.tables && distinct_keys(final(tables)@),
                Err(e) => r matches Err(re) && re@ == e,
            },
    {
        let ghost g = self.nodes@;
        let ghost public = self.visibility.params == Visibility::Public;
        let ghost start = Compiled { configs: view_all(results@), tables: tables@ };
        let fused_ops: Vec<usize> = match key {
            Some(b) => self.nodes.poly_ops(b),
            None => Vec::new(),
        };
        proof {
            if let Some(b) = key {
                lemma_poly_group_ok(g, b);
            }
        }
        let mut p: usize = 0;
        while p < self.nodes.nodes.len()
            invariant
                p <= self.nodes.nodes.len(),
                g == self.nodes@,
                public == (self.visibility.params == Visibility::Public),
                self.wf(),
                self.columns_suffice(vars),
                key matches Some(b) ==> fused_ops@ == poly_group(g, b) && all_poly(g, fused_ops@) && (
                fused_ops@.len() > 0 ==> group_ok(g, fused_ops@)),
                key is None ==> fused_ops@.len() == 0,
                start == (Compiled { configs: view_all(old(results)@), tables: old(tables)@ }),
                distinct_keys(tables@),
                configure_bucket(g, self.bits, public, key, p as int, start) == Ok::<
                    Compiled,
                    GraphErrorView,
                >(Compiled { configs: view_all(results@), tables: tables@ }),
            decreases self.nodes.nodes.len() - p,
        {
            let node = &self.nodes.nodes[p];
            let ghost n = g[p as int];
            let ghost before = Compiled { configs: view_all(results@), tables: tables@ };
            assert(n == node@);
            assert(configure_bucket(g, self.bits, public, key, p + 1, start) == configure_node(
                g,
                self.bits,
                public,
                key,
                p as int,
                before,
            ));
            if same_bucket(node.bucket, key) {
                match &node.opkind {
                    OpKind::Input => {
                        results.push(Entry { index: node.idx, config: NodeConfig::Input });
                        assert(view_all(results@) =~= before.configs.push(
                            EntryView { index: n.idx, config: NodeConfigView::Input },
                        ));
                    },
                    OpKind::Const(_) => {
                        results.push(Entry { index: node.idx, config: NodeConfig::Const });
                        assert(view_all(results@) =~= before.configs.push(
                            EntryView { index: n.idx, config: NodeConfigView::Const },
                        ));
                    },
                    OpKind::Lookup(_) => {
                        assert(node_sized(n));
                        assert(g[p as int].opkind is Lookup);
                        match self.conf_table(node, vars, tables) {
                            Ok(config) => {
                                let ghost c = config@;
                                results.push(Entry { index: node.idx, config });
                                assert(view_all(results@) =~= before.configs.push(
                                    EntryView { index: n.idx, config: c },
                                ));
                            },
                            Err(e) => {
                                proof {
                                    assert(lookup_step(n, before.tables, self.bits) is Err);
                                    assert(configure_bucket(g, self.bits, public, key, p + 1, start)
                                        == Err::<Compiled, GraphErrorView>(e@));
                                    lemma_bucket_error(g, self.bits, public, key, p + 1, start);
                                }
                                return Err(e);
                            },
                        }
                    },
                    OpKind::Poly(_) => {
                        if fused_ops.len() > 0 && fused_ops[fused_ops.len() - 1] == node.idx {
                            assert(fused_ops@.last() == n.idx);
                            // the nodes of the group are polynomial operations, so this cannot fail
                            let config = self.conf_poly_ops(&fused_ops, vars).unwrap();
                            let ghost c = config@;
                            results.push(Entry { index: node.idx, config });
                            assert(view_all(results@) =~= before.configs.push(
                                EntryView { index: n.idx, config: c },
                            ));
                        }
                    },
                    OpKind::Unknown => {},
                }
            }
            p += 1;
        }
        Ok(())
    }

    /// Configures a `Model`. Does so one execution `bucket` at a time. Each bucket holds either:
    /// a) independent lookup operations (i.e operations that don't feed into one another so can be processed in parallel).
    /// b) operations that can be fused together, i.e the output of one op might feed into another.
    ///
    /// The only error is `InvalidLookupInputs`, for the first lookup in layout order that
    /// does not have exactly one input. The outputs get range checks exactly if they are
    /// public. Every lookup of the graph is configured, and lookups of the same operation
    /// share one table.
    pub fn configure(&self, vars: &ModelVars) -> (r: Result<ModelConfig, GraphError>)
        requires
            self.wf(),
            self.columns_suffice(vars),
        ensures
            match spec_configure(
                self.nodes@,
                self.bits,
                self.visibility.params == Visibility::Public,
            ) {
                Ok(s) => r matches Ok(config) && config@.configs == s.configs && config@.tables
                    == s.tables && config@.public_outputs == (if self.visibility.output
                    == Visibility::Public {
                    range_checks(self.nodes@, self.outputs@, self.tolerance)
                } else {
                    Seq::empty()
                }) && config@.num_advice == vars.num_advice && config@.num_fixed == vars.num_fixed
                    && config@.instance_shapes == view_all(vars.instance_shapes@)
                    && distinct_keys(config@.tables),
                Err(e) => r matches Err(re) && re@ == e,
            },
            r is Ok <==> single_input_lookups(self.nodes@),
            r matches Ok(config) ==> tables_shared(
                self.nodes@,
                Compiled { configs: config@.configs, tables: config@.tables },
            ),
            r matches Ok(config) ==> kinds_agree(self.nodes@, config@.configs),
            r matches Ok(config) ==> lookup_keys(self.nodes@).len() == config@.tables.len(),
            r matches Ok(config) ==> forall|p: int|
                0 <= p < self.nodes@.len() && (#[trigger] self.nodes@[p]).opkind is Lookup
                    ==> has_lookup(config@.configs, self.nodes@[p].idx),
    {
        let ghost g = self.nodes@;
        let ghost public = self.visibility.params == Visibility::Public;
        proof {
            lemma_configure_succeeds(g, self.bits, public);
        }
        let mut results: Vec<Entry> = Vec::new();
        let mut tables = LookupTables::new();
        assert(view_all(results@) =~= Seq::<EntryView>::empty());
        match self.configure_bucket(None, vars, &mut results, &mut tables) {
            Ok(()) => {},
            Err(e) => {
                return Err(e);
            },
        }
        let ghost first = Compiled { configs: view_all(results@), tables: tables@ };
        let count = self.nodes.len();
        let mut bucket: usize = 0;
        while bucket < count
            invariant
                bucket <= count,
                count == g.len(),
                g == self.nodes@,
                public == (self.visibility.params == Visibility::Public),
                self.wf(),
                self.columns_suffice(vars),
                distinct_keys(tables@),
                spec_configure(g, self.bits, public) is Ok <==> single_input_lookups(g),
                configure_bucket(g, self.bits, public, None, g.len() as int, Compiled::empty())
                    == Ok::<Compiled, GraphErrorView>(first),
                configure_numbered(g, self.bits, public, bucket as int, first) == Ok::<
                    Compiled,
                    GraphErrorView,
                >(Compiled { configs: view_all(results@), tables: tables@ }),
            decreases count - bucket,
        {
            match self.configure_bucket(Some(bucket), vars, &mut results, &mut tables) {
                Ok(()) => {},
                Err(e) => {
                    proof {
                        assert(configure_numbered(g, self.bits, public, bucket + 1, first) == Err::<
                            Compiled,
                            GraphErrorView,
                        >(e@));
                        lemma_numbered_error(g, self.bits, public, bucket + 1, first);
                    }
                    return Err(e);
                },
            }
            bucket += 1;
        }
        let public_outputs = if self.visibility.output.is_public() {
            self.range_check_outputs(vars)
        } else {
            Vec::new()
        };
        assert(!(self.visibility.output == Visibility::Public) ==> view_all(public_outputs@)
            =~= Seq::<RangeCheckConfigView>::empty());
        proof {
            lemma_lookups_share_tables(g, self.bits, public);
            lemma_table_count(g, self.bits, public);
        }
        Ok(
            ModelConfig {
                configs: results,
                tables: tables.tables,
                public_outputs,
                vars: ModelVars {
                    num_advice: vars.num_advice,
                    num_fixed: vars.num_fixed,
                    instance_shapes: copy_shapes(&vars.instance_shapes),
                },
            },
        )
    }
}

} // verus!
