//! The order in which the regions of a configured model are laid out, and the values that
//! each region binds.
//!
//! A result is recorded under the index of the configuration that produced it. The results
//! of the first indices are recorded from the start: they are the inputs of the graph. A
//! region can bind the value of a constant, or a result that was recorded before it.

use crate::graph::config::{Entry, EntryView, ModelConfig, NodeConfig, NodeConfigView};
use crate::graph::model::Model;
use crate::graph::node::{ascending, NodeView};
use crate::graph::operands::{holds, is_constant_of};
use crate::graph::vars::{ModelVars, Visibility};
use crate::graph::{GraphError, GraphErrorView};
use crate::tensor::view_all;
use vstd::prelude::*;

verus! {

/// Where the value recorded for an input of the graph comes from.
#[derive(Clone, Copy, Debug, PartialEq, Eq, Structural)]
pub enum Seed {
    /// The value that was supplied for the input at this place.
    Supplied(usize),
    /// The value bound to the instance column at this place.
    Instance(usize),
}

/// A value that a fused gate binds.
#[derive(Clone, Copy, Debug, PartialEq, Eq, Structural)]
pub enum Binding {
    /// The value of the constant of this index.
    Constant(usize),
    /// The result recorded under this index.
    Recorded(usize),
}

/// One region of the circuit.
#[derive(Clone, Debug, PartialEq, Eq)]
pub enum Region {
    /// The fused gate configured under `index`, with the values of its inputs in order. Its
    /// result is recorded under `index`.
    Poly { index: usize, values: Vec<Binding> },
    /// The lookup configured under `index`, fed with the result recorded under `value`. Its
    /// result is recorded under `index`.
    Lookup { index: usize, value: usize },
    /// The range check at place `check`, which compares the result recorded under `output`
    /// with the instance column at place `instance`.
    RangeCheck { check: usize, output: usize, instance: usize },
}

/// What a [`Region`] stands for.
pub enum RegionView {
    Poly { index: usize, values: Seq<Binding> },
    Lookup { index: usize, value: usize },
    RangeCheck { check: usize, output: usize, instance: usize },
}

impl View for Region {
    type V = RegionView;

    open spec fn view(&self) -> RegionView {
        match self {
            Region::Poly { index, values } => RegionView::Poly { index: *index, values: values@ },
            Region::Lookup { index, value } => RegionView::Lookup { index: *index, value: *value },
            Region::RangeCheck { check, output, instance } => RegionView::RangeCheck {
                check: *check,
                output: *output,
                instance: *instance,
            },
        }
    }
}

/// The layout of a circuit: the values recorded from the start, one for each input of the
/// graph, and the regions in the order in which they are assigned.
#[derive(Clone, Debug, PartialEq, Eq)]
pub struct Layout {
    pub seeds: Vec<Seed>,
    pub regions: Vec<Region>,
}

/// What a [`Layout`] stands for.
pub struct LayoutView {
    pub seeds: Seq<Seed>,
    pub regions: Seq<RegionView>,
}

impl View for Layout {
    type V = LayoutView;

    open spec fn view(&self) -> LayoutView {
        LayoutView { seeds: self.seeds@, regions: view_all(self.regions@) }
    }
}

/// The regions laid out so far, and the indices under which they recorded a result.
pub struct Progress {
    pub regions: Seq<RegionView>,
    pub done: Seq<usize>,
}

/// Whether a result is recorded under `id`: it is one of the first `num_inputs` indices, or
/// a region recorded it.
pub open spec fn is_recorded(num_inputs: usize, done: Seq<usize>, id: usize) -> bool {
    id < num_inputs || done.contains(id)
}

/// The value bound for the input of index `id`.
pub open spec fn binding_of(g: Seq<NodeView>, id: usize) -> Binding {
    if is_constant_of(g, id) {
        Binding::Constant(id)
    } else {
        Binding::Recorded(id)
    }
}

/// The first of `ids` that is no constant and has no recorded result.
pub open spec fn first_unrecorded(
    g: Seq<NodeView>,
    num_inputs: usize,
    done: Seq<usize>,
    ids: Seq<usize>,
) -> Option<usize>
    decreases ids.len(),
{
    if ids.len() == 0 {
        None
    } else {
        match first_unrecorded(g, num_inputs, done, ids.drop_last()) {
            Some(m) => Some(m),
            None => if is_constant_of(g, ids.last()) || is_recorded(num_inputs, done, ids.last()) {
                None
            } else {
                Some(ids.last())
            },
        }
    }
}

/// The region of one configuration, if it has one.
pub open spec fn region_of(g: Seq<NodeView>, num_inputs: usize, done: Seq<usize>, e: EntryView) -> Result<
    Option<RegionView>,
    GraphErrorView,
> {
    match e.config {
        NodeConfigView::Poly(_, ids) => match first_unrecorded(g, num_inputs, done, ids) {
            Some(m) => Err(GraphErrorView::MissingNode(m)),
            None => Ok(
                Some(
                    RegionView::Poly {
                        index: e.index,
                        values: Seq::new(ids.len(), |k: int| binding_of(g, ids[k])),
                    },
                ),
            ),
        },
        NodeConfigView::Lookup(_, ids) => if ids.len() != 1 {
            Err(GraphErrorView::InvalidLookupInputs)
        } else if !is_recorded(num_inputs, done, ids[0]) {
            Err(GraphErrorView::MissingNode(ids[0]))
        } else {
            Ok(Some(RegionView::Lookup { index: e.index, value: ids[0] }))
        },
        NodeConfigView::Input => Ok(None),
        NodeConfigView::Const => Ok(None),
        NodeConfigView::NotConfigured => Err(GraphErrorView::UnsupportedOp),
    }
}

/// The regions of the first `upto` configurations.
pub open spec fn regions_of(g: Seq<NodeView>, num_inputs: usize, configs: Seq<EntryView>, upto: int) -> Result<
    Progress,
    GraphErrorView,
>
    decreases upto,
{
    if upto <= 0 {
        Ok(Progress { regions: Seq::empty(), done: Seq::empty() })
    } else {
        match regions_of(g, num_inputs, configs, upto - 1) {
            Err(e) => Err(e),
            Ok(s) => match region_of(g, num_inputs, s.done, configs[upto - 1]) {
                Err(e) => Err(e),
                Ok(None) => Ok(s),
                Ok(Some(region)) => Ok(
                    Progress {
                        regions: s.regions.push(region),
                        done: s.done.push(configs[upto - 1].index),
                    },
                ),
            },
        }
    }
}

/// The first of `outputs` that has no recorded result.
pub open spec fn first_unbound(num_inputs: usize, done: Seq<usize>, outputs: Seq<usize>) -> Option<
    usize,
>
    decreases outputs.len(),
{
    if outputs.len() == 0 {
        None
    } else {
        match first_unbound(num_inputs, done, outputs.drop_last()) {
            Some(m) => Some(m),
            None => if is_recorded(num_inputs, done, outputs.last()) {
                None
            } else {
                Some(outputs.last())
            },
        }
    }
}

/// The number of range checks that are laid out: one for each output that has one.
pub open spec fn checked_outputs(checks: nat, outputs: nat) -> nat {
    if checks <= outputs {
        checks
    } else {
        outputs
    }
}

/// The place of the first instance column that holds an output.
pub open spec fn instance_offset(input: Visibility, num_inputs: usize) -> nat {
    if input == Visibility::Public {
        num_inputs as nat
    } else {
        0
    }
}

/// The values recorded from the start: for each input the instance column at its place, if
/// the inputs are public, and the supplied value, if they are not.
pub open spec fn seeds_of(input: Visibility, num_inputs: usize) -> Seq<Seed> {
    Seq::new(
        num_inputs as nat,
        |i: int|
            if input == Visibility::Public {
                Seed::Instance(i as usize)
            } else {
                Seed::Supplied(i as usize)
            },
    )
}

/// The range checks behind the regions of the configurations.
pub open spec fn check_regions(offset: nat, count: nat, outputs: Seq<usize>) -> Seq<RegionView> {
    Seq::new(
        count,
        |i: int|
            RegionView::RangeCheck {
                check: i as usize,
                output: outputs[i],
                instance: (offset + i) as usize,
            },
    )
}

/// The layout of a configured model, or the error that stops it.
pub open spec fn spec_layout(
    g: Seq<NodeView>,
    outputs: Seq<usize>,
    input: Visibility,
    configs: Seq<EntryView>,
    checks: nat,
    num_inputs: usize,
) -> Result<LayoutView, GraphErrorView> {
    match regions_of(g, num_inputs, configs, configs.len() as int) {
        Err(e) => Err(e),
        Ok(s) => match first_unbound(num_inputs, s.done, outputs) {
            Some(m) => Err(GraphErrorView::MissingNode(m)),
            None => Ok(
                LayoutView {
                    seeds: seeds_of(input, num_inputs),
                    regions: s.regions + check_regions(
                        instance_offset(input, num_inputs),
                        checked_outputs(checks, outputs.len()),
                        outputs,
                    ),
                },
            ),
        },
    }
}

/// The index under which a region of a configuration records its result.
pub open spec fn region_index(r: RegionView) -> usize {
    match r {
        RegionView::Poly { index, .. } => index,
        RegionView::Lookup { index, .. } => index,
        RegionView::RangeCheck { output, .. } => output,
    }
}

/// Whether a region binds the result recorded under `id`.
pub open spec fn reads(r: RegionView, id: usize) -> bool {
    match r {
        RegionView::Poly { values, .. } => values.contains(Binding::Recorded(id)),
        RegionView::Lookup { value, .. } => value == id,
        RegionView::RangeCheck { output, .. } => output == id,
    }
}

/// Whether a result is recorded under `id` when the region at place `i` is laid out: `id`
/// is one of the first `num_inputs` indices, or a region before place `i` recorded it.
pub open spec fn recorded_before(num_inputs: usize, regions: Seq<RegionView>, i: int, id: usize) -> bool {
    id < num_inputs || exists|j: int|
        0 <= j < i && j < regions.len() && !((#[trigger] regions[j]) is RangeCheck) && region_index(
            regions[j],
        ) == id
}

/// Whether no region binds a result before it is recorded.
pub open spec fn reads_follow_records(num_inputs: usize, regions: Seq<RegionView>) -> bool {
    forall|i: int, id: usize|
        0 <= i < regions.len() && #[trigger] reads(regions[i], id) ==> recorded_before(
            num_inputs,
            regions,
            i,
            id,
        )
}

/// None of the inputs lacks a value exactly if each is a constant or has a recorded result.
pub proof fn lemma_first_unrecorded(
    g: Seq<NodeView>,
    num_inputs: usize,
    done: Seq<usize>,
    ids: Seq<usize>,
)
    ensures
        first_unrecorded(g, num_inputs, done, ids) is None <==> forall|k: int|
            0 <= k < ids.len() ==> is_constant_of(g, #[trigger] ids[k]) || is_recorded(
                num_inputs,
                done,
                ids[k],
            ),
    decreases ids.len(),
{
    if ids.len() > 0 {
        let front = ids.drop_last();
        lemma_first_unrecorded(g, num_inputs, done, front);
        if first_unrecorded(g, num_inputs, done, front) is None {
            assert forall|k: int| 0 <= k < front.len() implies is_constant_of(
                g,
                #[trigger] ids[k],
            ) || is_recorded(num_inputs, done, ids[k]) by {
                assert(front[k] == ids[k]);
            }
            if first_unrecorded(g, num_inputs, done, ids) is None {
                assert forall|k: int| 0 <= k < ids.len() implies is_constant_of(
                    g,
                    #[trigger] ids[k],
                ) || is_recorded(num_inputs, done, ids[k]) by {
                    if k < front.len() {
                        assert(front[k] == ids[k]);
                    }
                }
            } else {
                assert(ids[ids.len() - 1] == ids.last());
            }
        } else {
            let k = choose|k: int|
                0 <= k < front.len() && !(is_constant_of(g, #[trigger] front[k]) || is_recorded(
                    num_inputs,
                    done,
                    front[k],
                ));
            assert(ids[k] == front[k]);
        }
    }
}

/// None of the outputs lacks a result exactly if each has a recorded result.
pub proof fn lemma_first_unbound(num_inputs: usize, done: Seq<usize>, outputs: Seq<usize>)
    ensures
        first_unbound(num_inputs, done, outputs) is None <==> forall|k: int|
            0 <= k < outputs.len() ==> is_recorded(num_inputs, done, #[trigger] outputs[k]),
    decreases outputs.len(),
{
    if outputs.len() > 0 {
        let front = outputs.drop_last();
        lemma_first_unbound(num_inputs, done, front);
        if first_unbound(num_inputs, done, front) is None {
            assert forall|k: int| 0 <= k < front.len() implies is_recorded(
                num_inputs,
                done,
                #[trigger] outputs[k],
            ) by {
                assert(front[k] == outputs[k]);
            }
            if first_unbound(num_inputs, done, outputs) is None {
                assert forall|k: int| 0 <= k < outputs.len() implies is_recorded(
                    num_inputs,
                    done,
                    #[trigger] outputs[k],
                ) by {
                    if k < front.len() {
                        assert(front[k] == outputs[k]);
                    }
                }
            } else {
                assert(outputs[outputs.len() - 1] == outputs.last());
            }
        } else {
            let k = choose|k: int|
                0 <= k < front.len() && !is_recorded(num_inputs, done, #[trigger] front[k]);
            assert(outputs[k] == front[k]);
        }
    }
}

/// The regions of configurations record their results in step, and none of them binds a
/// result before it is recorded.
pub proof fn lemma_regions_in_order(
    g: Seq<NodeView>,
    num_inputs: usize,
    configs: Seq<EntryView>,
    upto: int,
)
    requires
        regions_of(g, num_inputs, configs, upto) is Ok,
    ensures
        regions_of(g, num_inputs, configs, upto)->Ok_0.done.len() == regions_of(
            g,
            num_inputs,
            configs,
            upto,
        )->Ok_0.regions.len(),
        forall|j: int|
            0 <= j < regions_of(g, num_inputs, configs, upto)->Ok_0.regions.len() ==> !((
            #[trigger] regions_of(g, num_inputs, configs, upto)->Ok_0.regions[j]) is RangeCheck)
                && region_index(regions_of(g, num_inputs, configs, upto)->Ok_0.regions[j])
                == regions_of(g, num_inputs, configs, upto)->Ok_0.done[j],
        reads_follow_records(num_inputs, regions_of(g, num_inputs, configs, upto)->Ok_0.regions),
    decreases upto,
{
    if upto > 0 {
        let s = regions_of(g, num_inputs, configs, upto - 1)->Ok_0;
        let t = regions_of(g, num_inputs, configs, upto)->Ok_0;
        let e = configs[upto - 1];
        lemma_regions_in_order(g, num_inputs, configs, upto - 1);
        if let Ok(Some(region)) = region_of(g, num_inputs, s.done, e) {
            let last = s.regions.len() as int;
            assert(t.regions[last] == region);
            assert forall|i: int, id: usize|
                0 <= i < t.regions.len() && #[trigger] reads(t.regions[i], id) implies recorded_before(
                num_inputs,
                t.regions,
                i,
                id,
            ) by {
                if i < last {
                    assert(t.regions[i] == s.regions[i]);
                    assert(recorded_before(num_inputs, s.regions, i, id));
                    if !(id < num_inputs) {
                        let j = choose|j: int|
                            0 <= j < i && j < s.regions.len() && !((#[trigger] s.regions[j]) is RangeCheck)
                                && region_index(s.regions[j]) == id;
                        assert(t.regions[j] == s.regions[j]);
                    }
                } else {
                    assert(is_recorded(num_inputs, s.done, id)) by {
                        match e.config {
                            NodeConfigView::Poly(_, ids) => {
                                lemma_first_unrecorded(g, num_inputs, s.done, ids);
                                let values = Seq::new(ids.len(), |k: int| binding_of(g, ids[k]));
                                let k = choose|k: int|
                                    0 <= k < values.len() && values[k] == Binding::Recorded(id);
                                assert(binding_of(g, ids[k]) == Binding::Recorded(id));
                                assert(ids[k] == id);
                            },
                            _ => {},
                        }
                    }
                    if !(id < num_inputs) {
                        let j = choose|j: int| 0 <= j < s.done.len() && s.done[j] == id;
                        assert(t.regions[j] == s.regions[j]);
                    }
                }
            }
        }
    }
}

/// In a layout no region binds a result before it is recorded: every value that a gate, a
/// lookup or a range check reads is that of an input of the graph or the result of a
/// region before it.
pub proof fn lemma_layout_in_order(
    g: Seq<NodeView>,
    outputs: Seq<usize>,
    input: Visibility,
    configs: Seq<EntryView>,
    checks: nat,
    num_inputs: usize,
)
    requires
        spec_layout(g, outputs, input, configs, checks, num_inputs) is Ok,
    ensures
        reads_follow_records(
            num_inputs,
            spec_layout(g, outputs, input, configs, checks, num_inputs)->Ok_0.regions,
        ),
{
    let s = regions_of(g, num_inputs, configs, configs.len() as int)->Ok_0;
    let all = spec_layout(g, outputs, input, configs, checks, num_inputs)->Ok_0.regions;
    let count = checked_outputs(checks, outputs.len());
    let tail = check_regions(instance_offset(input, num_inputs), count, outputs);
    lemma_regions_in_order(g, num_inputs, configs, configs.len() as int);
    lemma_first_unbound(num_inputs, s.done, outputs);
    assert forall|i: int, id: usize|
        0 <= i < all.len() && #[trigger] reads(all[i], id) implies recorded_before(
        num_inputs,
        all,
        i,
        id,
    ) by {
        if i < s.regions.len() {
            assert(all[i] == s.regions[i]);
            assert(recorded_before(num_inputs, s.regions, i, id));
            if !(id < num_inputs) {
                let j = choose|j: int|
                    0 <= j < i && j < s.regions.len() && !((#[trigger] s.regions[j]) is RangeCheck)
                        && region_index(s.regions[j]) == id;
                assert(all[j] == s.regions[j]);
            }
        } else {
            let c = i - s.regions.len();
            assert(all[i] == tail[c]);
            assert(id == outputs[c]);
            assert(is_recorded(num_inputs, s.done, outputs[c]));
            if !(id < num_inputs) {
                let j = choose|j: int| 0 <= j < s.done.len() && s.done[j] == id;
                assert(all[j] == s.regions[j]);
            }
        }
    }
}

/// An error among the first configurations is the error of all.
pub proof fn lemma_regions_error(
    g: Seq<NodeView>,
    num_inputs: usize,
    configs: Seq<EntryView>,
    upto: int,
)
    requires
        0 <= upto <= configs.len(),
        regions_of(g, num_inputs, configs, upto) is Err,
    ensures
        regions_of(g, num_inputs, configs, configs.len() as int) == regions_of(
            g,
            num_inputs,
            configs,
            upto,
        ),
    decreases configs.len() - upto,
{
    if upto < configs.len() {
        lemma_regions_error(g, num_inputs, configs, upto + 1);
    }
}

/// An input without a value among the first inputs is the first such input of all.
pub proof fn lemma_unrecorded_prefix(
    g: Seq<NodeView>,
    num_inputs: usize,
    done: Seq<usize>,
    ids: Seq<usize>,
    k: int,
)
    requires
        0 <= k <= ids.len(),
        first_unrecorded(g, num_inputs, done, ids.take(k)) is Some,
    ensures
        first_unrecorded(g, num_inputs, done, ids) == first_unrecorded(
            g,
            num_inputs,
            done,
            ids.take(k),
        ),
    decreases ids.len() - k,
{
    if k < ids.len() {
        assert(ids.take(k + 1).drop_last() == ids.take(k));
        lemma_unrecorded_prefix(g, num_inputs, done, ids, k + 1);
    } else {
        assert(ids.take(k) == ids);
    }
}

/// An output without a result among the first outputs is the first such output of all.
pub proof fn lemma_unbound_prefix(num_inputs: usize, done: Seq<usize>, outputs: Seq<usize>, k: int)
    requires
        0 <= k <= outputs.len(),
        first_unbound(num_inputs, done, outputs.take(k)) is Some,
    ensures
        first_unbound(num_inputs, done, outputs) == first_unbound(num_inputs, done, outputs.take(k)),
    decreases outputs.len() - k,
{
    if k < outputs.len() {
        assert(outputs.take(k + 1).drop_last() == outputs.take(k));
        lemma_unbound_prefix(num_inputs, done, outputs, k + 1);
    } else {
        assert(outputs.take(k) == outputs);
    }
}

impl Model {
    /// Whether `vars` has the instance columns that the layout binds: one for each input,
    /// if the inputs are public, and behind them one for each output that is range checked.
    pub open spec fn instances_suffice(
        &self,
        config: &ModelConfig,
        num_inputs: usize,
        vars: &ModelVars,
    ) -> bool {
        let offset = instance_offset(self.visibility.input, num_inputs);
        let count = checked_outputs(config.public_outputs@.len(), self.outputs@.len());
        &&& offset <= vars.instance_shapes@.len()
        &&& spec_layout(
            self.nodes@,
            self.outputs@,
            self.visibility.input,
            config@.configs,
            config.public_outputs@.len(),
            num_inputs,
        ) is Ok ==> offset + count <= vars.instance_shapes@.len()
    }

    /// Decides the region of a single configuration, given the indices under which regions
    /// have recorded a result so far.
    ///
    /// An input or a constant has no region. A fused gate binds, for each of its inputs, the
    /// value of the constant or the recorded result; a lookup binds the recorded result of
    /// its one input. An input that is no constant and has no recorded result stops the
    /// layout with `MissingNode`, a lookup that does not have exactly one input with
    /// `InvalidLookupInputs`, and a configuration of no known case with `UnsupportedOp`.
    pub fn layout_config(&self, num_inputs: usize, recorded: &Vec<usize>, entry: &Entry) -> (r:
        Result<Option<Region>, GraphError>)
        requires
            ascending(self.nodes@),
        ensures
            match region_of(self.nodes@, num_inputs, recorded@, entry@) {
                Ok(Some(region)) => r matches Ok(Some(out)) && out@ == region,
                Ok(None) => r matches Ok(None),
                Err(e) => r matches Err(re) && re@ == e,
            },
    {
        let ghost g = self.nodes@;
        match &entry.config {
            NodeConfig::Poly(_, ids) => {
                let mut values: Vec<Binding> = Vec::new();
                let mut k: usize = 0;
                while k < ids.len()
                    invariant
                        k <= ids.len(),
                        g == self.nodes@,
                        ascending(g),
                        entry@.config is Poly,
                        entry@.config->Poly_1 == ids@,
                        first_unrecorded(g, num_inputs, recorded@, ids@.take(k as int)) is None,
                        values.len() == k,
                        forall|i: int| 0 <= i < k ==> #[trigger] values@[i] == binding_of(g, ids@[i]),
                    decreases ids.len() - k,
                {
                    let id = ids[k];
                    assert(ids@.take(k + 1).drop_last() == ids@.take(k as int));
                    assert(ids@.take(k + 1).last() == id);
                    if self.nodes.is_constant(id) {
                        values.push(Binding::Constant(id));
                    } else if id < num_inputs || holds(recorded, id) {
                        values.push(Binding::Recorded(id));
                    } else {
                        proof {
                            assert(first_unrecorded(g, num_inputs, recorded@, ids@.take(k + 1))
                                == Some(id));
                            lemma_unrecorded_prefix(g, num_inputs, recorded@, ids@, k + 1);
                        }
                        return Err(GraphError::MissingNode(id));
                    }
                    k += 1;
                }
                assert(ids@.take(ids.len() as int) == ids@);
                assert(values@ =~= Seq::new(ids@.len(), |k: int| binding_of(g, ids@[k])));
                Ok(Some(Region::Poly { index: entry.index, values }))
            },
            NodeConfig::Lookup(_, ids) => {
                if ids.len() != 1 {
                    return Err(GraphError::InvalidLookupInputs);
                }
                let id = ids[0];
                if id < num_inputs || holds(recorded, id) {
                    Ok(Some(Region::Lookup { index: entry.index, value: id }))
                } else {
                    Err(GraphError::MissingNode(id))
                }
            },
            NodeConfig::Input => Ok(None),
            NodeConfig::Const => Ok(None),
            NodeConfig::NotConfigured => Err(GraphError::UnsupportedOp),
        }
    }

    /// Plans the assignment of values to the regions created when calling `configure`.
    ///
    /// `num_inputs` is the number of values that are supplied for the inputs of the graph.
    /// The configurations are taken in their order; behind their regions come the range
    /// checks, one for each output that has one. The layout fails with the error of the
    /// first configuration that cannot be laid out, or with `MissingNode` and the index of
    /// the first output of the graph that has no recorded result. In a layout no region
    /// binds a result before it is recorded.
    pub fn layout(&self, config: &ModelConfig, num_inputs: usize, vars: &ModelVars) -> (r: Result<
        Layout,
        GraphError,
    >)
        requires
            self.wf(),
            self.instances_suffice(config, num_inputs, vars),
        ensures
            match spec_layout(
                self.nodes@,
                self.outputs@,
                self.visibility.input,
                config@.configs,
                config.public_outputs@.len(),
                num_inputs,
            ) {
                Ok(layout) => r matches Ok(out) && out@ == layout,
                Err(e) => r matches Err(re) && re@ == e,
            },
            r matches Ok(out) ==> forall|i: int|
                0 <= i < out@.regions.len() ==> (#[trigger] out@.regions[i] matches RegionView::RangeCheck {
                    instance,
                    ..
                } ==> instance < vars.instance_shapes@.len()),
            r matches Ok(out) ==> reads_follow_records(num_inputs, out@.regions),
    {
        let ghost g = self.nodes@;
        let ghost configs = config@.configs;
        let public = self.visibility.input.is_public();
        let mut seeds: Vec<Seed> = Vec::new();
        let mut i: usize = 0;
        while i < num_inputs
            invariant
                i <= num_inputs,
                public == (self.visibility.input == Visibility::Public),
                seeds.len() == i,
                forall|j: int|
                    0 <= j < i ==> #[trigger] seeds@[j] == seeds_of(self.visibility.input, num_inputs)[j],
            decreases num_inputs - i,
        {
            if public {
                seeds.push(Seed::Instance(i));
            } else {
                seeds.push(Seed::Supplied(i));
            }
            i += 1;
        }
        assert(seeds@ =~= seeds_of(self.visibility.input, num_inputs));
        let mut regions: Vec<Region> = Vec::new();
        let mut recorded: Vec<usize> = Vec::new();
        let mut k: usize = 0;
        assert(view_all(regions@) =~= Seq::<RegionView>::empty());
        while k < config.configs.len()
            invariant
                k <= config.configs.len(),
                g == self.nodes@,
                ascending(g),
                configs == config@.configs,
                regions_of(g, num_inputs, configs, k as int) == Ok::<Progress, GraphErrorView>(
                    Progress { regions: view_all(regions@), done: recorded@ },
                ),
            decreases config.configs.len() - k,
        {
            let entry = &config.configs[k];
            let ghost before = view_all(regions@);
            assert(configs[k as int] == entry@);
            match self.layout_config(num_inputs, &recorded, entry) {
                Ok(Some(region)) => {
                    let ghost rv = region@;
                    regions.push(region);
                    recorded.push(entry.index);
                    assert(view_all(regions@) =~= before.push(rv));
                },
                Ok(None) => {},
                Err(e) => {
                    proof {
                        assert(regions_of(g, num_inputs, configs, k + 1) == Err::<
                            Progress,
                            GraphErrorView,
                        >(e@));
                        lemma_regions_error(g, num_inputs, configs, k + 1);
                    }
                    return Err(e);
                },
            }
            k += 1;
        }
        let ghost progress = Progress { regions: view_all(regions@), done: recorded@ };
        let mut o: usize = 0;
        while o < self.outputs.len()
            invariant
                o <= self.outputs.len(),
                g == self.nodes@,
                configs == config@.configs,
                progress.done == recorded@,
                regions_of(g, num_inputs, configs, configs.len() as int) == Ok::<
                    Progress,
                    GraphErrorView,
                >(progress),
                first_unbound(num_inputs, recorded@, self.outputs@.take(o as int)) is None,
            decreases self.outputs.len() - o,
        {
            let id = self.outputs[o];
            assert(self.outputs@.take(o + 1).drop_last() == self.outputs@.take(o as int));
            assert(self.outputs@.take(o + 1).last() == id);
            if !(id < num_inputs || holds(&recorded, id)) {
                proof {
                    assert(first_unbound(num_inputs, recorded@, self.outputs@.take(o + 1)) == Some(
                        id,
                    ));
                    lemma_unbound_prefix(num_inputs, recorded@, self.outputs@, o + 1);
                }
                return Err(GraphError::MissingNode(id));
            }
            o += 1;
        }
        assert(self.outputs@.take(self.outputs.len() as int) == self.outputs@);
        let count = if config.public_outputs.len() <= self.outputs.len() {
            config.public_outputs.len()
        } else {
            self.outputs.len()
        };
        let offset: usize = if public {
            num_inputs
        } else {
            0
        };
        let ghost checks = check_regions(offset as nat, count as nat, self.outputs@);
        let mut c: usize = 0;
        assert(view_all(regions@) =~= progress.regions + checks.take(0));
        assert(spec_layout(
            g,
            self.outputs@,
            self.visibility.input,
            configs,
            config.public_outputs@.len(),
            num_inputs,
        ) is Ok);
        while c < count
            invariant
                c <= count,
                count <= self.outputs.len(),
                offset + count <= vars.instance_shapes.len(),
                checks == check_regions(offset as nat, count as nat, self.outputs@),
                view_all(regions@) == progress.regions + checks.take(c as int),
            decreases count - c,
        {
            let ghost before = view_all(regions@);
            let region = Region::RangeCheck { check: c, output: self.outputs[c], instance: offset + c };
            assert(region@ == checks[c as int]);
            regions.push(region);
            assert(view_all(regions@) =~= before.push(checks[c as int]));
            assert(checks.take(c + 1) =~= checks.take(c as int).push(checks[c as int]));
            c += 1;
        }
        assert(checks.take(count as int) =~= checks);
        let out = Layout { seeds, regions };
        proof {
            lemma_layout_in_order(
                g,
                self.outputs@,
                self.visibility.input,
                configs,
                config.public_outputs@.len(),
                num_inputs,
            );
            assert forall|i: int| 0 <= i < out@.regions.len() implies (#[trigger] out@.regions[i] matches RegionView::RangeCheck {
                instance,
                ..
            } ==> instance < vars.instance_shapes@.len()) by {
                if i < progress.regions.len() {
                    lemma_no_range_checks(g, num_inputs, configs, configs.len() as int, i);
                } else {
                    assert(out@.regions[i] == checks[i - progress.regions.len()]);
                }
            }
        }
        Ok(out)
    }
}

/// The regions of configurations are gates and lookups.
pub proof fn lemma_no_range_checks(
    g: Seq<NodeView>,
    num_inputs: usize,
    configs: Seq<EntryView>,
    upto: int,
    i: int,
)
    requires
        regions_of(g, num_inputs, configs, upto) is Ok,
        0 <= i < regions_of(g, num_inputs, configs, upto)->Ok_0.regions.len(),
    ensures
        !(regions_of(g, num_inputs, configs, upto)->Ok_0.regions[i] is RangeCheck),
    decreases upto,
{
    if upto > 0 {
        let s = regions_of(g, num_inputs, configs, upto - 1)->Ok_0;
        if i < s.regions.len() {
            lemma_no_range_checks(g, num_inputs, configs, upto - 1, i);
        }
    }
}

} // verus!
