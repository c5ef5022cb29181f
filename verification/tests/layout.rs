use ezkl::circuit::lookup::{LookupConfig, LookupOp};
use ezkl::circuit::polynomial::PolyOp;
use ezkl::circuit::range::RangeCheckConfig;
use ezkl::graph::{
    Binding, Entry, GraphError, Layout, Mode, Model, ModelConfig, ModelVars, Node, NodeConfig,
    OpKind, Region, Seed, VarVisibility, Visibility,
};
use ezkl::tensor::{Column, VarTensor};

fn node(idx: usize, opkind: OpKind, inputs: Vec<usize>) -> Node {
    Node {
        idx,
        opkind,
        inputs,
        in_dims: vec![vec![4]],
        out_dims: vec![4],
        out_scale: 7,
        bucket: None,
    }
}

fn relu() -> OpKind {
    OpKind::Lookup(LookupOp::ReLU { scale: 1 })
}

fn model(nodes: Vec<Node>, inputs: Vec<usize>, outputs: Vec<usize>, vis: VarVisibility) -> Model {
    Model::new(nodes, inputs, outputs, 7, 16, 17, 512, 1, Mode::Mock, vis).unwrap()
}

fn vars_for(m: &Model) -> ModelVars {
    let (_, shapes) = m.num_instances();
    ModelVars::new(m.num_advice().max(2), m.num_fixed(), shapes)
}

fn mixed() -> Vec<Node> {
    vec![
        node(0, OpKind::Input, vec![]),
        node(1, OpKind::Const(vec![1; 4]), vec![]),
        node(2, OpKind::Poly(PolyOp::Add), vec![0, 1]),
        node(3, relu(), vec![2]),
        node(4, OpKind::Const(vec![2; 4]), vec![]),
        node(5, OpKind::Poly(PolyOp::Mult), vec![3, 4, 3]),
    ]
}

fn tolerance(t: usize) -> RangeCheckConfig {
    let column = |slot| VarTensor { column: Column::Advice(slot), dims: vec![3] };
    RangeCheckConfig::configure(column(0), column(1), t)
}

#[test]
fn regions_follow_buckets_and_bind_recorded_results() {
    let vis = VarVisibility {
        input: Visibility::Private,
        params: Visibility::Public,
        output: Visibility::Public,
    };
    let m = model(mixed(), vec![0], vec![5], vis);
    let vars = vars_for(&m);
    let config = m.configure(&vars).unwrap();
    let layout = m.layout(&config, 1, &vars).unwrap();
    assert_eq!(
        layout,
        Layout {
            seeds: vec![Seed::Supplied(0)],
            regions: vec![
                Region::Poly {
                    index: 2,
                    values: vec![Binding::Recorded(0), Binding::Constant(1)],
                },
                Region::Lookup { index: 3, value: 2 },
                Region::Poly {
                    index: 5,
                    values: vec![Binding::Recorded(3), Binding::Constant(4)],
                },
                Region::RangeCheck { check: 0, output: 5, instance: 0 },
            ],
        }
    );
}

#[test]
fn public_inputs_are_seeded_from_instances() {
    let vis = VarVisibility {
        input: Visibility::Public,
        params: Visibility::Private,
        output: Visibility::Public,
    };
    let nodes = vec![
        node(0, OpKind::Input, vec![]),
        node(1, OpKind::Input, vec![]),
        node(2, OpKind::Poly(PolyOp::Add), vec![0, 1]),
        node(3, relu(), vec![2]),
    ];
    let m = model(nodes, vec![0, 1], vec![3, 2], vis);
    let vars = vars_for(&m);
    assert_eq!(vars.instance_shapes.len(), 4);
    let config = m.configure(&vars).unwrap();
    let layout = m.layout(&config, 2, &vars).unwrap();
    assert_eq!(layout.seeds, vec![Seed::Instance(0), Seed::Instance(1)]);
    assert_eq!(
        layout.regions,
        vec![
            Region::Poly { index: 2, values: vec![Binding::Recorded(0), Binding::Recorded(1)] },
            Region::Lookup { index: 3, value: 2 },
            Region::RangeCheck { check: 0, output: 3, instance: 2 },
            Region::RangeCheck { check: 1, output: 2, instance: 3 },
        ]
    );
}

#[test]
fn private_outputs_are_not_range_checked() {
    let vis = VarVisibility {
        input: Visibility::Public,
        params: Visibility::Public,
        output: Visibility::Private,
    };
    let m = model(mixed(), vec![0], vec![5], vis);
    let vars = vars_for(&m);
    let config = m.configure(&vars).unwrap();
    let layout = m.layout(&config, 1, &vars).unwrap();
    assert_eq!(layout.seeds, vec![Seed::Instance(0)]);
    assert_eq!(layout.regions.len(), 3);
    assert!(layout.regions.iter().all(|r| !matches!(r, Region::RangeCheck { .. })));
}

#[test]
fn result_inside_a_fused_group_is_not_recorded() {
    let vis = VarVisibility {
        input: Visibility::Private,
        params: Visibility::Public,
        output: Visibility::Private,
    };
    let nodes = vec![
        node(0, OpKind::Input, vec![]),
        node(1, OpKind::Poly(PolyOp::Add), vec![0, 0]),
        node(2, OpKind::Poly(PolyOp::Mult), vec![1, 0]),
        node(3, relu(), vec![1]),
    ];
    let m = model(nodes, vec![0], vec![3], vis);
    let vars = vars_for(&m);
    let config = m.configure(&vars).unwrap();
    assert_eq!(m.layout(&config, 1, &vars), Err(GraphError::MissingNode(1)));
}

#[test]
fn output_without_a_result_is_a_missing_node() {
    let vis = VarVisibility {
        input: Visibility::Private,
        params: Visibility::Public,
        output: Visibility::Private,
    };
    let m = model(mixed(), vec![0], vec![5, 2, 0], vis);
    let vars = vars_for(&m);
    let mut config = m.configure(&vars).unwrap();
    config.configs.pop();
    assert_eq!(m.layout(&config, 1, &vars), Err(GraphError::MissingNode(5)));
    assert_eq!(m.layout(&config, 6, &vars).unwrap().regions.len(), 2);
}

#[test]
fn input_that_was_not_supplied_is_a_missing_node() {
    let vis = VarVisibility {
        input: Visibility::Private,
        params: Visibility::Public,
        output: Visibility::Private,
    };
    let m = model(mixed(), vec![0], vec![5], vis);
    let vars = vars_for(&m);
    let config = m.configure(&vars).unwrap();
    assert_eq!(m.layout(&config, 0, &vars), Err(GraphError::MissingNode(0)));
}

#[test]
fn single_configurations_are_decided_from_what_is_recorded() {
    let vis = VarVisibility {
        input: Visibility::Private,
        params: Visibility::Public,
        output: Visibility::Private,
    };
    let m = model(mixed(), vec![0], vec![5], vis);
    let vars = vars_for(&m);
    let config = m.configure(&vars).unwrap();
    let gate = config.configs.iter().find(|e| e.index == 5).unwrap();
    assert_eq!(m.layout_config(1, &vec![], gate), Err(GraphError::MissingNode(3)));
    assert_eq!(
        m.layout_config(0, &vec![2, 3], gate),
        Ok(Some(Region::Poly {
            index: 5,
            values: vec![Binding::Recorded(3), Binding::Constant(4)],
        }))
    );
    let lookup = config.configs.iter().find(|e| e.index == 3).unwrap();
    assert_eq!(m.layout_config(1, &vec![], lookup), Err(GraphError::MissingNode(2)));
    assert_eq!(m.layout_config(3, &vec![], lookup), Ok(Some(Region::Lookup { index: 3, value: 2 })));
    assert_eq!(m.layout_config(0, &vec![7, 2], lookup), Ok(Some(Region::Lookup { index: 3, value: 2 })));
    let input = Entry { index: 0, config: NodeConfig::Input };
    assert_eq!(m.layout_config(0, &vec![], &input), Ok(None));
    let constant = Entry { index: 1, config: NodeConfig::Const };
    assert_eq!(m.layout_config(0, &vec![], &constant), Ok(None));
}

#[test]
fn lookup_configuration_with_two_inputs_is_refused() {
    let vis = VarVisibility {
        input: Visibility::Private,
        params: Visibility::Public,
        output: Visibility::Private,
    };
    let m = model(mixed(), vec![0], vec![5], vis);
    let column = |slot| VarTensor { column: Column::Advice(slot), dims: vec![4] };
    let bad = Entry {
        index: 3,
        config: NodeConfig::Lookup(
            LookupConfig { table: 0, input: column(0), output: column(1) },
            vec![0, 0],
        ),
    };
    assert_eq!(m.layout_config(1, &vec![], &bad), Err(GraphError::InvalidLookupInputs));
    let none = Entry {
        index: 3,
        config: NodeConfig::Lookup(
            LookupConfig { table: 0, input: column(0), output: column(1) },
            vec![],
        ),
    };
    assert_eq!(m.layout_config(1, &vec![], &none), Err(GraphError::InvalidLookupInputs));
}

#[test]
fn node_that_was_not_compiled_is_unsupported() {
    let vis = VarVisibility {
        input: Visibility::Private,
        params: Visibility::Public,
        output: Visibility::Private,
    };
    let m = model(mixed(), vec![0], vec![0], vis);
    let entry = Entry { index: 2, config: NodeConfig::NotConfigured };
    assert_eq!(m.layout_config(1, &vec![], &entry), Err(GraphError::UnsupportedOp));
    let config = ModelConfig {
        configs: vec![Entry { index: 0, config: NodeConfig::Input }, entry],
        tables: vec![],
        public_outputs: vec![],
        vars: ModelVars::new(2, 0, vec![]),
    };
    assert_eq!(
        m.layout(&config, 1, &ModelVars::new(2, 0, vec![])),
        Err(GraphError::UnsupportedOp)
    );
}

#[test]
fn off_by_one_passes_a_tolerance_of_one() {
    let check = tolerance(1);
    assert!(check.accepts(&vec![10, -4, 7], &vec![10, -4, 7]));
    assert!(check.accepts(&vec![10, -4, 7], &vec![10, -3, 7]));
    assert!(check.accepts(&vec![10, -4, 7], &vec![9, -5, 8]));
}

#[test]
fn off_by_two_fails_a_tolerance_of_one() {
    let check = tolerance(1);
    assert!(!check.accepts(&vec![10, -4, 7], &vec![10, -2, 7]));
    assert!(!check.accepts(&vec![10, -4, 7], &vec![10, -4, 5]));
    assert!(tolerance(2).accepts(&vec![10, -4, 7], &vec![10, -2, 7]));
}

#[test]
fn range_check_compares_cell_by_cell() {
    assert!(tolerance(0).accepts(&vec![], &vec![]));
    assert!(!tolerance(0).accepts(&vec![1], &vec![2]));
    assert!(!tolerance(5).accepts(&vec![1, 2], &vec![1]));
    assert!(tolerance(usize::MAX).accepts(&vec![i32::MIN], &vec![i32::MAX]));
    assert!(!tolerance(4294967294).accepts(&vec![i32::MAX], &vec![i32::MIN]));
    assert!(tolerance(4294967295).accepts(&vec![i32::MAX], &vec![i32::MIN]));
}
