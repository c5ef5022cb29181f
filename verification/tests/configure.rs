use ezkl::circuit::lookup::{LookupConfig, LookupOp, LookupTable, LookupTables};
use ezkl::circuit::polynomial::{PolyConfig, PolyInputType, PolyNode, PolyOp};
use ezkl::circuit::range::RangeCheckConfig;
use ezkl::graph::{
    Entry, GraphError, Mode, Model, ModelVars, Node, NodeConfig, OpKind, VarVisibility, Visibility,
};
use ezkl::tensor::{Column, VarTensor};

fn node(idx: usize, opkind: OpKind, inputs: Vec<usize>) -> Node {
    Node {
        idx,
        opkind,
        inputs,
        in_dims: vec![vec![4]],
        out_dims: vec![4],
        out_scale: 7,
        bucket: None,
    }
}

fn sigmoid() -> LookupOp {
    LookupOp::Sigmoid { scale_in: 128, scale_out: 128 }
}

fn relu() -> LookupOp {
    LookupOp::ReLU { scale: 1 }
}

fn policy(params: Visibility, output: Visibility) -> VarVisibility {
    VarVisibility { input: Visibility::Private, params, output }
}

fn model(nodes: Vec<Node>, inputs: Vec<usize>, outputs: Vec<usize>, vis: VarVisibility) -> Model {
    Model::new(nodes, inputs, outputs, 7, 16, 17, 512, 1, Mode::Mock, vis).unwrap()
}

fn vars_for(m: &Model) -> ModelVars {
    let (_, shapes) = m.num_instances();
    ModelVars::new(m.num_advice().max(2), m.num_fixed(), shapes)
}

fn advice(slot: usize, dims: Vec<usize>) -> VarTensor {
    VarTensor { column: Column::Advice(slot), dims }
}

fn fixed(slot: usize, dims: Vec<usize>) -> VarTensor {
    VarTensor { column: Column::Fixed(slot), dims }
}

fn affine_chain() -> Vec<Node> {
    let mut nodes = vec![
        node(0, OpKind::Input, vec![]),
        node(1, OpKind::Const(vec![1; 4]), vec![]),
        node(2, OpKind::Poly(PolyOp::Add), vec![0, 1]),
        node(3, OpKind::Const(vec![2; 2]), vec![]),
        node(4, OpKind::Poly(PolyOp::Mult), vec![2, 3]),
    ];
    nodes[3].out_dims = vec![2];
    nodes[4].out_dims = vec![2, 2];
    nodes
}

#[test]
fn fused_chain_becomes_one_gate_with_fixed_params() {
    let m = model(
        affine_chain(),
        vec![0],
        vec![4],
        policy(Visibility::Public, Visibility::Private),
    );
    let config = m.configure(&ModelVars::new(2, 2, vec![])).unwrap();
    let gate = PolyConfig {
        inputs: vec![advice(0, vec![4]), fixed(0, vec![4]), fixed(1, vec![2])],
        output: advice(1, vec![2, 2]),
        nodes: vec![
            PolyNode {
                op: PolyOp::Add,
                input_order: vec![PolyInputType::Input(0), PolyInputType::Input(1)],
            },
            PolyNode {
                op: PolyOp::Mult,
                input_order: vec![PolyInputType::Inter(0), PolyInputType::Input(2)],
            },
        ],
    };
    assert_eq!(
        config.configs,
        vec![
            Entry { index: 1, config: NodeConfig::Const },
            Entry { index: 3, config: NodeConfig::Const },
            Entry { index: 0, config: NodeConfig::Input },
            Entry { index: 4, config: NodeConfig::Poly(gate, vec![0, 1, 3]) },
        ]
    );
    assert!(config.tables.is_empty());
    assert!(config.public_outputs.is_empty());
    assert_eq!(config.vars, ModelVars::new(2, 2, vec![]));
}

#[test]
fn private_params_take_advice_columns() {
    let m = model(
        affine_chain(),
        vec![0],
        vec![4],
        policy(Visibility::Private, Visibility::Private),
    );
    assert_eq!(m.num_advice(), 4);
    let config = m.configure(&ModelVars::new(4, 0, vec![])).unwrap();
    match &config.configs[3].config {
        NodeConfig::Poly(gate, ids) => {
            assert_eq!(ids, &vec![0, 1, 3]);
            assert_eq!(
                gate.inputs,
                vec![advice(0, vec![4]), advice(1, vec![4]), advice(2, vec![2])]
            );
            assert_eq!(gate.output, advice(3, vec![2, 2]));
        }
        other => panic!("no fused gate: {:?}", other),
    }
}

#[test]
fn shared_input_takes_one_column() {
    let nodes = vec![
        node(0, OpKind::Input, vec![]),
        node(1, OpKind::Const(vec![3; 4]), vec![]),
        node(2, OpKind::Poly(PolyOp::Add), vec![1, 0]),
        node(3, OpKind::Poly(PolyOp::Mult), vec![2, 0, 1, 2]),
    ];
    let m = model(nodes, vec![0], vec![3], policy(Visibility::Public, Visibility::Private));
    let config = m.conf_poly_ops(&vec![2, 3], &ModelVars::new(2, 1, vec![])).unwrap();
    match config {
        NodeConfig::Poly(gate, ids) => {
            assert_eq!(ids, vec![1, 0]);
            assert_eq!(gate.inputs, vec![fixed(0, vec![4]), advice(0, vec![4])]);
            assert_eq!(gate.output, advice(1, vec![4]));
            assert_eq!(
                gate.nodes[0].input_order,
                vec![PolyInputType::Input(0), PolyInputType::Input(1)]
            );
            assert_eq!(
                gate.nodes[1].input_order,
                vec![
                    PolyInputType::Inter(0),
                    PolyInputType::Input(1),
                    PolyInputType::Input(0),
                    PolyInputType::Inter(1),
                ]
            );
        }
        other => panic!("no fused gate: {:?}", other),
    }
}

#[test]
fn fusing_a_node_that_is_no_poly_is_a_wrong_method() {
    let nodes = vec![
        node(0, OpKind::Input, vec![]),
        node(1, OpKind::Poly(PolyOp::Add), vec![0, 0]),
        node(2, OpKind::Lookup(relu()), vec![1]),
    ];
    let m = model(nodes, vec![0], vec![2], policy(Visibility::Public, Visibility::Private));
    let r = m.conf_poly_ops(&vec![1, 2], &ModelVars::new(2, 0, vec![]));
    assert_eq!(r, Err(GraphError::WrongMethod(2, OpKind::Lookup(relu()))));
}

#[test]
fn chained_sigmoids_share_one_table() {
    let nodes = vec![
        node(0, OpKind::Input, vec![]),
        node(1, OpKind::Lookup(sigmoid()), vec![0]),
        node(2, OpKind::Lookup(sigmoid()), vec![1]),
    ];
    let m = model(nodes, vec![0], vec![2], policy(Visibility::Public, Visibility::Private));
    let buckets: Vec<Option<usize>> = m.nodes.nodes.iter().map(|n| n.bucket).collect();
    assert_eq!(buckets, vec![Some(0), Some(1), Some(2)]);
    let config = m.configure(&vars_for(&m)).unwrap();
    let lookup = |input: usize| {
        NodeConfig::Lookup(
            LookupConfig { table: 0, input: advice(0, vec![4]), output: advice(1, vec![4]) },
            vec![input],
        )
    };
    assert_eq!(
        config.configs,
        vec![
            Entry { index: 0, config: NodeConfig::Input },
            Entry { index: 1, config: lookup(0) },
            Entry { index: 2, config: lookup(1) },
        ]
    );
    assert_eq!(config.tables, vec![LookupTable { ops: vec![sigmoid()], bits: 16 }]);
}

#[test]
fn tables_are_as_many_as_distinct_operations() {
    let nodes = vec![
        node(0, OpKind::Input, vec![]),
        node(1, OpKind::Lookup(relu()), vec![0]),
        node(2, OpKind::Lookup(sigmoid()), vec![0]),
        node(3, OpKind::Lookup(relu()), vec![2]),
        node(4, OpKind::Lookup(LookupOp::ReLU { scale: 2 }), vec![3]),
        node(5, OpKind::Lookup(sigmoid()), vec![4]),
    ];
    let m = model(nodes, vec![0], vec![5], policy(Visibility::Public, Visibility::Private));
    let config = m.configure(&vars_for(&m)).unwrap();
    let keys: Vec<Vec<LookupOp>> = config.tables.iter().map(|t| t.ops.clone()).collect();
    assert_eq!(
        keys,
        vec![vec![relu()], vec![sigmoid()], vec![LookupOp::ReLU { scale: 2 }]]
    );
    let mut handles = vec![];
    for entry in &config.configs {
        if let NodeConfig::Lookup(lookup, _) = &entry.config {
            handles.push((entry.index, lookup.table));
        }
    }
    assert_eq!(handles, vec![(1, 0), (2, 1), (3, 0), (4, 2), (5, 1)]);
}

#[test]
fn registry_hands_out_one_table_for_each_key() {
    let mut tables = LookupTables::new();
    assert_eq!(tables.get_or_create_table(vec![relu()], 8), 0);
    assert_eq!(tables.get_or_create_table(vec![sigmoid()], 8), 1);
    assert_eq!(tables.get_or_create_table(vec![relu()], 9), 0);
    assert_eq!(tables.get_or_create_table(vec![relu(), sigmoid()], 8), 2);
    assert_eq!(tables.get_or_create_table(vec![sigmoid()], 8), 1);
    assert_eq!(tables.len(), 3);
    assert_eq!(tables.find(&vec![sigmoid(), relu()]), None);
    assert_eq!(tables.find(&vec![relu(), sigmoid()]), Some(2));
    assert_eq!(tables.tables[0], LookupTable { ops: vec![relu()], bits: 8 });
}

#[test]
fn lookup_reads_as_many_cells_as_its_operand_has() {
    let mut lookup = node(1, OpKind::Lookup(relu()), vec![0]);
    lookup.in_dims = vec![vec![2, 3, 5]];
    let m = model(
        vec![node(0, OpKind::Input, vec![]), lookup.clone()],
        vec![0],
        vec![1],
        policy(Visibility::Public, Visibility::Private),
    );
    let mut tables = LookupTables::new();
    let config = m.conf_table(&lookup, &ModelVars::new(2, 0, vec![]), &mut tables).unwrap();
    assert_eq!(
        config,
        NodeConfig::Lookup(
            LookupConfig { table: 0, input: advice(0, vec![30]), output: advice(1, vec![30]) },
            vec![0],
        )
    );
    assert_eq!(tables.tables, vec![LookupTable { ops: vec![relu()], bits: 16 }]);
}

#[test]
fn lookup_with_two_inputs_is_refused() {
    let nodes = vec![
        node(0, OpKind::Input, vec![]),
        node(1, OpKind::Lookup(relu()), vec![0, 0]),
    ];
    let m = model(nodes, vec![0], vec![1], policy(Visibility::Public, Visibility::Private));
    let vars = ModelVars::new(3, 0, vec![]);
    assert_eq!(m.configure(&vars), Err(GraphError::InvalidLookupInputs));
    let mut tables = LookupTables::new();
    let r = m.conf_table(m.nodes.get(1), &vars, &mut tables);
    assert_eq!(r, Err(GraphError::InvalidLookupInputs));
    assert_eq!(tables.len(), 0);
}

#[test]
fn table_for_a_node_that_is_no_lookup_is_a_wrong_method() {
    let m = model(
        affine_chain(),
        vec![0],
        vec![4],
        policy(Visibility::Public, Visibility::Private),
    );
    let mut tables = LookupTables::new();
    let r = m.conf_table(m.nodes.get(2), &ModelVars::new(2, 2, vec![]), &mut tables);
    assert_eq!(r, Err(GraphError::WrongMethod(2, OpKind::Poly(PolyOp::Add))));
    assert_eq!(tables.len(), 0);
}

#[test]
fn inputs_and_constants_have_no_columns() {
    let m = model(
        affine_chain(),
        vec![0],
        vec![4],
        policy(Visibility::Public, Visibility::Private),
    );
    assert_eq!(m.conf_non_op_node(m.nodes.get(0)), Ok(NodeConfig::Input));
    assert_eq!(m.conf_non_op_node(m.nodes.get(1)), Ok(NodeConfig::Const));
    assert_eq!(
        m.conf_non_op_node(m.nodes.get(4)),
        Err(GraphError::WrongMethod(4, OpKind::Poly(PolyOp::Mult)))
    );
    assert_eq!(
        m.conf_non_op_node(&node(9, OpKind::Unknown, vec![])),
        Err(GraphError::WrongMethod(9, OpKind::Unknown))
    );
}

#[test]
fn public_outputs_get_range_checks() {
    let mut m = model(
        affine_chain(),
        vec![0],
        vec![4, 2],
        policy(Visibility::Public, Visibility::Public),
    );
    m.tolerance = 3;
    let config = m.configure(&ModelVars::new(2, 2, vec![vec![2, 2], vec![4]])).unwrap();
    assert_eq!(
        config.public_outputs,
        vec![
            RangeCheckConfig {
                input: advice(0, vec![2, 2]),
                output: advice(1, vec![2, 2]),
                tolerance: 3,
            },
            RangeCheckConfig { input: advice(0, vec![4]), output: advice(1, vec![4]), tolerance: 3 },
        ]
    );
    assert_eq!(config.vars.instance_shapes, vec![vec![2, 2], vec![4]]);
    assert_eq!(m.range_check_outputs(&ModelVars::new(2, 0, vec![])), config.public_outputs);
}

#[test]
fn no_binding_goes_beyond_the_counted_columns() {
    for params in [Visibility::Public, Visibility::Private] {
        let nodes = vec![
            node(0, OpKind::Input, vec![]),
            node(1, OpKind::Input, vec![]),
            node(2, OpKind::Const(vec![1; 4]), vec![]),
            node(3, OpKind::Poly(PolyOp::Add), vec![0, 1]),
            node(4, OpKind::Lookup(relu()), vec![3]),
            node(5, OpKind::Const(vec![2; 4]), vec![]),
            node(6, OpKind::Poly(PolyOp::Affine), vec![4, 2, 5]),
        ];
        let m = model(nodes, vec![0, 1], vec![6], policy(params, Visibility::Private));
        let (advices, fixeds) = (m.num_advice(), m.num_fixed());
        let config = m.configure(&ModelVars::new(advices, fixeds, vec![])).unwrap();
        let within = |t: &VarTensor| match t.column {
            Column::Advice(slot) => slot < advices,
            Column::Fixed(slot) => slot < fixeds,
        };
        let mut gates = 0;
        for entry in &config.configs {
            match &entry.config {
                NodeConfig::Poly(gate, _) => {
                    gates += 1;
                    assert!(gate.inputs.iter().all(within));
                    assert!(within(&gate.output));
                }
                NodeConfig::Lookup(lookup, _) => {
                    assert!(within(&lookup.input) && within(&lookup.output));
                }
                _ => {}
            }
        }
        assert_eq!(gates, 2);
    }
}

#[test]
fn constants_never_take_a_region() {
    let m = model(
        affine_chain(),
        vec![0],
        vec![4],
        policy(Visibility::Public, Visibility::Private),
    );
    let config = m.configure(&ModelVars::new(2, 2, vec![])).unwrap();
    for n in &m.nodes.nodes {
        if n.opkind.is_const() {
            assert_eq!(n.bucket, None);
            let entry = config.configs.iter().find(|e| e.index == n.idx).unwrap();
            assert_eq!(entry.config, NodeConfig::Const);
        } else {
            assert!(n.bucket.is_some());
        }
    }
}

#[test]
fn configuring_twice_gives_the_same_configuration() {
    let nodes = vec![
        node(0, OpKind::Input, vec![]),
        node(1, OpKind::Lookup(relu()), vec![0]),
        node(2, OpKind::Const(vec![5; 4]), vec![]),
        node(3, OpKind::Poly(PolyOp::Add), vec![1, 2]),
        node(4, OpKind::Lookup(sigmoid()), vec![3]),
    ];
    let vis = policy(Visibility::Public, Visibility::Public);
    let a = model(nodes.clone(), vec![0], vec![4], vis);
    let b = model(nodes, vec![0], vec![4], vis);
    let first = a.configure(&vars_for(&a)).unwrap();
    let second = b.configure(&vars_for(&b)).unwrap();
    assert_eq!(first, second);
    assert_eq!(first.tables.len(), 2);
}
