use ezkl::circuit::lookup::LookupOp;
use ezkl::circuit::polynomial::PolyOp;
use ezkl::graph::{Mode, Model, Node, OpKind, VarVisibility, Visibility};

fn node(idx: usize, opkind: OpKind, inputs: Vec<usize>) -> Node {
    Node {
        idx,
        opkind,
        inputs,
        in_dims: vec![vec![4]],
        out_dims: vec![4],
        out_scale: 7,
        bucket: None,
    }
}

fn relu() -> OpKind {
    OpKind::Lookup(LookupOp::ReLU { scale: 1 })
}

fn policy(params: Visibility) -> VarVisibility {
    VarVisibility { input: Visibility::Private, params, output: Visibility::Public }
}

fn model(nodes: Vec<Node>, inputs: Vec<usize>, outputs: Vec<usize>, vis: VarVisibility) -> Model {
    Model::new(nodes, inputs, outputs, 7, 16, 17, 512, 1, Mode::Mock, vis).unwrap()
}

fn affine_chain() -> Vec<Node> {
    vec![
        node(0, OpKind::Input, vec![]),
        node(1, OpKind::Const(vec![1; 4]), vec![]),
        node(2, OpKind::Poly(PolyOp::Add), vec![0, 1]),
        node(3, OpKind::Const(vec![2; 4]), vec![]),
        node(4, OpKind::Poly(PolyOp::Mult), vec![2, 3]),
    ]
}

#[test]
fn fused_chain_with_public_params() {
    let m = model(affine_chain(), vec![0], vec![4], policy(Visibility::Public));
    assert_eq!(m.max_node_vars_non_fused(), 1);
    assert_eq!(m.max_node_vars_fused(), 2);
    assert_eq!(m.max_node_params(), 2);
    assert_eq!(m.num_advice(), 2);
    assert_eq!(m.num_fixed(), 2);
}

#[test]
fn fused_chain_with_private_params() {
    let m = model(affine_chain(), vec![0], vec![4], policy(Visibility::Private));
    assert_eq!(m.num_advice(), 4);
    assert_eq!(m.num_fixed(), 0);
}

#[test]
fn shared_constant_is_counted_once() {
    let nodes = vec![
        node(0, OpKind::Input, vec![]),
        node(1, OpKind::Const(vec![3; 4]), vec![]),
        node(2, OpKind::Poly(PolyOp::Add), vec![0, 1]),
        node(3, OpKind::Poly(PolyOp::Mult), vec![2, 1, 1, 0]),
    ];
    let m = model(nodes, vec![0], vec![3], policy(Visibility::Public));
    assert_eq!(m.max_node_params(), 1);
    assert_eq!(m.max_node_vars_fused(), 2);
    assert_eq!(m.num_fixed(), 1);
}

#[test]
fn counts_follow_the_bucket_that_needs_most() {
    let nodes = vec![
        node(0, OpKind::Input, vec![]),
        node(1, OpKind::Input, vec![]),
        node(2, OpKind::Const(vec![1; 4]), vec![]),
        node(3, OpKind::Poly(PolyOp::Add), vec![0, 1]),
        node(4, relu(), vec![3]),
        node(5, OpKind::Const(vec![2; 4]), vec![]),
        node(6, OpKind::Const(vec![3; 4]), vec![]),
        node(7, OpKind::Poly(PolyOp::Affine), vec![4, 2, 5, 6]),
    ];
    let m = model(nodes, vec![0, 1], vec![7], policy(Visibility::Public));
    // bucket 0 takes two values and no constant, bucket 1 one value and three constants
    assert_eq!(m.max_node_vars_fused(), 3);
    assert_eq!(m.max_node_params(), 3);
    assert_eq!(m.max_node_vars_non_fused(), 2);
    assert_eq!(m.num_advice(), 3);
    assert_eq!(m.num_fixed(), 3);
    let private = model(
        m.nodes.flatten(),
        vec![0, 1],
        vec![7],
        policy(Visibility::Private),
    );
    assert_eq!(private.num_advice(), 6);
    assert_eq!(private.num_fixed(), 0);
}

#[test]
fn lookups_alone_need_two_advice_columns() {
    let nodes = vec![node(0, OpKind::Input, vec![]), node(1, relu(), vec![0])];
    let m = model(nodes, vec![0], vec![1], policy(Visibility::Public));
    assert_eq!(m.max_node_vars_non_fused(), 2);
    assert_eq!(m.max_node_vars_fused(), 1);
    assert_eq!(m.max_node_params(), 0);
    assert_eq!(m.num_advice(), 2);
    assert_eq!(m.num_fixed(), 0);
}

#[test]
fn instances_follow_the_visibility() {
    let mut nodes = affine_chain();
    nodes[0].out_dims = vec![2, 2];
    nodes[4].out_dims = vec![4, 1];
    let all = VarVisibility {
        input: Visibility::Public,
        params: Visibility::Private,
        output: Visibility::Public,
    };
    let m = model(nodes.clone(), vec![0], vec![4], all);
    assert_eq!(m.num_instances(), (2, vec![vec![2, 2], vec![4, 1]]));
    let outputs_only = policy(Visibility::Private);
    let m = model(nodes.clone(), vec![0], vec![4], outputs_only);
    assert_eq!(m.num_instances(), (1, vec![vec![4, 1]]));
    let none = VarVisibility {
        input: Visibility::Private,
        params: Visibility::Public,
        output: Visibility::Private,
    };
    let m = model(nodes, vec![0], vec![4], none);
    assert_eq!(m.num_instances(), (0, vec![]));
}

#[test]
fn shapes_scales_and_outlets() {
    let mut nodes = affine_chain();
    nodes[0].out_dims = vec![2, 2];
    nodes[2].out_scale = 14;
    nodes[4].out_dims = vec![4, 1];
    nodes[4].out_scale = 21;
    let m = model(nodes, vec![0], vec![4, 2], policy(Visibility::Public));
    assert_eq!(m.num_inputs(), 1);
    assert_eq!(m.num_outputs(), 2);
    assert_eq!(m.input_outlets(), vec![0]);
    assert_eq!(m.output_outlets(), vec![4, 2]);
    assert_eq!(m.input_shapes(), vec![vec![2, 2]]);
    assert_eq!(m.output_shapes(), vec![vec![4, 1], vec![4]]);
    assert_eq!(m.get_output_scales(), vec![21, 14]);
}

#[test]
fn largest_node_size_is_a_product_of_extents() {
    let mut nodes = affine_chain();
    nodes[2].in_dims = vec![vec![3, 5], vec![2, 2, 2]];
    nodes[3].out_dims = vec![7, 3];
    let m = model(nodes, vec![0], vec![4], policy(Visibility::Public));
    assert_eq!(m.max_node_size(), 21);
}

#[test]
fn model_keeps_its_parameters() {
    let vis = policy(Visibility::Private);
    let m = Model::new(affine_chain(), vec![0], vec![4], -3, 11, 19, 64, 2, Mode::Prove, vis)
        .unwrap();
    assert_eq!(m.scale, -3);
    assert_eq!(m.bits, 11);
    assert_eq!(m.logrows, 19);
    assert_eq!(m.max_rotations, 64);
    assert_eq!(m.tolerance, 2);
    assert_eq!(m.mode, Mode::Prove);
    assert_eq!(m.visibility, vis);
    assert_eq!(m.inputs, vec![0]);
    assert_eq!(m.outputs, vec![4]);
}

#[test]
fn recompiling_gives_the_same_counts() {
    let vis = policy(Visibility::Private);
    let a = model(affine_chain(), vec![0], vec![4], vis);
    let b = model(affine_chain(), vec![0], vec![4], vis);
    assert_eq!(a, b);
    assert_eq!(a.num_advice(), b.num_advice());
    assert_eq!(a.num_fixed(), b.num_fixed());
    assert_eq!(a.num_instances(), b.num_instances());
}
