use ezkl::circuit::lookup::LookupOp;
use ezkl::circuit::polynomial::PolyOp;
use ezkl::graph::{GraphError, Mode, Model, Node, OpKind, VarVisibility, Visibility};
use ezkl::tensor::{checked_size, copy_dims, size_of_dims, Column, VarTensor};

fn node(idx: usize, opkind: OpKind, inputs: Vec<usize>) -> Node {
    Node {
        idx,
        opkind,
        inputs,
        in_dims: vec![vec![4]],
        out_dims: vec![4],
        out_scale: 7,
        bucket: None,
    }
}

fn load(nodes: Vec<Node>, inputs: Vec<usize>, outputs: Vec<usize>) -> Result<Model, GraphError> {
    let vis = VarVisibility {
        input: Visibility::Private,
        params: Visibility::Public,
        output: Visibility::Public,
    };
    Model::new(nodes, inputs, outputs, 7, 16, 17, 512, 1, Mode::Table, vis)
}

fn chain() -> Vec<Node> {
    vec![
        node(0, OpKind::Input, vec![]),
        node(1, OpKind::Const(vec![1; 4]), vec![]),
        node(2, OpKind::Poly(PolyOp::Add), vec![0, 1]),
    ]
}

#[test]
fn a_sound_graph_is_loaded_and_scheduled() {
    let m = load(chain(), vec![0], vec![2]).unwrap();
    let buckets: Vec<Option<usize>> = m.nodes.nodes.iter().map(|n| n.bucket).collect();
    assert_eq!(buckets, vec![Some(0), None, Some(0)]);
    assert_eq!(m.mode, Mode::Table);
}

#[test]
fn an_empty_graph_is_loaded() {
    let m = load(vec![], vec![], vec![]).unwrap();
    assert_eq!(m.nodes.len(), 0);
    assert_eq!(m.num_advice(), 1);
    assert_eq!(m.num_fixed(), 0);
}

#[test]
fn indices_that_do_not_grow_are_not_loaded() {
    let mut nodes = chain();
    nodes[2].idx = 1;
    assert_eq!(load(nodes, vec![0], vec![0]), Err(GraphError::ModelLoad));
    let mut nodes = chain();
    nodes.swap(0, 1);
    assert_eq!(load(nodes, vec![0], vec![0]), Err(GraphError::ModelLoad));
}

#[test]
fn operation_on_constants_alone_is_not_loaded() {
    let nodes = vec![
        node(0, OpKind::Const(vec![1; 4]), vec![]),
        node(1, OpKind::Poly(PolyOp::Add), vec![0, 0]),
    ];
    assert_eq!(load(nodes, vec![], vec![1]), Err(GraphError::ModelLoad));
    let nodes = vec![
        node(0, OpKind::Input, vec![]),
        node(1, OpKind::Lookup(LookupOp::ReLU { scale: 1 }), vec![]),
    ];
    assert_eq!(load(nodes, vec![0], vec![1]), Err(GraphError::ModelLoad));
}

#[test]
fn outlets_that_name_no_node_are_not_loaded() {
    assert_eq!(load(chain(), vec![3], vec![2]), Err(GraphError::ModelLoad));
    assert_eq!(load(chain(), vec![0], vec![2, 9]), Err(GraphError::ModelLoad));
}

#[test]
fn shapes_that_cannot_be_counted_are_not_loaded() {
    let mut nodes = chain();
    nodes[1].out_dims = vec![usize::MAX, 2];
    assert_eq!(load(nodes, vec![0], vec![2]), Err(GraphError::ModelLoad));
    let mut nodes = chain();
    nodes[2].in_dims = vec![vec![4], vec![1 << 40, 1 << 40]];
    assert_eq!(load(nodes, vec![0], vec![2]), Err(GraphError::ModelLoad));
    let mut nodes = chain();
    nodes[0].in_dims = vec![];
    assert_eq!(load(nodes, vec![0], vec![2]), Err(GraphError::ModelLoad));
}

#[test]
fn scheduling_errors_are_handed_on() {
    let mut nodes = chain();
    nodes[2].inputs = vec![0, 5];
    assert_eq!(load(nodes, vec![0], vec![2]), Err(GraphError::MissingNode(5)));
    let mut nodes = chain();
    nodes.push(node(3, OpKind::Unknown, vec![2]));
    assert_eq!(
        load(nodes, vec![0], vec![2]),
        Err(GraphError::WrongMethod(3, OpKind::Unknown))
    );
}

#[test]
fn cells_are_counted_as_a_product() {
    assert_eq!(checked_size(&vec![]), Some(1));
    assert_eq!(checked_size(&vec![2, 3, 7]), Some(42));
    assert_eq!(checked_size(&vec![5, 0, 9]), Some(0));
    assert_eq!(checked_size(&vec![usize::MAX]), Some(usize::MAX));
    assert_eq!(checked_size(&vec![usize::MAX, 2]), None);
    assert_eq!(checked_size(&vec![usize::MAX, 2, 0]), None);
    assert_eq!(size_of_dims(&vec![4, 4]), 16);
    assert_eq!(copy_dims(&vec![3, 1, 2]), vec![3, 1, 2]);
}

#[test]
fn reshaping_keeps_the_column() {
    let t = VarTensor { column: Column::Fixed(3), dims: vec![6] };
    assert_eq!(t.reshape(&vec![2, 3]), VarTensor { column: Column::Fixed(3), dims: vec![2, 3] });
}
