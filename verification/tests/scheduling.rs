use ezkl::circuit::lookup::LookupOp;
use ezkl::circuit::polynomial::PolyOp;
use ezkl::graph::{GraphError, Model, Node, NodeGraph, OpKind};

fn node(idx: usize, opkind: OpKind, inputs: Vec<usize>) -> Node {
    Node {
        idx,
        opkind,
        inputs,
        in_dims: vec![vec![4]],
        out_dims: vec![4],
        out_scale: 7,
        bucket: None,
    }
}

fn sigmoid() -> OpKind {
    OpKind::Lookup(LookupOp::Sigmoid { scale_in: 128, scale_out: 128 })
}

fn relu() -> OpKind {
    OpKind::Lookup(LookupOp::ReLU { scale: 1 })
}

fn buckets(graph: &NodeGraph) -> Vec<Option<usize>> {
    graph.nodes.iter().map(|n| n.bucket).collect()
}

#[test]
fn inputs_stand_in_bucket_zero_and_constants_in_none() {
    let graph = Model::assign_execution_buckets(vec![
        node(0, OpKind::Input, vec![]),
        node(1, OpKind::Const(vec![1, 2, 3, 4]), vec![]),
        node(5, OpKind::Input, vec![]),
    ])
    .unwrap();
    assert_eq!(buckets(&graph), vec![Some(0), None, Some(0)]);
}

#[test]
fn fused_chain_shares_bucket_zero() {
    let graph = Model::assign_execution_buckets(vec![
        node(0, OpKind::Input, vec![]),
        node(1, OpKind::Const(vec![1; 4]), vec![]),
        node(2, OpKind::Poly(PolyOp::Add), vec![0, 1]),
        node(3, OpKind::Const(vec![2; 4]), vec![]),
        node(4, OpKind::Poly(PolyOp::Mult), vec![2, 3]),
    ])
    .unwrap();
    assert_eq!(buckets(&graph), vec![Some(0), None, Some(0), None, Some(0)]);
}

#[test]
fn chained_lookups_open_a_bucket_each() {
    let graph = Model::assign_execution_buckets(vec![
        node(0, OpKind::Input, vec![]),
        node(1, sigmoid(), vec![0]),
        node(2, sigmoid(), vec![1]),
    ])
    .unwrap();
    assert_eq!(buckets(&graph), vec![Some(0), Some(1), Some(2)]);
}

#[test]
fn poly_takes_the_latest_bucket_of_its_operands() {
    let graph = Model::assign_execution_buckets(vec![
        node(0, OpKind::Input, vec![]),
        node(1, relu(), vec![0]),
        node(2, relu(), vec![1]),
        node(3, OpKind::Const(vec![9; 4]), vec![]),
        node(4, OpKind::Poly(PolyOp::Add), vec![0, 2, 3, 1]),
        node(5, sigmoid(), vec![4]),
        node(6, OpKind::Poly(PolyOp::Sub), vec![5, 0]),
    ])
    .unwrap();
    assert_eq!(
        buckets(&graph),
        vec![Some(0), Some(1), Some(2), None, Some(2), Some(3), Some(3)]
    );
}

#[test]
fn lookup_stands_behind_every_operand_that_is_no_constant() {
    let graph = Model::assign_execution_buckets(vec![
        node(0, OpKind::Input, vec![]),
        node(1, relu(), vec![0]),
        node(2, OpKind::Poly(PolyOp::Add), vec![1, 0]),
        node(3, sigmoid(), vec![2]),
    ])
    .unwrap();
    for consumer in &graph.nodes {
        let own = match consumer.bucket {
            Some(b) => b,
            None => continue,
        };
        let mut latest: Option<usize> = None;
        for id in &consumer.inputs {
            let producer = graph.filter(*id).unwrap();
            if let Some(b) = producer.bucket {
                latest = Some(latest.map_or(b, |l| l.max(b)));
            }
        }
        match (&consumer.opkind, latest) {
            (OpKind::Lookup(_), Some(l)) => assert_eq!(own, l + 1),
            (OpKind::Poly(_), Some(l)) => assert_eq!(own, l),
            _ => {}
        }
    }
}

#[test]
fn scheduled_nodes_keep_everything_but_the_bucket() {
    let mut first = node(3, OpKind::Input, vec![]);
    first.bucket = Some(17);
    first.out_scale = -2;
    first.in_dims = vec![vec![2, 3], vec![5]];
    first.out_dims = vec![6];
    let graph = Model::assign_execution_buckets(vec![first.clone()]).unwrap();
    let mut expected = first;
    expected.bucket = Some(0);
    assert_eq!(graph.nodes, vec![expected]);
}

#[test]
fn dangling_reference_is_a_missing_node() {
    let r = Model::assign_execution_buckets(vec![
        node(0, OpKind::Input, vec![]),
        node(1, OpKind::Poly(PolyOp::Add), vec![0, 7]),
    ]);
    assert_eq!(r, Err(GraphError::MissingNode(7)));
}

#[test]
fn forward_reference_is_a_missing_node() {
    let r = Model::assign_execution_buckets(vec![
        node(0, OpKind::Input, vec![]),
        node(1, relu(), vec![2]),
        node(2, OpKind::Input, vec![]),
    ]);
    assert_eq!(r, Err(GraphError::MissingNode(2)));
}

#[test]
fn first_missing_operand_is_reported() {
    let r = Model::assign_execution_buckets(vec![
        node(0, OpKind::Input, vec![]),
        node(1, OpKind::Poly(PolyOp::Add), vec![0, 9, 8]),
    ]);
    assert_eq!(r, Err(GraphError::MissingNode(9)));
}

#[test]
fn missing_operand_comes_before_the_kind() {
    let r = Model::assign_execution_buckets(vec![node(0, OpKind::Unknown, vec![4])]);
    assert_eq!(r, Err(GraphError::MissingNode(4)));
}

#[test]
fn unknown_kind_is_a_wrong_method() {
    let r = Model::assign_execution_buckets(vec![
        node(0, OpKind::Input, vec![]),
        node(3, OpKind::Unknown, vec![0]),
    ]);
    assert_eq!(r, Err(GraphError::WrongMethod(3, OpKind::Unknown)));
}

#[test]
fn scheduling_twice_gives_the_same_buckets() {
    let nodes = vec![
        node(0, OpKind::Input, vec![]),
        node(1, relu(), vec![0]),
        node(2, OpKind::Poly(PolyOp::Add), vec![1, 0]),
        node(3, sigmoid(), vec![2]),
    ];
    let once = Model::assign_execution_buckets(nodes.clone()).unwrap();
    let twice = Model::assign_execution_buckets(nodes).unwrap();
    assert_eq!(once, twice);
    let again = Model::assign_execution_buckets(once.flatten()).unwrap();
    assert_eq!(again, once);
}

#[test]
fn graph_finds_nodes_by_index() {
    let graph = Model::assign_execution_buckets(vec![
        node(2, OpKind::Input, vec![]),
        node(5, relu(), vec![2]),
    ])
    .unwrap();
    assert_eq!(graph.len(), 2);
    assert_eq!(graph.position(5), Some(1));
    assert_eq!(graph.position(3), None);
    assert_eq!(graph.filter(2).unwrap().idx, 2);
    assert!(graph.filter(0).is_none());
    assert_eq!(graph.get(5).bucket, Some(1));
    assert_eq!(graph.poly_ops(0), Vec::<usize>::new());
}
