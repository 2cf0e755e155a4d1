use shortest_paths::cluster_graph::{Graph, Node};
use shortest_paths::undirected_edge::UndirectedEdge;
use shortest_paths::union_find::UnionFind;

#[test]
fn undirected_edge_test_connects_to() {
    let edge = UndirectedEdge::new(0, 0, 1);
    let a = Node::new(0);
    let b = Node::new(1);

    assert!(edge.connects_to(&a));
    assert!(edge.connects_to(&b));
}

#[test]
fn undirected_edge_test_does_not_connect_to() {
    let edge = UndirectedEdge::new(0, 0, 1);
    let a = Node::new(2);
    let b = Node::new(-1);

    assert!(!edge.connects_to(&a));
    assert!(!edge.connects_to(&b));
}

#[test]
fn graph_test_create_nodes() {
    let expected_nodes = [Node::new(0), Node::new(1), Node::new(2), Node::new(3)];
    let nodes = Graph::create_nodes(4);
    for i in 0..nodes.len() {
        assert_eq!(nodes[i], expected_nodes[i]);
    }
}

#[test]
fn can_create() {
}

#[test]
fn can_union() {
}

#[test]
fn can_find() {
}

#[test]
fn union_attaches_lower_rank_root() {
    let one = UnionFind::make_set(1);
    let mut two = UnionFind::make_set(2);
    let two_root = two.clone().find();
    one.union(&mut two, two_root);
    // equal ranks: the second set now hangs beneath the first's root
    assert_eq!(two.rank, 0);
    assert_eq!(two.find().value, 1);
}

#[test]
fn find_returns_canonical_node() {
    let one: UnionFind<i32> = UnionFind::make_set(7);
    let root = one.clone().find();
    assert_eq!(root.value, 7);
    assert!(root.parent.is_none());
    assert_eq!(root.rank, 0);
}
