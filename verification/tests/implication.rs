use shortest_paths::scc_graph::{DirectedEdge, Node, NodeBuilder};

#[test]
fn implication_edge_and_builder() {
    let edge = DirectedEdge::new(2, 5);
    assert_eq!(edge.a, 2);
    assert_eq!(edge.b, 5);

    let builder = NodeBuilder::new(3);
    let node = builder.to_node();
    assert_eq!(node.index, 3);
    assert!(node.edges.is_empty());
    assert_eq!(node.scc_data(), (-1, -1, false));
}

#[test]
fn implication_node_build() {
    let edges = vec![DirectedEdge::new(0, 1), DirectedEdge::new(0, 2)];
    let node = Node::build(0, edges);
    assert_eq!(node.index, 0);
    assert_eq!(node.edges.len(), 2);
    assert_eq!(node.scc_index(), -1);
}
