use shortest_paths::prim_graph::{
    BruteForceMstGreedyFinder, Graph, MstGreedyFinder, Node, NodeNeighbor, UndirectedEdge,
};

#[test]
fn graph_test_connects_to() {
    let edge = UndirectedEdge::new(0, 0, 1);
    let a = Node::new(0, Box::new(vec![]));
    let b = Node::new(1, Box::new(vec![]));

    assert!(edge.connects_to(&a));
    assert!(edge.connects_to(&b));
}

#[test]
fn graph_test_does_not_connect_to() {
    let edge = UndirectedEdge::new(0, 0, 1);
    let a = Node::new(2, Box::new(vec![]));
    let b = Node::new(-1, Box::new(vec![]));

    assert!(!edge.connects_to(&a));
    assert!(!edge.connects_to(&b));
}

#[test]
fn mst_graph_test_create_nodes() {
    let edges = vec![
        UndirectedEdge::new(1, 0, 1),
        UndirectedEdge::new(-1, 0, 2),
        UndirectedEdge::new(2, 2, 1),
    ];
    let expected_nodes = vec![
        Node::new(
            0,
            Box::new(vec![
                NodeNeighbor { weight: 1, neighbor: 1 },
                NodeNeighbor { weight: -1, neighbor: 2 },
            ]),
        ),
        Node::new(
            1,
            Box::new(vec![
                NodeNeighbor { weight: 1, neighbor: 0 },
                NodeNeighbor { weight: 2, neighbor: 2 },
            ]),
        ),
        Node::new(
            2,
            Box::new(vec![
                NodeNeighbor { weight: -1, neighbor: 0 },
                NodeNeighbor { weight: 2, neighbor: 1 },
            ]),
        ),
        Node::new(3, Box::new(vec![])),
    ];
    let nodes = Graph::create_nodes(4, &edges);
    for i in 0..nodes.len() {
        assert_eq!(nodes[i], expected_nodes[i]);
    }
}

#[test]
fn test_node_index_not_in_tree() {
    let edges = vec![
        UndirectedEdge::new(1, 0, 1),
        UndirectedEdge::new(-1, 0, 2),
        UndirectedEdge::new(2, 2, 1),
    ];
    let mut graph = Graph::new(Box::new(Graph::create_nodes(3, &edges)));

    let edge = UndirectedEdge::new(1, 0, 1);
    graph.mark_in_tree(0, 0);
    assert_eq!(graph.node_index_not_in_tree(&edge).unwrap(), 1);
    graph.mark_in_tree(1, 0);
    assert_eq!(graph.node_index_not_in_tree(&edge), None);
}

#[test]
fn it_only_uses_edges_crossing_the_cut() {
    let edges = vec![
        UndirectedEdge { weight: 1, a: 0, b: 1, crosses_cut: false },
        UndirectedEdge { weight: -1, a: 0, b: 2, crosses_cut: false },
        UndirectedEdge { weight: 2, a: 1, b: 2, crosses_cut: true },
    ];
    let finder = BruteForceMstGreedyFinder { edges: Box::new(edges) };

    let graph = Graph::new(Box::new(Graph::create_nodes(3, finder.edges())));
    let (node_index, _edge_weight) = finder.greedy_node_index(&graph);
    assert_eq!(node_index, 1);
}

#[test]
fn it_picks_the_min_edge_crossing_the_cut() {
    let edges = vec![
        UndirectedEdge { weight: 2, a: 0, b: 1, crosses_cut: true },
        UndirectedEdge { weight: 1, a: 1, b: 2, crosses_cut: true },
        UndirectedEdge { weight: -1, a: 2, b: 0, crosses_cut: false },
    ];
    let finder = BruteForceMstGreedyFinder { edges: Box::new(edges) };

    let mut graph = Graph::new(Box::new(Graph::create_nodes(3, finder.edges())));
    graph.mark_in_tree(1, 0);
    let (node_index, _edge_weight) = finder.greedy_node_index(&graph);
    assert_eq!(node_index, 2);
}

#[test]
fn it_removes_related_edges() {
    let edges = vec![
        UndirectedEdge { weight: 2, a: 0, b: 1, crosses_cut: true },
        UndirectedEdge { weight: 1, a: 1, b: 2, crosses_cut: true },
        UndirectedEdge { weight: -1, a: 2, b: 0, crosses_cut: false },
    ];
    let mut finder = BruteForceMstGreedyFinder { edges: Box::new(edges) };

    let mut graph = Graph::new(Box::new(Graph::create_nodes(3, finder.edges())));
    graph.mark_in_tree(0, 0);
    finder.remove_related_edges(&(Node { index: 1, in_tree: true, edges: Box::new(vec![]) }));
    assert_eq!(finder.edges().len(), 1);
}

#[test]
fn it_marks_remaining_related_edges_as_crossing_the_cut() {
    let edges = vec![
        UndirectedEdge { weight: 2, a: 0, b: 1, crosses_cut: true },
        UndirectedEdge { weight: 1, a: 0, b: 2, crosses_cut: true },
        UndirectedEdge { weight: -1, a: 2, b: 1, crosses_cut: false },
    ];
    let mut finder = BruteForceMstGreedyFinder { edges: Box::new(edges) };

    let mut graph = Graph::new(Box::new(Graph::create_nodes(3, finder.edges())));
    graph.mark_in_tree(0, 0);
    finder.remove_related_edges(&(Node { index: 1, in_tree: true, edges: Box::new(vec![]) }));
    assert!(finder.edges().iter().all(|edge| edge.crosses_cut));
}

#[test]
fn minimum_edge_scans_all_candidates() {
    let edges = vec![
        UndirectedEdge::new(5, 0, 1),
        UndirectedEdge::new(-3, 1, 2),
        UndirectedEdge::new(4, 2, 0),
    ];
    let finder = BruteForceMstGreedyFinder { edges: Box::new(edges) };
    assert_eq!(finder.minimum_edge().weight, -3);
    assert!(!finder.done());
}
