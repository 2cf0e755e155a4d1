use shortest_paths::bellman_ford::BellmanFord;
use shortest_paths::dijkstra::Dijkstra;
use shortest_paths::graph::DirectedEdge;
use shortest_paths::graph::PathLength::Reach;
use shortest_paths::graph_builder::build_nodes;

#[test]
fn test_positive_weights() {
    let edges = vec![
        DirectedEdge::new(0, 1, 3),
        DirectedEdge::new(0, 2, 2),
        DirectedEdge::new(2, 3, 1),
    ];
    let edge_count = edges.len();
    let nodes = build_nodes(4, &edges);
    let mut dijkstra = Dijkstra::new(&nodes, edge_count);
    dijkstra.compute_shortest_paths(0);
    assert_eq!(dijkstra.shortest_paths[0], Reach(0));
    assert_eq!(dijkstra.shortest_paths[1], Reach(3));
    assert_eq!(dijkstra.shortest_paths[2], Reach(2));
    assert_eq!(dijkstra.shortest_paths[3], Reach(3));
}

#[test]
fn dijkstra_matches_independent_search() {
    // On a non-negative graph the engine must agree, node by node,
    // with an independent exhaustive relaxation from the same source.
    let edges = vec![
        DirectedEdge::new(0, 1, 4),
        DirectedEdge::new(0, 2, 1),
        DirectedEdge::new(2, 1, 2),
        DirectedEdge::new(1, 3, 1),
        DirectedEdge::new(2, 3, 5),
        DirectedEdge::new(3, 4, 0),
    ];
    let edge_count = edges.len();
    let nodes = build_nodes(6, &edges);
    let mut dijkstra = Dijkstra::new(&nodes, edge_count);
    dijkstra.compute_shortest_paths(0);
    let mut bellman = BellmanFord::new(6);
    bellman.compute_shortest_paths(Some(0), &nodes);
    assert!(!bellman.has_negative_cycle);
    for v in 0..6 {
        assert_eq!(dijkstra.shortest_paths[v], bellman.path_solutions()[v]);
    }
}

#[test]
fn longest_path_is_maximum() {
    let edges = vec![DirectedEdge::new(0, 1, 7), DirectedEdge::new(1, 2, 1)];
    let edge_count = edges.len();
    let nodes = build_nodes(3, &edges);
    let mut dijkstra = Dijkstra::new(&nodes, edge_count);
    dijkstra.compute_shortest_paths(0);
    assert_eq!(dijkstra.longest_path(), Reach(8));
}
