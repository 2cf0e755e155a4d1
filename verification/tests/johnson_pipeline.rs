use shortest_paths::bellman_ford::BellmanFord;
use shortest_paths::dijkstra::Dijkstra;
use shortest_paths::graph::DirectedEdge;
use shortest_paths::graph::PathLength::{Reach, Unreach};
use shortest_paths::graph_builder::build_nodes;
use shortest_paths::johnson::{compute_shortest_shortest_path, Johnson, NegativeCycleDetected};

fn example_one_edges() -> Vec<DirectedEdge> {
    vec![
        DirectedEdge::new(0, 1, -5),
        DirectedEdge::new(1, 2, 1),
        DirectedEdge::new(2, 3, 1),
        DirectedEdge::new(3, 4, -10000),
        DirectedEdge::new(3, 5, -7),
    ]
}

fn example_two_edges() -> Vec<DirectedEdge> {
    vec![
        DirectedEdge::new(0, 1, -2),
        DirectedEdge::new(1, 2, -1),
        DirectedEdge::new(2, 3, 2),
        DirectedEdge::new(3, 4, -5),
    ]
}

fn negative_cycle_edges() -> Vec<DirectedEdge> {
    vec![
        DirectedEdge::new(0, 1, 1),
        DirectedEdge::new(1, 2, -1),
        DirectedEdge::new(2, 0, -1),
    ]
}

#[test]
fn johnson_example_one() {
    let edges = example_one_edges();
    let mut johnson = Johnson::new(edges.len(), build_nodes(6, &edges));
    let (ok, shortest) = johnson.find_shortest_shortest_path();
    assert!(ok);
    assert_eq!(shortest.length(), -10003);
}

#[test]
fn johnson_example_two() {
    let edges = example_two_edges();
    let result = compute_shortest_shortest_path(6, &edges);
    assert_eq!(result, Ok(Reach(-6)));
}

#[test]
fn johnson_refuses_negative_cycle() {
    let edges = negative_cycle_edges();
    assert_eq!(compute_shortest_shortest_path(3, &edges), Err(NegativeCycleDetected));
    let mut johnson = Johnson::new(edges.len(), build_nodes(3, &edges));
    let (ok, shortest) = johnson.find_shortest_shortest_path();
    assert!(!ok);
    assert_eq!(shortest, Unreach);
}

#[test]
fn johnson_pipeline_idempotent() {
    let edges = example_one_edges();
    let first = compute_shortest_shortest_path(6, &edges);
    let second = compute_shortest_shortest_path(6, &edges);
    assert_eq!(first, second);
    assert_eq!(first, Ok(Reach(-10003)));
    // the edge list handed in is untouched between the runs
    assert_eq!(edges.len(), 5);
    assert_eq!(edges[3].weight, -10000);
}

#[test]
fn johnson_empty_graph() {
    let edges: Vec<DirectedEdge> = vec![];
    assert_eq!(compute_shortest_shortest_path(0, &edges), Ok(Unreach));
}

#[test]
fn johnson_disconnected_nodes_stay_unreachable() {
    // no pair is mutually reachable, so no finite distance may appear
    let edges: Vec<DirectedEdge> = vec![];
    assert_eq!(compute_shortest_shortest_path(4, &edges), Ok(Unreach));
}

#[test]
fn johnson_single_node() {
    let edges: Vec<DirectedEdge> = vec![];
    assert_eq!(compute_shortest_shortest_path(1, &edges), Ok(Unreach));
    let loop_edges = vec![DirectedEdge::new(0, 0, 2)];
    // a single non-negative self-loop is not a negative cycle, and the
    // only ordered pair (0, 0) is excluded from the aggregation
    assert_eq!(compute_shortest_shortest_path(1, &loop_edges), Ok(Unreach));
}

#[test]
fn reweighted_edges_nonnegative() {
    let edges = example_one_edges();
    let mut johnson = Johnson::new(edges.len(), build_nodes(6, &edges));
    assert!(johnson.bellman.compute_shortest_paths(None, &johnson.nodes));
    let solutions = johnson.bellman.path_solutions().clone();
    let relabelled = johnson.nodes_with_relabelled_edges(&solutions);
    for node in relabelled.iter() {
        for edge in node.out_edges.iter() {
            assert!(edge.weight >= 0);
        }
        for edge in node.in_edges.iter() {
            assert!(edge.weight >= 0);
        }
    }
}

#[test]
fn restoration_matches_bellman() {
    // For every source, restoring the reweighted Dijkstra distances
    // must reproduce an independent per-source Bellman-Ford run on the
    // original graph.
    let edges = example_two_edges();
    let nodes = build_nodes(6, &edges);
    let mut johnson = Johnson::new(edges.len(), build_nodes(6, &edges));
    assert!(johnson.bellman.compute_shortest_paths(None, &johnson.nodes));
    let solutions = johnson.bellman.path_solutions().clone();
    let relabelled = johnson.nodes_with_relabelled_edges(&solutions);
    let mut dijkstra = Dijkstra::new(&relabelled, edges.len());
    for s in 0..6 {
        dijkstra.compute_shortest_paths(s);
        let mut check = BellmanFord::new(6);
        check.compute_shortest_paths(Some(s), &nodes);
        for t in 0..6 {
            let restored = Johnson::restored_path_length(
                s,
                t,
                &solutions,
                dijkstra.shortest_paths[t],
            );
            assert_eq!(restored, check.path_solutions()[t]);
        }
    }
}
