use shortest_paths::bellman_ford::BellmanFord;
use shortest_paths::graph::DirectedEdge;
use shortest_paths::graph::Node;
use shortest_paths::graph::PathLength::{Reach, Unreach};
use shortest_paths::graph_builder::build_nodes;

fn example_one() -> (usize, usize, Vec<Node>) {
    let edges = vec![
        DirectedEdge::new(0, 1, -5),
        DirectedEdge::new(1, 2, 1),
        DirectedEdge::new(2, 3, 1),
        DirectedEdge::new(3, 4, -10000),
        DirectedEdge::new(3, 5, -7),
    ];
    let count = edges.len();
    (6, count, build_nodes(6, &edges))
}

fn example_two() -> (usize, usize, Vec<Node>) {
    let edges = vec![
        DirectedEdge::new(0, 1, -2),
        DirectedEdge::new(1, 2, -1),
        DirectedEdge::new(2, 3, 2),
        DirectedEdge::new(3, 4, -5),
    ];
    let count = edges.len();
    (6, count, build_nodes(6, &edges))
}

fn negative_cycle() -> (usize, usize, Vec<Node>) {
    let edges = vec![
        DirectedEdge::new(0, 1, 1),
        DirectedEdge::new(1, 2, -1),
        DirectedEdge::new(2, 0, -1),
    ];
    let count = edges.len();
    (3, count, build_nodes(3, &edges))
}

#[test]
fn test_example_one() {
    let (node_count, _edge_count, nodes) = example_one();
    let mut bellman_ford = BellmanFord::new(node_count);
    bellman_ford.compute_shortest_paths(Some(0), &nodes);
    assert!(!bellman_ford.has_negative_cycle);
    assert_eq!(bellman_ford.path_solutions()[0], Reach(0));
    assert_eq!(bellman_ford.path_solutions()[1], Reach(-5));
    assert_eq!(bellman_ford.path_solutions()[2], Reach(-4));
    assert_eq!(bellman_ford.path_solutions()[3], Reach(-3));
    assert_eq!(bellman_ford.path_solutions()[4], Reach(-10003));
    assert_eq!(bellman_ford.path_solutions()[5], Reach(-10));
}

#[test]
fn test_exmaple_two() {
    let (node_count, _edge_count, nodes) = example_two();
    let mut bellman_ford = BellmanFord::new(node_count);
    bellman_ford.compute_shortest_paths(Some(0), &nodes);
    assert!(!bellman_ford.has_negative_cycle);
    assert_eq!(bellman_ford.path_solutions()[0], Reach(0));
    assert_eq!(bellman_ford.path_solutions()[1], Reach(-2));
    assert_eq!(bellman_ford.path_solutions()[2], Reach(-3));
    assert_eq!(bellman_ford.path_solutions()[3], Reach(-1));
    assert_eq!(bellman_ford.path_solutions()[4], Reach(-6));
    assert_eq!(bellman_ford.path_solutions()[5], Unreach);
}

#[test]
fn test_start_at_zero() {
    let (node_count, _edge_count, nodes) = example_two();
    let mut bellman_ford = BellmanFord::new(node_count);
    bellman_ford.compute_shortest_paths(None, &nodes);
    assert!(!bellman_ford.has_negative_cycle);
    assert_eq!(bellman_ford.path_solutions()[0], Reach(0));
    assert_eq!(bellman_ford.path_solutions()[1], Reach(-2));
    assert_eq!(bellman_ford.path_solutions()[2], Reach(-3));
    assert_eq!(bellman_ford.path_solutions()[3], Reach(-1));
    assert_eq!(bellman_ford.path_solutions()[4], Reach(-6));
    assert_eq!(bellman_ford.path_solutions()[5], Reach(0));
}

#[test]
fn test_negative_cycle() {
    let (node_count, _edge_count, nodes) = negative_cycle();
    let mut bellman_ford = BellmanFord::new(node_count);
    bellman_ford.compute_shortest_paths(Some(0), &nodes);
    println!("{:?}", bellman_ford.path_solutions());
    assert!(bellman_ford.has_negative_cycle);
}

#[test]
fn triangle_inequality_after_run() {
    let (node_count, _edge_count, nodes) = example_two();
    let mut bellman_ford = BellmanFord::new(node_count);
    bellman_ford.compute_shortest_paths(Some(0), &nodes);
    assert!(!bellman_ford.has_negative_cycle);
    let dist = bellman_ford.path_solutions();
    for node in nodes.iter() {
        for edge in node.in_edges.iter() {
            let through = dist[edge.a].cat(edge);
            assert_ne!(dist[edge.b].cmp(&through), std::cmp::Ordering::Greater);
        }
    }
}
