//! The clustering exercise's graph: a plain node table addressed by
//! signed indices.

use vstd::prelude::*;

verus! {

/// A node of the clustering graph.
#[derive(Debug, Clone, Copy, PartialEq, Eq, Structural)]
pub struct Node {
    pub index: i32,
}

impl Node {
    pub fn new(index: i32) -> (n: Node)
        ensures
            n.index == index,
    {
        Node { index }
    }
}

pub struct Graph {
    pub nodes: Vec<Node>,
}

impl Graph {
    pub fn new(nodes: Vec<Node>) -> (g: Graph)
        ensures
            g.nodes == nodes,
    {
        Graph { nodes }
    }

    /// One node per index, in order.
    pub fn create_nodes(node_count: i32) -> (r: Vec<Node>)
        requires
            node_count >= 0,
        ensures
            r@.len() == node_count as int,
            forall|k: int| 0 <= k < node_count as int ==> (#[trigger] r@[k]).index == k,
    {
        let mut nodes: Vec<Node> = Vec::with_capacity(node_count as usize);
        let mut i: i32 = 0;
        while i < node_count
            invariant
                0 <= i <= node_count,
                nodes@.len() == i as int,
                forall|k: int| 0 <= k < i as int ==> (#[trigger] nodes@[k]).index == k,
            decreases node_count - i,
        {
            nodes.push(Node::new(i));
            i = i + 1;
        }
        nodes
    }
}

} // verus!
