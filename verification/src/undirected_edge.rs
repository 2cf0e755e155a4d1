//! Weighted undirected edges between clustering-graph nodes.

use vstd::prelude::*;
use crate::cluster_graph::Node;

verus! {

#[derive(Debug, Clone)]
pub struct UndirectedEdge {
    pub weight: i32,
    pub a: u32,
    pub b: u32,
}

impl UndirectedEdge {
    pub fn new(weight: i32, a: u32, b: u32) -> (e: UndirectedEdge)
        ensures
            e.weight == weight && e.a == a && e.b == b,
    {
        UndirectedEdge { weight, a, b }
    }

    /// Whether either endpoint is the given node's index (compared
    /// after conversion to the edge's unsigned index space).
    pub fn connects_to(&self, node: &Node) -> (r: bool)
        ensures
            r == (self.a == node.index as u32 || self.b == node.index as u32),
    {
        let index = #[verifier::truncate] (node.index as u32);
        self.a == index || self.b == index
    }
}

} // verus!
