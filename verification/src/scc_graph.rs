//! The implication graph's data model: directed edges and nodes
//! augmented with the bookkeeping fields of a strongly-connected
//! component computation.

use vstd::prelude::*;

verus! {

#[derive(Debug, Clone, Copy)]
pub struct DirectedEdge {
    pub a: usize,
    pub b: usize,
}

impl DirectedEdge {
    pub fn new(a: usize, b: usize) -> (e: DirectedEdge)
        ensures
            e.a == a && e.b == b,
    {
        DirectedEdge { a, b }
    }
}

#[derive(Clone, Copy)]
pub struct NodeBuilder {
    pub index: usize,
    pub edge_count: usize,
}

impl NodeBuilder {
    pub fn new(index: usize) -> (b: NodeBuilder)
        ensures
            b.index == index && b.edge_count == 0,
    {
        NodeBuilder { index, edge_count: 0 }
    }

    pub fn to_node(&self) -> (n: Node)
        ensures
            n.index == self.index,
            n.edges@.len() == 0,
            n.scc_visit == -1 && n.scc_lowlink == -1 && !n.scc_on_stack,
    {
        Node::new(self)
    }
}

#[derive(Debug)]
pub struct Node {
    pub index: usize,
    pub edges: Vec<DirectedEdge>,
    pub scc_visit: i32,
    pub scc_lowlink: i32,
    pub scc_on_stack: bool,
}

impl Node {
    pub fn new(builder: &NodeBuilder) -> (n: Node)
        ensures
            n.index == builder.index,
            n.edges@.len() == 0,
            n.scc_visit == -1 && n.scc_lowlink == -1 && !n.scc_on_stack,
    {
        Node {
            index: builder.index,
            edges: Vec::<DirectedEdge>::with_capacity(builder.edge_count),
            scc_visit: -1,
            scc_lowlink: -1,
            scc_on_stack: false,
        }
    }

    pub fn build(index: usize, edges: Vec<DirectedEdge>) -> (n: Node)
        ensures
            n.index == index,
            n.edges == edges,
            n.scc_visit == -1 && n.scc_lowlink == -1 && !n.scc_on_stack,
    {
        Node { index, edges, scc_visit: -1, scc_lowlink: -1, scc_on_stack: false }
    }

    /// The component bookkeeping of this node.
    pub fn scc_data(&self) -> (r: (i32, i32, bool))
        ensures
            r == (self.scc_visit, self.scc_lowlink, self.scc_on_stack),
    {
        (self.scc_visit, self.scc_lowlink, self.scc_on_stack)
    }

    /// The identifier of the component this node was assigned to.
    pub fn scc_index(&self) -> (r: i32)
        ensures
            r == self.scc_lowlink,
    {
        self.scc_lowlink
    }
}

} // verus!
