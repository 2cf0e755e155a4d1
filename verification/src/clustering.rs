//! Greedy clustering state: the graph under clustering and the
//! disjoint sets of its nodes.

use vstd::prelude::*;
use crate::cluster_graph::{Graph, Node};
use crate::union_find::UnionFind;

verus! {

pub struct Clustering {
    pub graph: Graph,
    pub clusters: Vec<UnionFind<Node>>,
}

} // verus!
