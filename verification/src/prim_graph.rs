//! The minimum-spanning-tree exercise: an undirected graph whose nodes
//! are marked as they join the tree, edges marked as they come to
//! cross the cut, and a brute-force greedy edge finder.

use vstd::prelude::*;

verus! {

/// An undirected weighted edge, with a mark for crossing the cut
/// between tree and non-tree nodes.
#[derive(Debug, Clone, Copy)]
pub struct UndirectedEdge {
    pub weight: i32,
    pub a: i32,
    pub b: i32,
    pub crosses_cut: bool,
}

impl UndirectedEdge {
    pub fn new(weight: i32, a: i32, b: i32) -> (e: UndirectedEdge)
        ensures
            e.weight == weight && e.a == a && e.b == b && !e.crosses_cut,
    {
        UndirectedEdge { weight, a, b, crosses_cut: false }
    }

    /// Whether either endpoint is the given node.
    pub fn connects_to(&self, node: &Node) -> (r: bool)
        ensures
            r == (self.a == node.index || self.b == node.index),
    {
        self.a == node.index || self.b == node.index
    }

    /// Marks this edge as crossing the cut.
    pub fn mark_crossing(&mut self)
        ensures
            final(self).weight == old(self).weight,
            final(self).a == old(self).a,
            final(self).b == old(self).b,
            final(self).crosses_cut,
    {
        self.crosses_cut = true;
    }
}

/// One adjacency entry of a node: the far endpoint and the edge
/// weight.
#[derive(Debug, Clone, Copy)]
pub struct NodeNeighbor {
    pub weight: i32,
    pub neighbor: i32,
}

#[derive(Debug)]
pub struct Node {
    pub index: i32,
    pub in_tree: bool,
    pub edges: Box<Vec<NodeNeighbor>>,
}

impl Node {
    pub fn new(index: i32, edges: Box<Vec<NodeNeighbor>>) -> (n: Node)
        ensures
            n.index == index,
            n.edges == edges,
            !n.in_tree,
    {
        Node { index, edges, in_tree: false }
    }
}

/// Node equality for the tests: same index and same adjacency list,
/// with the tree mark left out.
pub open spec fn sp_node_eq(a: Node, b: Node) -> bool {
    &&& a.index == b.index
    &&& (*a.edges)@.len() == (*b.edges)@.len()
    &&& forall|i: int|
        0 <= i < (*a.edges)@.len() ==> (#[trigger] (*a.edges)@[i]).weight == (*b.edges)@[i].weight
            && (*a.edges)@[i].neighbor == (*b.edges)@[i].neighbor
}

impl PartialEq for Node {
    fn eq(&self, other: &Node) -> (r: bool) {
        if self.index != other.index {
            return false;
        }
        if self.edges.len() != other.edges.len() {
            return false;
        }
        let count = self.edges.len();
        let mut i: usize = 0;
        while i < count
            invariant
                count == (*self.edges)@.len(),
                count == (*other.edges)@.len(),
                i <= count,
                forall|k: int|
                    0 <= k < i ==> (#[trigger] (*self.edges)@[k]).weight == (*other.edges)@[k].weight
                        && (*self.edges)@[k].neighbor == (*other.edges)@[k].neighbor,
            decreases count - i,
        {
            if self.edges[i].weight != other.edges[i].weight {
                return false;
            }
            if self.edges[i].neighbor != other.edges[i].neighbor {
                return false;
            }
            i = i + 1;
        }
        true
    }
}

impl vstd::std_specs::cmp::PartialEqSpecImpl for Node {
    open spec fn obeys_eq_spec() -> bool {
        true
    }

    open spec fn eq_spec(&self, other: &Node) -> bool {
        sp_node_eq(*self, *other)
    }
}

#[derive(Debug)]
pub struct Graph {
    pub nodes: Box<Vec<Node>>,
    pub tree_weights: Box<Vec<i32>>,
    pub mst_cost: i64,
}

impl Graph {
    pub fn new(nodes: Box<Vec<Node>>) -> (g: Graph)
        ensures
            g.nodes == nodes,
            (*g.tree_weights)@.len() == 0,
            g.mst_cost == 0,
    {
        Graph { nodes, tree_weights: Box::new(Vec::new()), mst_cost: 0 }
    }

    pub fn node(&self, node_index: i32) -> (r: &Node)
        requires
            0 <= node_index < (*self.nodes)@.len(),
        ensures
            *r == (*self.nodes)@[node_index as int],
    {
        &(*self.nodes)[node_index as usize]
    }

    /// The first endpoint of the edge that is not yet in the tree, if
    /// any.
    pub fn node_index_not_in_tree(&self, edge: &UndirectedEdge) -> (r: Option<i32>)
        requires
            0 <= edge.a < (*self.nodes)@.len(),
            0 <= edge.b < (*self.nodes)@.len(),
        ensures
            r == (if !(*self.nodes)@[edge.a as int].in_tree {
                Some(edge.a)
            } else if !(*self.nodes)@[edge.b as int].in_tree {
                Some(edge.b)
            } else {
                None::<i32>
            }),
    {
        if !self.nodes[edge.a as usize].in_tree {
            return Some(edge.a);
        }
        if !self.nodes[edge.b as usize].in_tree {
            return Some(edge.b);
        }
        None
    }

    /// Adds a node to the tree with the weight of the edge that
    /// reached it; the node must not already be in the tree.
    pub fn mark_in_tree(&mut self, node_index: i32, edge_weight: i32)
        requires
            0 <= node_index < (*old(self).nodes)@.len(),
            !(*old(self).nodes)@[node_index as int].in_tree,
            i64::MIN <= old(self).mst_cost + edge_weight <= i64::MAX,
        ensures
            (*final(self).nodes)@.len() == (*old(self).nodes)@.len(),
            (*final(self).nodes)@[node_index as int].in_tree,
            (*final(self).nodes)@[node_index as int].index == (*old(self).nodes)@[node_index as int].index,
            (*final(self).nodes)@[node_index as int].edges == (*old(self).nodes)@[node_index as int].edges,
            forall|k: int|
                0 <= k < (*old(self).nodes)@.len() && k != node_index as int
                    ==> (*final(self).nodes)@[k] == (*old(self).nodes)@[k],
            (*final(self).tree_weights)@ == (*old(self).tree_weights)@.push(edge_weight),
            final(self).mst_cost == old(self).mst_cost + edge_weight,
    {
        let mut nodes_vec: Vec<Node> = Vec::new();
        core::mem::swap(&mut nodes_vec, &mut *self.nodes);
        nodes_vec[node_index as usize].in_tree = true;
        core::mem::swap(&mut nodes_vec, &mut *self.nodes);
        self.tree_weights.push(edge_weight);
        self.mst_cost = self.mst_cost + edge_weight as i64;
    }

    /// Builds the adjacency table: one node per index, each edge
    /// recorded at both of its endpoints, in input order.
    pub fn create_nodes(node_count: i32, edges: &Vec<UndirectedEdge>) -> (r: Vec<Node>)
        requires
            node_count >= 0,
            forall|k: int|
                0 <= k < edges@.len() ==> 0 <= (#[trigger] edges@[k]).a < node_count && 0
                    <= edges@[k].b < node_count,
        ensures
            r@.len() == node_count as int,
            forall|i: int|
                0 <= i < node_count as int ==> (#[trigger] r@[i]).index == i && !r@[i].in_tree
                    && (*r@[i].edges)@ == sp_adjacency(edges@, i),
    {
        let mut nodes: Vec<Node> = Vec::with_capacity(node_count as usize);
        let mut i: i32 = 0;
        while i < node_count
            invariant
                0 <= i <= node_count,
                nodes@.len() == i as int,
                forall|k: int|
                    0 <= k < i as int ==> (#[trigger] nodes@[k]).index == k && !nodes@[k].in_tree
                        && (*nodes@[k].edges)@ =~= Seq::<NodeNeighbor>::empty(),
            decreases node_count - i,
        {
            nodes.push(Node::new(i, Box::new(Vec::new())));
            i = i + 1;
        }
        let ecount = edges.len();
        let mut k: usize = 0;
        proof {
            assert(edges@.take(0) =~= Seq::<UndirectedEdge>::empty());
        }
        while k < ecount
            invariant
                k <= ecount,
                ecount == edges@.len(),
                nodes@.len() == node_count as int,
                forall|kk: int|
                    0 <= kk < edges@.len() ==> 0 <= (#[trigger] edges@[kk]).a < node_count && 0
                        <= edges@[kk].b < node_count,
                forall|idx: int|
                    0 <= idx < node_count as int ==> (#[trigger] nodes@[idx]).index == idx
                        && !nodes@[idx].in_tree && (*nodes@[idx].edges)@ == sp_adjacency(
                        edges@.take(k as int),
                        idx,
                    ),
            decreases ecount - k,
        {
            let edge = edges[k];
            let ghost pre = nodes@;
            let a = edge.a as usize;
            (*nodes[a].edges).push(NodeNeighbor { weight: edge.weight, neighbor: edge.b });
            let ghost mid = nodes@;
            let b = edge.b as usize;
            (*nodes[b].edges).push(NodeNeighbor { weight: edge.weight, neighbor: edge.a });
            proof {
                assert(edges@.take(k as int + 1).drop_last() =~= edges@.take(k as int));
                assert(edges@.take(k as int + 1).last() == edges@[k as int]);
                assert forall|idx: int|
                    0 <= idx < node_count as int implies (#[trigger] nodes@[idx]).index == idx
                        && !nodes@[idx].in_tree && (*nodes@[idx].edges)@ == sp_adjacency(
                        edges@.take(k as int + 1),
                        idx,
                    ) by {
                    if idx != a as int && idx != b as int {
                        assert(nodes@[idx] == pre[idx]);
                    }
                    if idx == a as int {
                        assert((*mid[idx].edges)@ == (*pre[idx].edges)@.push(
                            NodeNeighbor { weight: edge.weight, neighbor: edge.b },
                        ));
                        if idx != b as int {
                            assert(nodes@[idx] == mid[idx]);
                        }
                    }
                    if idx == b as int {
                        assert((*nodes@[idx].edges)@ == (*mid[idx].edges)@.push(
                            NodeNeighbor { weight: edge.weight, neighbor: edge.a },
                        ));
                        if idx != a as int {
                            assert(mid[idx] == pre[idx]);
                        }
                    }
                }
            }
            k = k + 1;
        }
        proof {
            assert(edges@.take(ecount as int) =~= edges@);
        }
        nodes
    }
}

/// The adjacency entries of node `i`: for each input edge touching
/// `i`, the far endpoint and the weight, with the entry for the `a`
/// side coming first on a self-loop.
pub open spec fn sp_adjacency(edges: Seq<UndirectedEdge>, i: int) -> Seq<NodeNeighbor>
    decreases edges.len(),
{
    if edges.len() == 0 {
        Seq::empty()
    } else {
        let p = sp_adjacency(edges.drop_last(), i);
        let e = edges.last();
        let p2 = if e.a == i {
            p.push(NodeNeighbor { weight: e.weight, neighbor: e.b })
        } else {
            p
        };
        if e.b == i {
            p2.push(NodeNeighbor { weight: e.weight, neighbor: e.a })
        } else {
            p2
        }
    }
}


/// The position of the first cut-crossing edge of minimal weight, or
/// a negative value when nothing crosses the cut.
pub open spec fn sp_min_cross(es: Seq<UndirectedEdge>) -> int
    decreases es.len(),
{
    if es.len() == 0 {
        -1
    } else {
        let m = sp_min_cross(es.drop_last());
        if !es.last().crosses_cut {
            m
        } else if m == -1 {
            es.len() - 1
        } else if es.last().weight < es[m].weight {
            es.len() - 1
        } else {
            m
        }
    }
}

/// Wherever something crosses the cut, the first minimal crossing
/// edge is within the sequence, crosses the cut, and is no heavier
/// than any crossing edge.
pub proof fn lemma_min_cross(es: Seq<UndirectedEdge>)
    requires
        exists|k: int| 0 <= k < es.len() && (#[trigger] es[k]).crosses_cut,
    ensures
        0 <= sp_min_cross(es) < es.len(),
        es[sp_min_cross(es)].crosses_cut,
        forall|k: int|
            0 <= k < es.len() && (#[trigger] es[k]).crosses_cut ==> es[sp_min_cross(es)].weight
                <= es[k].weight,
    decreases es.len(),
{
    let w = choose|k: int| 0 <= k < es.len() && (#[trigger] es[k]).crosses_cut;
    if w < es.len() - 1 {
        assert(es.drop_last()[w] == es[w]);
        lemma_min_cross(es.drop_last());
        assert forall|k: int|
            0 <= k < es.len() && (#[trigger] es[k]).crosses_cut implies es[sp_min_cross(
            es,
        )].weight <= es[k].weight by {
            if k < es.len() - 1 {
                assert(es.drop_last()[k] == es[k]);
            }
        }
    } else {
        if exists|k: int| 0 <= k < es.drop_last().len() && (#[trigger] es.drop_last()[k]).crosses_cut {
            lemma_min_cross(es.drop_last());
            assert forall|k: int|
                0 <= k < es.len() && (#[trigger] es[k]).crosses_cut implies es[sp_min_cross(
                es,
            )].weight <= es[k].weight by {
                if k < es.len() - 1 {
                    assert(es.drop_last()[k] == es[k]);
                }
            }
        } else {
            assert(sp_min_cross(es.drop_last()) == -1) by {
                lemma_min_cross_none(es.drop_last());
            }
            assert forall|k: int|
                0 <= k < es.len() && (#[trigger] es[k]).crosses_cut implies es[sp_min_cross(
                es,
            )].weight <= es[k].weight by {
                if k < es.len() - 1 {
                    assert(es.drop_last()[k] == es[k]);
                }
            }
        }
    }
}

proof fn lemma_min_cross_none(es: Seq<UndirectedEdge>)
    requires
        forall|k: int| 0 <= k < es.len() ==> !(#[trigger] es[k]).crosses_cut,
    ensures
        sp_min_cross(es) == -1,
    decreases es.len(),
{
    if es.len() > 0 {
        assert forall|k: int| 0 <= k < es.drop_last().len() implies !(#[trigger] es.drop_last()[k]).crosses_cut by {
            assert(es.drop_last()[k] == es[k]);
        }
        lemma_min_cross_none(es.drop_last());
    }
}

/// The edges that survive pruning around a node: crossing edges that
/// touch it leave.
pub open spec fn sp_retained(es: Seq<UndirectedEdge>, idx: int) -> Seq<UndirectedEdge>
    decreases es.len(),
{
    if es.len() == 0 {
        Seq::empty()
    } else {
        let p = sp_retained(es.drop_last(), idx);
        let e = es.last();
        if e.crosses_cut && (e.a == idx || e.b == idx) {
            p
        } else {
            p.push(e)
        }
    }
}

/// Every surviving edge that touches the node is marked as crossing
/// the cut.
pub open spec fn sp_marked(es: Seq<UndirectedEdge>, idx: int) -> Seq<UndirectedEdge> {
    es.map_values(
        |e: UndirectedEdge| if e.a == idx || e.b == idx {
            UndirectedEdge { crosses_cut: true, ..e }
        } else {
            e
        },
    )
}

/// A source of candidate edges for the greedy tree-growing step.
pub trait MstGreedyFinder: Sized {
    spec fn edges_view(&self) -> Seq<UndirectedEdge>;

    fn edges(&self) -> (r: &Vec<UndirectedEdge>)
        ensures
            r@ == self.edges_view(),
    ;

    /// No candidate edges remain.
    fn done(&self) -> (r: bool)
        ensures
            r == (self.edges_view().len() == 0),
    {
        self.edges().is_empty()
    }

    /// The lightest candidate edge.
    fn minimum_edge(&self) -> (r: UndirectedEdge)
        requires
            self.edges_view().len() > 0,
        ensures
            self.edges_view().contains(r),
            forall|k: int|
                0 <= k < self.edges_view().len() ==> r.weight <= (#[trigger] self.edges_view()[k]).weight,
    ;

    /// The node reached by the lightest cut-crossing edge, and that
    /// edge's weight.
    fn greedy_node_index(&self, graph: &Graph) -> (r: (i32, i32))
        requires
            exists|k: int|
                0 <= k < self.edges_view().len() && (#[trigger] self.edges_view()[k]).crosses_cut,
            forall|k: int|
                0 <= k < self.edges_view().len() ==> 0 <= (#[trigger] self.edges_view()[k]).a < (*graph.nodes)@.len()
                    && 0 <= self.edges_view()[k].b < (*graph.nodes)@.len(),
            forall|k: int|
                0 <= k < self.edges_view().len() && (#[trigger] self.edges_view()[k]).crosses_cut
                    ==> !(*graph.nodes)@[self.edges_view()[k].a as int].in_tree
                    || !(*graph.nodes)@[self.edges_view()[k].b as int].in_tree,
        ensures
            ({
                let e = self.edges_view()[sp_min_cross(self.edges_view())];
                r.1 == e.weight && r.0 == (if !(*graph.nodes)@[e.a as int].in_tree {
                    e.a
                } else {
                    e.b
                })
            }),
    ;

    /// Removes the crossing edges that connect to the node, then marks
    /// every remaining edge that connects to it as crossing the cut.
    fn remove_related_edges(&mut self, node: &Node)
        ensures
            final(self).edges_view() == sp_marked(
                sp_retained(old(self).edges_view(), node.index as int),
                node.index as int,
            ),
    ;
}

/// The plain finder: a flat candidate list scanned in full at each
/// step.
pub struct BruteForceMstGreedyFinder {
    pub edges: Box<Vec<UndirectedEdge>>,
}

impl MstGreedyFinder for BruteForceMstGreedyFinder {
    open spec fn edges_view(&self) -> Seq<UndirectedEdge> {
        (*self.edges)@
    }

    fn edges(&self) -> (r: &Vec<UndirectedEdge>) {
        &*(self.edges)
    }

    fn minimum_edge(&self) -> (r: UndirectedEdge) {
        let ghost es = (*self.edges)@;
        let count = self.edges.len();
        let mut m: usize = 0;
        let mut j: usize = 1;
        while j < count
            invariant
                es == (*self.edges)@,
                count == es.len(),
                count > 0,
                1 <= j <= count,
                m < j,
                forall|k: int| 0 <= k < j ==> es[m as int].weight <= (#[trigger] es[k]).weight,
            decreases count - j,
        {
            if self.edges[j].weight < self.edges[m].weight {
                m = j;
            }
            j = j + 1;
        }
        self.edges[m]
    }

    fn greedy_node_index(&self, graph: &Graph) -> (r: (i32, i32)) {
        let ghost es = (*self.edges)@;
        let count = self.edges.len();
        let mut found: usize = 0;
        let mut seen = false;
        let mut j: usize = 0;
        while j < count
            invariant
                es == (*self.edges)@,
                count == es.len(),
                j <= count,
                seen ==> found < j && found as int == sp_min_cross(es.take(j as int)),
                !seen ==> sp_min_cross(es.take(j as int)) == -1,
            decreases count - j,
        {
            proof {
                assert(es.take(j as int + 1).drop_last() =~= es.take(j as int));
                assert(es.take(j as int + 1).last() == es[j as int]);
            }
            if self.edges[j].crosses_cut {
                if !seen {
                    seen = true;
                    found = j;
                } else if self.edges[j].weight < self.edges[found].weight {
                    found = j;
                }
            }
            j = j + 1;
        }
        proof {
            assert(es.take(count as int) =~= es);
            lemma_min_cross(es);
        }
        let min_edge = self.edges[found];
        let node_index = match graph.node_index_not_in_tree(&min_edge) {
            Some(index) => index,
            None => vstd::pervasive::unreached(),
        };
        (node_index, min_edge.weight)
    }

    fn remove_related_edges(&mut self, node: &Node) {
        let ghost es0 = (*self.edges)@;
        let idx = node.index;
        let count = self.edges.len();
        let mut kept: Vec<UndirectedEdge> = Vec::with_capacity(count);
        let mut j: usize = 0;
        proof {
            assert(es0.take(0) =~= Seq::<UndirectedEdge>::empty());
        }
        while j < count
            invariant
                es0 == (*self.edges)@,
                count == es0.len(),
                j <= count,
                idx == node.index,
                kept@ == sp_retained(es0.take(j as int), idx as int),
            decreases count - j,
        {
            proof {
                assert(es0.take(j as int + 1).drop_last() =~= es0.take(j as int));
                assert(es0.take(j as int + 1).last() == es0[j as int]);
            }
            let edge = self.edges[j];
            if !(edge.crosses_cut && edge.connects_to(node)) {
                kept.push(edge);
            }
            j = j + 1;
        }
        proof {
            assert(es0.take(count as int) =~= es0);
        }
        let ghost kept_view = kept@;
        let kcount = kept.len();
        let mut i: usize = 0;
        while i < kcount
            invariant
                kcount == kept@.len(),
                kept@.len() == kept_view.len(),
                i <= kcount,
                idx == node.index,
                forall|k: int|
                    0 <= k < i ==> kept@[k] == sp_marked(kept_view, idx as int)[k],
                forall|k: int| i <= k < kcount ==> kept@[k] == kept_view[k],
            decreases kcount - i,
        {
            let ghost pre = kept@;
            if kept[i].connects_to(node) {
                kept[i].mark_crossing();
            }
            proof {
                assert forall|k: int|
                    0 <= k < i as int + 1 implies kept@[k] == sp_marked(kept_view, idx as int)[k] by {
                    if k < i as int {
                        assert(kept@[k] == pre[k]);
                    } else {
                        assert(sp_marked(kept_view, idx as int)[k] == (
                        if kept_view[k].a == idx as int || kept_view[k].b == idx as int {
                            UndirectedEdge { crosses_cut: true, ..kept_view[k] }
                        } else {
                            kept_view[k]
                        }));
                    }
                }
                assert forall|k: int| i as int + 1 <= k < kcount implies kept@[k] == kept_view[k] by {
                    assert(kept@[k] == pre[k]);
                }
            }
            i = i + 1;
        }
        proof {
            assert(kept@ =~= sp_marked(kept_view, idx as int));
        }
        *self.edges = kept;
    }
}


} // verus!
