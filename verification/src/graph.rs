//! The graph model for the shortest-path engines: directed edges, nodes
//! with split out/in adjacency, and the reachability-aware distance
//! value `PathLength`.

use vstd::prelude::*;

verus! {

/// A directed edge from node `a` to node `b`, with a signed weight.
#[derive(Debug, Clone, Copy)]
pub struct DirectedEdge {
    pub weight: i32,
    pub a: usize,
    pub b: usize,
}

impl DirectedEdge {
    pub fn new(a: usize, b: usize, weight: i32) -> (e: DirectedEdge)
        ensures
            e.a == a && e.b == b && e.weight == weight,
    {
        DirectedEdge { weight, a, b }
    }
}

/// A signed distance that distinguishes "reachable at this cost" from
/// "not reachable at all"; `Unreach` is never encoded as a sentinel
/// integer.
#[derive(Debug, Clone, Copy, PartialEq, Eq, Structural)]
pub enum PathLength {
    Reach(i32),
    Unreach,
}

impl View for PathLength {
    type V = Option<int>;

    open spec fn view(&self) -> Option<int> {
        match *self {
            PathLength::Reach(v) => Some(v as int),
            PathLength::Unreach => None,
        }
    }
}

/// The view of a distance vector: each entry as `Some(value)` or `None`.
pub open spec fn paths_view(s: Seq<PathLength>) -> Seq<Option<int>> {
    s.map_values(|p: PathLength| p@)
}

/// `a <= b` in the total order on distances: finite values order by
/// their integer, and an unreachable distance is the unique maximum.
pub open spec fn sp_le(a: Option<int>, b: Option<int>) -> bool {
    match (a, b) {
        (_, None) => true,
        (None, Some(_)) => false,
        (Some(x), Some(y)) => x <= y,
    }
}

/// Strict order on distances.
pub open spec fn sp_lt(a: Option<int>, b: Option<int>) -> bool {
    sp_le(a, b) && a != b
}

/// The minimum of two distances; on a tie the left operand is kept.
pub open spec fn sp_min(a: Option<int>, b: Option<int>) -> Option<int> {
    if sp_le(a, b) {
        a
    } else {
        b
    }
}

/// Extending a path by an edge of weight `w`.
pub open spec fn sp_cat(p: Option<int>, w: int) -> Option<int> {
    match p {
        Some(v) => Some(v + w),
        None => None,
    }
}

/// Distance addition; any unreachable operand propagates.
pub open spec fn sp_add(a: Option<int>, b: Option<int>) -> Option<int> {
    match (a, b) {
        (Some(x), Some(y)) => Some(x + y),
        _ => None,
    }
}

/// Distance subtraction; any unreachable operand propagates.
pub open spec fn sp_sub(a: Option<int>, b: Option<int>) -> Option<int> {
    match (a, b) {
        (Some(x), Some(y)) => Some(x - y),
        _ => None,
    }
}

/// The finite value held by a distance known to be reachable.
pub open spec fn sp_fin(p: Option<int>) -> int {
    p->Some_0
}

/// Every finite entry of `s` lies in `[-m, m]`.
pub open spec fn sp_vals_bounded(s: Seq<Option<int>>, m: int) -> bool {
    forall|v: int|
        0 <= v < s.len() ==> match #[trigger] s[v] {
            Some(x) => -m <= x <= m,
            None => true,
        }
}

impl PathLength {
    /// Extends this path by one edge: `Reach(v)` becomes
    /// `Reach(v + weight)`, and `Unreach` stays `Unreach`.
    pub fn cat(self, edge: &DirectedEdge) -> (r: PathLength)
        requires
            self@ matches Some(v) ==> i32::MIN <= v + edge.weight <= i32::MAX,
        ensures
            r@ == sp_cat(self@, edge.weight as int),
    {
        match self {
            PathLength::Reach(self_value) => PathLength::Reach(self_value + edge.weight),
            PathLength::Unreach => PathLength::Unreach,
        }
    }

    /// The total order of distances, with `Unreach` as the maximum.
    pub fn cmp(&self, other: &PathLength) -> (r: core::cmp::Ordering)
        ensures
            r == core::cmp::Ordering::Less <==> sp_lt(self@, other@),
            r == core::cmp::Ordering::Equal <==> self@ == other@,
            r == core::cmp::Ordering::Greater <==> sp_lt(other@, self@),
    {
        match (*self, *other) {
            (PathLength::Reach(a), PathLength::Reach(b)) => {
                if a < b {
                    core::cmp::Ordering::Less
                } else if a == b {
                    core::cmp::Ordering::Equal
                } else {
                    core::cmp::Ordering::Greater
                }
            },
            (PathLength::Unreach, PathLength::Unreach) => core::cmp::Ordering::Equal,
            (PathLength::Unreach, _) => core::cmp::Ordering::Greater,
            (_, PathLength::Unreach) => core::cmp::Ordering::Less,
        }
    }

    /// The smaller of two distances; on a tie, `self`.
    pub fn min(self, other: PathLength) -> (r: PathLength)
        ensures
            r@ == sp_min(self@, other@),
    {
        match self.cmp(&other) {
            core::cmp::Ordering::Greater => other,
            _ => self,
        }
    }

    /// Distance addition, defined only over two finite values; an
    /// `Unreach` operand propagates.
    pub fn add(self, rhs: PathLength) -> (r: PathLength)
        requires
            self@ matches Some(x) ==> (rhs@ matches Some(y) ==> i32::MIN <= x + y <= i32::MAX),
        ensures
            r@ == sp_add(self@, rhs@),
    {
        match (self, rhs) {
            (PathLength::Reach(a), PathLength::Reach(b)) => PathLength::Reach(a + b),
            _ => PathLength::Unreach,
        }
    }

    /// Distance subtraction, defined only over two finite values; an
    /// `Unreach` operand propagates.
    pub fn sub(self, rhs: PathLength) -> (r: PathLength)
        requires
            self@ matches Some(x) ==> (rhs@ matches Some(y) ==> i32::MIN <= x - y <= i32::MAX),
        ensures
            r@ == sp_sub(self@, rhs@),
    {
        match (self, rhs) {
            (PathLength::Reach(a), PathLength::Reach(b)) => PathLength::Reach(a - b),
            _ => PathLength::Unreach,
        }
    }

    /// The raw finite distance. Calling this on `Unreach` is a contract
    /// violation, not a recoverable condition.
    pub fn length(&self) -> (r: i32)
        requires
            self@ matches Some(_v),
        ensures
            self@ == Some(r as int),
    {
        match *self {
            PathLength::Reach(v) => v,
            PathLength::Unreach => vstd::pervasive::unreached(),
        }
    }
}

/// The order on distances is reflexive.
pub proof fn lemma_order_reflexive(a: Option<int>)
    ensures
        sp_le(a, a),
{
}

/// The order on distances is antisymmetric.
pub proof fn lemma_order_antisymmetric(a: Option<int>, b: Option<int>)
    requires
        sp_le(a, b),
        sp_le(b, a),
    ensures
        a == b,
{
}

/// The order on distances is transitive.
pub proof fn lemma_order_transitive(a: Option<int>, b: Option<int>, c: Option<int>)
    requires
        sp_le(a, b),
        sp_le(b, c),
    ensures
        sp_le(a, c),
{
}

/// The order on distances is total: any two distances compare.
pub proof fn lemma_order_total(a: Option<int>, b: Option<int>)
    ensures
        sp_le(a, b) || sp_le(b, a),
{
}

/// An unreachable distance compares strictly greater than every finite
/// one.
pub proof fn lemma_unreach_is_maximum(x: int)
    ensures
        sp_lt(Some(x), None::<int>),
{
}

/// Finite distances compare exactly as their wrapped integers.
pub proof fn lemma_reach_order_matches_int(x: int, y: int)
    ensures
        sp_le(Some(x), Some(y)) <==> x <= y,
        sp_lt(Some(x), Some(y)) <==> x < y,
{
}

/// A pending entry of the Dijkstra priority structure: an edge tagged
/// with the cumulative path length to its target.
#[derive(Debug, Clone, Copy, PartialEq, Eq, Structural)]
pub struct DijkstraEdge {
    pub path_length: i32,
    pub a: usize,
    pub b: usize,
}

impl DijkstraEdge {
    pub fn new(length_to_edge_source: i32, edge: &DirectedEdge) -> (r: DijkstraEdge)
        requires
            i32::MIN <= length_to_edge_source + edge.weight <= i32::MAX,
        ensures
            r.path_length == length_to_edge_source + edge.weight,
            r.a == edge.a,
            r.b == edge.b,
    {
        DijkstraEdge {
            path_length: length_to_edge_source + edge.weight,
            a: edge.a,
            b: edge.b,
        }
    }
}

/// Sizing record for one node, filled during the counting pass of graph
/// construction.
pub struct NodeBuilder {
    pub index: usize,
    pub outgoing_edge_count: usize,
    pub incoming_edge_count: usize,
}

impl NodeBuilder {
    pub fn new(index: usize) -> (b: NodeBuilder)
        ensures
            b.index == index && b.outgoing_edge_count == 0 && b.incoming_edge_count == 0,
    {
        NodeBuilder { index, outgoing_edge_count: 0, incoming_edge_count: 0 }
    }

    pub fn to_node(&self) -> (n: Node)
        ensures
            n.index == self.index,
            n.out_edges@ =~= Seq::<DirectedEdge>::empty(),
            n.in_edges@ =~= Seq::<DirectedEdge>::empty(),
    {
        Node::new(self)
    }
}

/// A node with its index and its ordered outgoing and incoming edges.
#[derive(Debug)]
pub struct Node {
    pub index: usize,
    pub out_edges: Vec<DirectedEdge>,
    pub in_edges: Vec<DirectedEdge>,
}

impl Node {
    pub fn new(builder: &NodeBuilder) -> (n: Node)
        ensures
            n.index == builder.index,
            n.out_edges@ =~= Seq::<DirectedEdge>::empty(),
            n.in_edges@ =~= Seq::<DirectedEdge>::empty(),
    {
        Node {
            index: builder.index,
            out_edges: Vec::<DirectedEdge>::with_capacity(builder.outgoing_edge_count),
            in_edges: Vec::<DirectedEdge>::with_capacity(builder.incoming_edge_count),
        }
    }
}

/// `e` is an edge of the graph: its target is in range and the edge is
/// recorded in the target's incoming adjacency.
pub open spec fn edge_in_graph(nodes: Seq<Node>, e: DirectedEdge) -> bool {
    e.b < nodes.len() && nodes[e.b as int].in_edges@.contains(e)
}

/// The graph invariant: node indices match positions, every edge
/// endpoint is a valid index, incoming edges point at their holder,
/// and every outgoing edge is also recorded at its target.
pub open spec fn wf_nodes(nodes: Seq<Node>) -> bool {
    &&& forall|i: int| 0 <= i < nodes.len() ==> (#[trigger] nodes[i].index) == i
    &&& forall|i: int, j: int|
        0 <= i < nodes.len() && 0 <= j < nodes[i].in_edges@.len() ==> {
            let e = #[trigger] nodes[i].in_edges@[j];
            e.b == i && e.a < nodes.len()
        }
    &&& forall|i: int, j: int|
        0 <= i < nodes.len() && 0 <= j < nodes[i].out_edges@.len() ==> {
            let e = #[trigger] nodes[i].out_edges@[j];
            e.a == i && e.b < nodes.len() && nodes[e.b as int].in_edges@.contains(e)
        }
}

/// The outgoing adjacency of the graph, node by node.
pub open spec fn sp_outs(nodes: Seq<Node>) -> Seq<Seq<DirectedEdge>> {
    nodes.map_values(|nd: Node| nd.out_edges@)
}

/// The incoming adjacency of the graph, node by node.
pub open spec fn sp_ins(nodes: Seq<Node>) -> Seq<Seq<DirectedEdge>> {
    nodes.map_values(|nd: Node| nd.in_edges@)
}

/// Well-formedness of an incoming adjacency on its own: every entry of
/// node `v`'s list ends at `v` and starts at a valid index.
pub open spec fn ins_wf(ins: Seq<Seq<DirectedEdge>>) -> bool {
    forall|v: int, j: int|
        0 <= v < ins.len() && 0 <= j < ins[v].len() ==> {
            let e = #[trigger] ins[v][j];
            e.b == v && e.a < ins.len()
        }
}

/// `e` is an edge of the incoming adjacency.
pub open spec fn edge_in_ins(ins: Seq<Seq<DirectedEdge>>, e: DirectedEdge) -> bool {
    e.b < ins.len() && ins[e.b as int].contains(e)
}

/// A well-formed graph's incoming adjacency is well-formed on its own.
pub proof fn lemma_wf_ins(nodes: Seq<Node>)
    requires
        wf_nodes(nodes),
    ensures
        ins_wf(sp_ins(nodes)),
        sp_ins(nodes).len() == nodes.len(),
{
    assert forall|v: int, j: int|
        0 <= v < sp_ins(nodes).len() && 0 <= j < sp_ins(nodes)[v].len() implies {
        let e = #[trigger] sp_ins(nodes)[v][j];
        e.b == v && e.a < sp_ins(nodes).len()
    } by {
        assert(sp_ins(nodes)[v] == nodes[v].in_edges@);
    }
}

/// A non-empty chain of edges of the graph, each ending where the next
/// begins.
pub open spec fn sp_is_path(ins: Seq<Seq<DirectedEdge>>, es: Seq<DirectedEdge>) -> bool {
    &&& es.len() > 0
    &&& forall|i: int| 0 <= i < es.len() ==> edge_in_ins(ins, #[trigger] es[i])
    &&& forall|i: int| 0 <= i < es.len() - 1 ==> (#[trigger] es[i]).b == es[i + 1].a
}

/// The total weight of a chain of edges.
pub open spec fn sp_path_weight(es: Seq<DirectedEdge>) -> int
    decreases es.len(),
{
    if es.len() == 0 {
        0
    } else {
        sp_path_weight(es.drop_last()) + es.last().weight
    }
}

/// A path that returns to its starting node.
pub open spec fn sp_is_cycle(ins: Seq<Seq<DirectedEdge>>, es: Seq<DirectedEdge>) -> bool {
    sp_is_path(ins, es) && es.last().b == es[0].a
}

/// Every outgoing edge of every node has a non-negative weight.
pub open spec fn outs_nonneg(nodes: Seq<Node>) -> bool {
    forall|i: int, j: int|
        0 <= i < nodes.len() && 0 <= j < nodes[i].out_edges@.len()
            ==> (#[trigger] nodes[i].out_edges@[j]).weight >= 0
}

/// The largest absolute weight among a sequence of edges.
pub open spec fn edges_wmax(es: Seq<DirectedEdge>) -> int
    decreases es.len(),
{
    if es.len() == 0 {
        0
    } else {
        let m = edges_wmax(es.drop_last());
        let w = es.last().weight as int;
        let aw = if w < 0 {
            -w
        } else {
            w
        };
        if aw > m {
            aw
        } else {
            m
        }
    }
}

/// The largest absolute weight in the graph, taken over the incoming
/// adjacency (which, for a well-formed graph, holds every edge).
pub open spec fn nodes_wmax(nodes: Seq<Node>) -> int
    decreases nodes.len(),
{
    if nodes.len() == 0 {
        0
    } else {
        let m = nodes_wmax(nodes.drop_last());
        let w = edges_wmax(nodes.last().in_edges@);
        if w > m {
            w
        } else {
            m
        }
    }
}

pub proof fn lemma_edges_wmax_nonneg(es: Seq<DirectedEdge>)
    ensures
        edges_wmax(es) >= 0,
    decreases es.len(),
{
    if es.len() > 0 {
        lemma_edges_wmax_nonneg(es.drop_last());
    }
}

pub proof fn lemma_edges_wmax_bound(es: Seq<DirectedEdge>, j: int)
    requires
        0 <= j < es.len(),
    ensures
        -edges_wmax(es) <= es[j].weight <= edges_wmax(es),
    decreases es.len(),
{
    lemma_edges_wmax_nonneg(es);
    if j < es.len() - 1 {
        lemma_edges_wmax_bound(es.drop_last(), j);
        lemma_edges_wmax_nonneg(es.drop_last());
    }
}

pub proof fn lemma_nodes_wmax_nonneg(nodes: Seq<Node>)
    ensures
        nodes_wmax(nodes) >= 0,
    decreases nodes.len(),
{
    if nodes.len() > 0 {
        lemma_nodes_wmax_nonneg(nodes.drop_last());
        lemma_edges_wmax_nonneg(nodes.last().in_edges@);
    }
}

pub proof fn lemma_nodes_wmax_node(nodes: Seq<Node>, i: int)
    requires
        0 <= i < nodes.len(),
    ensures
        edges_wmax(nodes[i].in_edges@) <= nodes_wmax(nodes),
    decreases nodes.len(),
{
    if i < nodes.len() - 1 {
        lemma_nodes_wmax_node(nodes.drop_last(), i);
        lemma_edges_wmax_nonneg(nodes.last().in_edges@);
    } else {
        lemma_nodes_wmax_nonneg(nodes.drop_last());
    }
}

/// Any in-edge's weight is bounded by the graph's largest absolute
/// weight.
pub proof fn lemma_in_edge_weight_bound(nodes: Seq<Node>, i: int, j: int)
    requires
        0 <= i < nodes.len(),
        0 <= j < nodes[i].in_edges@.len(),
    ensures
        -nodes_wmax(nodes) <= nodes[i].in_edges@[j].weight <= nodes_wmax(nodes),
{
    lemma_edges_wmax_bound(nodes[i].in_edges@, j);
    lemma_nodes_wmax_node(nodes, i);
}

/// Any edge of the graph has its weight bounded by the graph's largest
/// absolute weight.
pub proof fn lemma_edge_weight_bound(nodes: Seq<Node>, e: DirectedEdge)
    requires
        edge_in_graph(nodes, e),
    ensures
        -nodes_wmax(nodes) <= e.weight <= nodes_wmax(nodes),
{
    let j = choose|j: int| 0 <= j < nodes[e.b as int].in_edges@.len()
        && nodes[e.b as int].in_edges@[j] == e;
    lemma_in_edge_weight_bound(nodes, e.b as int, j);
}

/// Any out-edge's weight is bounded by the graph's largest absolute
/// weight, since a well-formed graph records it among the target's
/// in-edges.
pub proof fn lemma_out_edge_weight_bound(nodes: Seq<Node>, i: int, j: int)
    requires
        wf_nodes(nodes),
        0 <= i < nodes.len(),
        0 <= j < nodes[i].out_edges@.len(),
    ensures
        -nodes_wmax(nodes) <= nodes[i].out_edges@[j].weight <= nodes_wmax(nodes),
{
    let e = nodes[i].out_edges@[j];
    assert(edge_in_graph(nodes, e));
    lemma_edge_weight_bound(nodes, e);
}

/// If every in-edge weight lies in `[-b, b]`, the graph's largest
/// absolute weight does too.
pub proof fn lemma_wmax_le(nodes: Seq<Node>, b: int)
    requires
        b >= 0,
        forall|i: int, j: int|
            0 <= i < nodes.len() && 0 <= j < nodes[i].in_edges@.len()
                ==> -b <= (#[trigger] nodes[i].in_edges@[j]).weight <= b,
    ensures
        nodes_wmax(nodes) <= b,
    decreases nodes.len(),
{
    if nodes.len() > 0 {
        let pre = nodes.drop_last();
        assert forall|i: int, j: int|
            0 <= i < pre.len() && 0 <= j < pre[i].in_edges@.len()
                implies -b <= (#[trigger] pre[i].in_edges@[j]).weight <= b by {
            assert(pre[i] == nodes[i]);
        }
        lemma_wmax_le(pre, b);
        lemma_edges_wmax_le(nodes.last().in_edges@, nodes.len() - 1, nodes, b);
    }
}

proof fn lemma_edges_wmax_le(es: Seq<DirectedEdge>, i: int, nodes: Seq<Node>, b: int)
    requires
        b >= 0,
        0 <= i < nodes.len(),
        es.len() <= nodes[i].in_edges@.len(),
        forall|j: int| 0 <= j < es.len() ==> es[j] == nodes[i].in_edges@[j],
        forall|ii: int, j: int|
            0 <= ii < nodes.len() && 0 <= j < nodes[ii].in_edges@.len()
                ==> -b <= (#[trigger] nodes[ii].in_edges@[j]).weight <= b,
    ensures
        edges_wmax(es) <= b,
    decreases es.len(),
{
    if es.len() > 0 {
        lemma_edges_wmax_le(es.drop_last(), i, nodes, b);
        assert(es.last() == nodes[i].in_edges@[es.len() - 1]);
    }
}

} // verus!
