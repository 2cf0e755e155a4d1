//! The Johnson orchestrator: one super-source Bellman-Ford run for
//! potentials, edge reweighting, one Dijkstra run per source on the
//! reweighted graph, restoration of true distances, and aggregation of
//! the shortest shortest path over all ordered pairs of distinct,
//! mutually reachable nodes.

use vstd::prelude::*;
use crate::bellman_ford::{
    BellmanFord, lemma_fixed_point_triangle, lemma_iterate_all_finite, lemma_iterate_len,
    lemma_no_cycle_fixed_point, sp_detects_cycle, sp_iterate, sp_step,
};
use crate::dijkstra::{Dijkstra, sp_dijkstra};
use crate::graph_builder::{build_nodes, sp_built_ins, sp_built_outs};
use crate::graph::{
    DirectedEdge, Node, PathLength, edge_in_graph, edge_in_ins, edges_wmax, ins_wf,
    lemma_edge_weight_bound, lemma_nodes_wmax_nonneg, lemma_wf_ins, lemma_wmax_le, nodes_wmax,
    outs_nonneg, paths_view, sp_add, sp_cat, sp_fin, sp_is_cycle, sp_is_path, sp_le, sp_min,
    sp_outs, sp_ins, sp_path_weight, sp_sub, sp_vals_bounded, wf_nodes,
};

verus! {

/// The vertex potentials: the distances of a full super-source
/// Bellman-Ford run.
pub open spec fn sp_potentials(ins: Seq<Seq<DirectedEdge>>) -> Seq<Option<int>> {
    sp_iterate(ins, None, ins.len() as int)
}

/// Valid potentials: one finite value per node, and every edge (u, v)
/// satisfies the reweighting invariant `h[u] + weight - h[v] >= 0`.
pub open spec fn sp_valid_potentials(ins: Seq<Seq<DirectedEdge>>, h: Seq<Option<int>>) -> bool {
    &&& h.len() == ins.len()
    &&& (forall|v: int| 0 <= v < h.len() ==> (#[trigger] h[v]) matches Some(_x))
    &&& forall|v: int, j: int|
        0 <= v < ins.len() && 0 <= j < ins[v].len() ==> {
            let e = #[trigger] ins[v][j];
            sp_fin(h[e.a as int]) + e.weight - sp_fin(h[e.b as int]) >= 0
        }
}

/// Reweighting invariant: when the super-source Bellman-Ford run
/// detects no negative cycle, its distance vector is a valid set of
/// potentials, so `weight(u, v) + h[u] - h[v] >= 0` for every edge.
pub proof fn lemma_reweighting_invariant(ins: Seq<Seq<DirectedEdge>>)
    requires
        ins_wf(ins),
        !sp_detects_cycle(ins, None),
    ensures
        sp_valid_potentials(ins, sp_potentials(ins)),
        sp_step(ins, sp_potentials(ins)) == sp_potentials(ins),
{
    let n = ins.len() as int;
    let h = sp_potentials(ins);
    lemma_iterate_len(ins, None, n);
    lemma_iterate_all_finite(ins, n);
    lemma_no_cycle_fixed_point(ins, None);
    lemma_fixed_point_triangle(ins, h);
    assert forall|v: int, j: int|
        0 <= v < ins.len() && 0 <= j < ins[v].len() implies {
        let e = #[trigger] ins[v][j];
        sp_fin(h[e.a as int]) + e.weight - sp_fin(h[e.b as int]) >= 0
    } by {
        let e = ins[v][j];
        assert(sp_le(h[v], sp_cat(h[e.a as int], e.weight as int)));
        assert(e.b == v);
        assert(h[v] matches Some(_x));
        assert(h[e.a as int] matches Some(_y));
    }
}

/// With valid potentials, a path's weight is at least the potential of
/// its end minus the potential of its start.
pub proof fn lemma_path_weight_ge_potential_drop(
    ins: Seq<Seq<DirectedEdge>>,
    h: Seq<Option<int>>,
    es: Seq<DirectedEdge>,
)
    requires
        ins_wf(ins),
        sp_valid_potentials(ins, h),
        sp_is_path(ins, es),
    ensures
        sp_path_weight(es) >= sp_fin(h[es.last().b as int]) - sp_fin(h[es[0].a as int]),
    decreases es.len(),
{
    let e = es.last();
    assert(edge_in_ins(ins, e));
    let j = choose|j: int| 0 <= j < ins[e.b as int].len() && ins[e.b as int][j] == e;
    assert(ins[e.b as int][j] == e);
    assert(sp_fin(h[e.a as int]) + e.weight - sp_fin(h[e.b as int]) >= 0);
    if es.len() > 1 {
        let pre = es.drop_last();
        assert forall|i: int| 0 <= i < pre.len() implies edge_in_ins(ins, #[trigger] pre[i]) by {
            assert(pre[i] == es[i]);
        }
        assert forall|i: int| 0 <= i < pre.len() - 1 implies (#[trigger] pre[i]).b == pre[i
            + 1].a by {
            assert(pre[i] == es[i]);
            assert(pre[i + 1] == es[i + 1]);
        }
        lemma_path_weight_ge_potential_drop(ins, h, pre);
        assert(pre[0] == es[0]);
        assert(pre.last() == es[es.len() - 2]);
        assert(pre.last().b == e.a);
        assert(sp_path_weight(es) == sp_path_weight(pre) + e.weight);
    } else {
        assert(es[0] == e);
        assert(sp_path_weight(es.drop_last()) == 0);
    }
}

/// Negative-cycle refusal certificate: with valid potentials (the
/// state in which Johnson proceeds past Bellman-Ford), every cycle of
/// the graph has non-negative total weight — so on a graph with a
/// negative cycle the pipeline can only report the negative-cycle
/// outcome.
pub proof fn lemma_cycle_nonnegative(
    ins: Seq<Seq<DirectedEdge>>,
    h: Seq<Option<int>>,
    es: Seq<DirectedEdge>,
)
    requires
        ins_wf(ins),
        sp_valid_potentials(ins, h),
        sp_is_cycle(ins, es),
    ensures
        sp_path_weight(es) >= 0,
{
    lemma_path_weight_ge_potential_drop(ins, h, es);
}

/// A single edge reweighted by the potentials.
pub open spec fn sp_relabel_edge(e: DirectedEdge, h: Seq<Option<int>>) -> DirectedEdge {
    DirectedEdge {
        weight: (e.weight + sp_fin(h[e.a as int]) - sp_fin(h[e.b as int])) as i32,
        a: e.a,
        b: e.b,
    }
}

/// An edge list reweighted by the potentials.
pub open spec fn sp_relabel_edges(es: Seq<DirectedEdge>, h: Seq<Option<int>>) -> Seq<DirectedEdge> {
    es.map_values(|e: DirectedEdge| sp_relabel_edge(e, h))
}

/// A whole adjacency reweighted by the potentials.
pub open spec fn sp_relabel_adj(
    adj: Seq<Seq<DirectedEdge>>,
    h: Seq<Option<int>>,
) -> Seq<Seq<DirectedEdge>> {
    adj.map_values(|es: Seq<DirectedEdge>| sp_relabel_edges(es, h))
}

/// Restoring a reweighted distance from source `s` to target `t`:
/// subtract the source potential, add the target potential, with any
/// unreachable operand propagating.
pub open spec fn sp_restore(p: Option<int>, hs: Option<int>, ht: Option<int>) -> Option<int> {
    sp_add(sp_sub(p, hs), ht)
}

/// The exact reweighted weight of a chain of edges (no truncation).
pub open spec fn sp_relabeled_weight(es: Seq<DirectedEdge>, h: Seq<Option<int>>) -> int
    decreases es.len(),
{
    if es.len() == 0 {
        0
    } else {
        sp_relabeled_weight(es.drop_last(), h) + es.last().weight + sp_fin(
            h[es.last().a as int],
        ) - sp_fin(h[es.last().b as int])
    }
}

/// The reweighted weight of a path telescopes: it equals the original
/// weight plus the start potential minus the end potential.
pub proof fn lemma_relabeled_weight_telescopes(
    ins: Seq<Seq<DirectedEdge>>,
    h: Seq<Option<int>>,
    es: Seq<DirectedEdge>,
)
    requires
        sp_is_path(ins, es),
    ensures
        sp_relabeled_weight(es, h) == sp_path_weight(es) + sp_fin(h[es[0].a as int]) - sp_fin(
            h[es.last().b as int],
        ),
    decreases es.len(),
{
    if es.len() > 1 {
        let pre = es.drop_last();
        assert forall|i: int| 0 <= i < pre.len() implies edge_in_ins(ins, #[trigger] pre[i]) by {
            assert(pre[i] == es[i]);
        }
        assert forall|i: int| 0 <= i < pre.len() - 1 implies (#[trigger] pre[i]).b == pre[i
            + 1].a by {
            assert(pre[i] == es[i]);
            assert(pre[i + 1] == es[i + 1]);
        }
        lemma_relabeled_weight_telescopes(ins, h, pre);
        assert(pre[0] == es[0]);
        assert(pre.last() == es[es.len() - 2]);
        assert(pre.last().b == es.last().a);
        assert(sp_path_weight(es) == sp_path_weight(pre) + es.last().weight);
        assert(sp_relabeled_weight(es, h) == sp_relabeled_weight(pre, h) + es.last().weight
            + sp_fin(h[es.last().a as int]) - sp_fin(h[es.last().b as int]));
    } else {
        assert(sp_path_weight(es.drop_last()) == 0);
        assert(sp_relabeled_weight(es.drop_last(), h) == 0);
        assert(es[0] == es.last());
    }
}

/// Restoration correctness along any path: restoring the reweighted
/// weight of a path from `s` to `t` (subtract `h[s]`, add `h[t]`)
/// recovers exactly the path's original weight.
pub proof fn lemma_restoration_undoes_reweighting(
    ins: Seq<Seq<DirectedEdge>>,
    h: Seq<Option<int>>,
    es: Seq<DirectedEdge>,
)
    requires
        sp_is_path(ins, es),
        h[es[0].a as int] matches Some(_x),
        h[es.last().b as int] matches Some(_y),
    ensures
        sp_restore(
            Some(sp_relabeled_weight(es, h)),
            h[es[0].a as int],
            h[es.last().b as int],
        ) == Some(sp_path_weight(es)),
{
    lemma_relabeled_weight_telescopes(ins, h, es);
}

/// The minimum restored distance from source `s` to targets `t < k`
/// with `t != s`, under the distance order.
pub open spec fn sp_row_min(
    h: Seq<Option<int>>,
    dij: Seq<Option<int>>,
    s: int,
    k: int,
) -> Option<int>
    decreases k,
{
    if k <= 0 {
        None
    } else {
        let m = sp_row_min(h, dij, s, k - 1);
        if k - 1 == s {
            m
        } else {
            sp_min(m, sp_restore(dij[k - 1], h[s], h[k - 1]))
        }
    }
}

/// The minimum restored distance over all sources `s < k` and all
/// targets, each source taken from its own Dijkstra run on the
/// reweighted adjacency.
pub open spec fn sp_rows_min(
    outs_r: Seq<Seq<DirectedEdge>>,
    h: Seq<Option<int>>,
    k: int,
) -> Option<int>
    decreases k,
{
    if k <= 0 {
        None
    } else {
        sp_min(
            sp_rows_min(outs_r, h, k - 1),
            sp_row_min(h, sp_dijkstra(outs_r, k - 1), k - 1, outs_r.len() as int),
        )
    }
}

/// The value computed by the whole pipeline on a graph without a
/// negative cycle: potentials, reweighting, one Dijkstra run per
/// source, restoration, and aggregation over all ordered pairs of
/// distinct nodes.
pub open spec fn sp_johnson_value(
    ins: Seq<Seq<DirectedEdge>>,
    outs: Seq<Seq<DirectedEdge>>,
) -> Option<int> {
    let h = sp_potentials(ins);
    let outs_r = sp_relabel_adj(outs, h);
    sp_rows_min(outs_r, h, outs.len() as int)
}

/// The capacity condition under which the whole pipeline stays within
/// `i32`: every intermediate value is bounded by twice the squared
/// node count (plus one) times the largest absolute weight.
pub open spec fn sp_fits(nodes: Seq<Node>) -> bool {
    2 * (nodes.len() + 1) * (nodes.len() + 1) * nodes_wmax(nodes) <= i32::MAX
}

/// Restoring `p` by the potentials `hs`, `ht` stays within `i32` at
/// every intermediate step.
pub open spec fn sp_restore_fits(p: Option<int>, hs: Option<int>, ht: Option<int>) -> bool {
    p matches Some(x) ==> (hs matches Some(y) ==> i32::MIN <= x - y <= i32::MAX && (ht
        matches Some(z) ==> i32::MIN <= x - y + z <= i32::MAX))
}

/// Idempotence: the pipeline's value is a pure function of the graph,
/// so two runs over the same adjacency yield the same result.
pub proof fn lemma_pipeline_deterministic(
    ins: Seq<Seq<DirectedEdge>>,
    outs: Seq<Seq<DirectedEdge>>,
    r1: Option<int>,
    r2: Option<int>,
)
    requires
        r1 == sp_johnson_value(ins, outs),
        r2 == sp_johnson_value(ins, outs),
    ensures
        r1 == r2,
{
}


pub struct Johnson {
    pub bellman: BellmanFord,
    pub nodes: Vec<Node>,
    pub edge_count: usize,
    pub shortest_shortest_path: PathLength,
}

impl Johnson {
    pub fn new(edge_count: usize, nodes: Vec<Node>) -> (r: Johnson)
        ensures
            r.bellman.node_count == r.nodes@.len(),
            !r.bellman.has_negative_cycle,
            r.nodes == nodes,
            r.edge_count == edge_count,
            r.shortest_shortest_path == PathLength::Unreach,
    {
        let bellman = BellmanFord::new(nodes.len());
        Johnson { bellman, nodes, edge_count, shortest_shortest_path: PathLength::Unreach }
    }

    /// One edge reweighted by the Bellman-Ford potentials:
    /// `weight + h[a] - h[b]`, endpoints unchanged.
    #[inline]
    pub fn relabelled_edge(edge: &DirectedEdge, bellman_solutions: &Vec<PathLength>) -> (r:
        DirectedEdge)
        requires
            edge.a < bellman_solutions@.len(),
            edge.b < bellman_solutions@.len(),
            paths_view(bellman_solutions@)[edge.a as int] matches Some(_x),
            paths_view(bellman_solutions@)[edge.b as int] matches Some(_y),
            i32::MIN <= edge.weight + sp_fin(paths_view(bellman_solutions@)[edge.a as int])
                <= i32::MAX,
            i32::MIN <= edge.weight + sp_fin(paths_view(bellman_solutions@)[edge.a as int])
                - sp_fin(paths_view(bellman_solutions@)[edge.b as int]) <= i32::MAX,
        ensures
            r == sp_relabel_edge(*edge, paths_view(bellman_solutions@)),
    {
        proof {
            assert(paths_view(bellman_solutions@)[edge.a as int] == bellman_solutions@[edge.a as int]@);
            assert(paths_view(bellman_solutions@)[edge.b as int] == bellman_solutions@[edge.b as int]@);
        }
        DirectedEdge {
            weight: edge.weight + bellman_solutions[edge.a].length()
                - bellman_solutions[edge.b].length(),
            a: edge.a,
            b: edge.b,
        }
    }

    /// The true distance from `source_index` to `dest_index`: the
    /// reweighted distance minus the source potential plus the target
    /// potential, with unreachability propagating.
    #[inline]
    pub fn restored_path_length(
        source_index: usize,
        dest_index: usize,
        bellman_solutions: &Vec<PathLength>,
        path_length: PathLength,
    ) -> (r: PathLength)
        requires
            source_index < bellman_solutions@.len(),
            dest_index < bellman_solutions@.len(),
            sp_restore_fits(
                path_length@,
                paths_view(bellman_solutions@)[source_index as int],
                paths_view(bellman_solutions@)[dest_index as int],
            ),
        ensures
            r@ == sp_restore(
                path_length@,
                paths_view(bellman_solutions@)[source_index as int],
                paths_view(bellman_solutions@)[dest_index as int],
            ),
    {
        proof {
            assert(paths_view(bellman_solutions@)[source_index as int]
                == bellman_solutions@[source_index as int]@);
            assert(paths_view(bellman_solutions@)[dest_index as int]
                == bellman_solutions@[dest_index as int]@);
        }
        path_length.sub(bellman_solutions[source_index]).add(bellman_solutions[dest_index])
    }

    /// The minimum restored distance from one source to every other
    /// node, under the distance order; unreachable targets and the
    /// source itself are excluded.
    pub fn shortest_path(
        &self,
        source_index: usize,
        bellman_solutions: &Vec<PathLength>,
        dijkstra_solutions: &Vec<PathLength>,
    ) -> (r: PathLength)
        requires
            bellman_solutions@.len() == dijkstra_solutions@.len(),
            source_index < bellman_solutions@.len(),
            forall|t: int|
                0 <= t < dijkstra_solutions@.len() ==> sp_restore_fits(
                    paths_view(dijkstra_solutions@)[t],
                    paths_view(bellman_solutions@)[source_index as int],
                    paths_view(bellman_solutions@)[t],
                ),
        ensures
            r@ == sp_row_min(
                paths_view(bellman_solutions@),
                paths_view(dijkstra_solutions@),
                source_index as int,
                dijkstra_solutions@.len() as int,
            ),
    {
        let ghost h = paths_view(bellman_solutions@);
        let ghost dij = paths_view(dijkstra_solutions@);
        let mut shortest = PathLength::Unreach;
        let count = dijkstra_solutions.len();
        let mut t: usize = 0;
        while t < count
            invariant
                h == paths_view(bellman_solutions@),
                dij == paths_view(dijkstra_solutions@),
                count == dijkstra_solutions@.len(),
                bellman_solutions@.len() == count,
                source_index < count,
                t <= count,
                forall|tt: int|
                    0 <= tt < count ==> sp_restore_fits(dij[tt], h[source_index as int], h[tt]),
                shortest@ == sp_row_min(h, dij, source_index as int, t as int),
            decreases count - t,
        {
            if t != source_index {
                let restored = Johnson::restored_path_length(
                    source_index,
                    t,
                    bellman_solutions,
                    dijkstra_solutions[t],
                );
                proof {
                    assert(dij[t as int] == dijkstra_solutions@[t as int]@);
                }
                shortest = shortest.min(restored);
            }
            t = t + 1;
        }
        shortest
    }

    /// The node table with every edge reweighted by the potentials.
    pub fn nodes_with_relabelled_edges(&self, bellman_solutions: &Vec<PathLength>) -> (r: Vec<Node>)
        requires
            wf_nodes(self.nodes@),
            sp_fits(self.nodes@),
            bellman_solutions@.len() == self.nodes@.len(),
            forall|v: int|
                0 <= v < self.nodes@.len() ==> (#[trigger] paths_view(bellman_solutions@)[v])
                    matches Some(_x),
            sp_vals_bounded(
                paths_view(bellman_solutions@),
                self.nodes@.len() * nodes_wmax(self.nodes@),
            ),
        ensures
            r@.len() == self.nodes@.len(),
            wf_nodes(r@),
            sp_outs(r@) == sp_relabel_adj(sp_outs(self.nodes@), paths_view(bellman_solutions@)),
            sp_ins(r@) == sp_relabel_adj(sp_ins(self.nodes@), paths_view(bellman_solutions@)),
            nodes_wmax(r@) <= (2 * self.nodes@.len() + 1) * nodes_wmax(self.nodes@),
            sp_valid_potentials(sp_ins(self.nodes@), paths_view(bellman_solutions@))
                ==> outs_nonneg(r@),
    {
        let ghost gn = self.nodes@;
        let ghost h = paths_view(bellman_solutions@);
        let ghost gw = nodes_wmax(gn);
        let ghost n = gn.len() as int;
        proof {
            lemma_nodes_wmax_nonneg(gn);
            assert((n + 1) * gw <= i32::MAX && (2 * n + 1) * gw + 1 <= i32::MAX) by (nonlinear_arith)
                requires
                    2 * (n + 1) * (n + 1) * gw <= i32::MAX,
                    gw >= 0,
                    n >= 0,
            ;
        }
        let count = self.nodes.len();
        let mut result: Vec<Node> = Vec::with_capacity(count);
        let mut i: usize = 0;
        while i < count
            invariant
                gn == self.nodes@,
                h == paths_view(bellman_solutions@),
                gw == nodes_wmax(gn),
                gw >= 0,
                n == gn.len() as int,
                count == gn.len(),
                wf_nodes(gn),
                bellman_solutions@.len() == count,
                forall|v: int| 0 <= v < n ==> (#[trigger] h[v]) matches Some(_x),
                sp_vals_bounded(h, n * gw),
                (n + 1) * gw <= i32::MAX,
                (2 * n + 1) * gw + 1 <= i32::MAX,
                i <= count,
                result@.len() == i,
                forall|k: int|
                    0 <= k < i ==> (#[trigger] result@[k]).index == k
                        && result@[k].out_edges@ == sp_relabel_edges(gn[k].out_edges@, h)
                        && result@[k].in_edges@ == sp_relabel_edges(gn[k].in_edges@, h),
            decreases count - i,
        {
            let node = &self.nodes[i];
            let out_edges = Johnson::relabel_edge_list(&node.out_edges, bellman_solutions, Ghost(gn));
            let in_edges = Johnson::relabel_edge_list(&node.in_edges, bellman_solutions, Ghost(gn));
            let ghost rpre = result@;
            result.push(Node { index: node.index, out_edges, in_edges });
            proof {
                assert forall|k: int|
                    0 <= k < i as int + 1 implies (#[trigger] result@[k]).index == k
                        && result@[k].out_edges@ == sp_relabel_edges(gn[k].out_edges@, h)
                        && result@[k].in_edges@ == sp_relabel_edges(gn[k].in_edges@, h) by {
                    if k < i as int {
                        assert(result@[k] == rpre[k]);
                    }
                }
            }
            i = i + 1;
        }
        proof {
            lemma_relabelled_nodes_wf(gn, h, result@);
        }
        result
    }

    /// Reweights one edge list; every edge must lie in the well-formed
    /// graph so that its endpoints and weight are bounded.
    fn relabel_edge_list(
        edges: &Vec<DirectedEdge>,
        bellman_solutions: &Vec<PathLength>,
        Ghost(gn): Ghost<Seq<Node>>,
    ) -> (r: Vec<DirectedEdge>)
        requires
            wf_nodes(gn),
            bellman_solutions@.len() == gn.len(),
            forall|v: int|
                0 <= v < gn.len() ==> (#[trigger] paths_view(bellman_solutions@)[v]) matches Some(
                    _x,
                ),
            sp_vals_bounded(
                paths_view(bellman_solutions@),
                gn.len() * nodes_wmax(gn),
            ),
            (gn.len() + 1) * nodes_wmax(gn) <= i32::MAX,
            (2 * gn.len() + 1) * nodes_wmax(gn) + 1 <= i32::MAX,
            forall|j: int| 0 <= j < edges@.len() ==> edge_in_graph(gn, #[trigger] edges@[j])
                && (#[trigger] edges@[j]).a < gn.len(),
        ensures
            r@ == sp_relabel_edges(edges@, paths_view(bellman_solutions@)),
    {
        let ghost h = paths_view(bellman_solutions@);
        let ghost gw = nodes_wmax(gn);
        proof {
            lemma_nodes_wmax_nonneg(gn);
        }
        let count = edges.len();
        let mut r: Vec<DirectedEdge> = Vec::with_capacity(count);
        let mut j: usize = 0;
        while j < count
            invariant
                h == paths_view(bellman_solutions@),
                gw == nodes_wmax(gn),
                gw >= 0,
                wf_nodes(gn),
                bellman_solutions@.len() == gn.len(),
                count == edges@.len(),
                forall|v: int| 0 <= v < gn.len() ==> (#[trigger] h[v]) matches Some(_x),
                sp_vals_bounded(h, gn.len() * gw),
                (gn.len() + 1) * gw <= i32::MAX,
                (2 * gn.len() + 1) * gw + 1 <= i32::MAX,
                forall|k: int| 0 <= k < count ==> edge_in_graph(gn, #[trigger] edges@[k])
                    && (#[trigger] edges@[k]).a < gn.len(),
                j <= count,
                r@.len() == j,
                forall|k: int| 0 <= k < j ==> r@[k] == sp_relabel_edge(edges@[k], h),
            decreases count - j,
        {
            let edge = &edges[j];
            proof {
                lemma_edge_weight_bound(gn, edges@[j as int]);
                let e = edges@[j as int];
                assert(h[e.a as int] matches Some(_x));
                assert(h[e.b as int] matches Some(_y));
                assert((gn.len() + 1) * gw == gn.len() * gw + gw) by (nonlinear_arith);
                assert((2 * gn.len() + 1) * gw == gn.len() * gw + gn.len() * gw + gw)
                    by (nonlinear_arith);
            }
            let relabelled = Johnson::relabelled_edge(edge, bellman_solutions);
            let ghost rpre = r@;
            r.push(relabelled);
            proof {
                assert forall|k: int|
                    0 <= k < j as int + 1 implies r@[k] == sp_relabel_edge(edges@[k], h) by {
                    if k < j as int {
                        assert(r@[k] == rpre[k]);
                    }
                }
            }
            j = j + 1;
        }
        proof {
            assert(r@ =~= sp_relabel_edges(edges@, h));
        }
        r
    }


    /// Runs Dijkstra from every source on the reweighted node table,
    /// restores each row and keeps the minimum over all of them.
    pub fn compute_shortest_shortest_paths(
        &self,
        relabelled_nodes: &Vec<Node>,
        bellman_solutions: &Vec<PathLength>,
        dijkstra: &mut Dijkstra,
    ) -> (r: PathLength)
        requires
            wf_nodes(relabelled_nodes@),
            outs_nonneg(relabelled_nodes@),
            (relabelled_nodes@.len() + 1) * nodes_wmax(relabelled_nodes@) <= i32::MAX,
            old(dijkstra).nodes@ == relabelled_nodes@,
            bellman_solutions@.len() == relabelled_nodes@.len(),
            forall|v: int|
                0 <= v < relabelled_nodes@.len() ==> (#[trigger] paths_view(bellman_solutions@)[v])
                    matches Some(_x),
            exists|hb: int|
                0 <= hb && sp_vals_bounded(paths_view(bellman_solutions@), hb)
                    && relabelled_nodes@.len() * nodes_wmax(relabelled_nodes@) + 2 * hb
                    <= i32::MAX,
        ensures
            r@ == sp_rows_min(
                sp_outs(relabelled_nodes@),
                paths_view(bellman_solutions@),
                relabelled_nodes@.len() as int,
            ),
    {
        let ghost rn = relabelled_nodes@;
        let ghost outs = sp_outs(rn);
        let ghost h = paths_view(bellman_solutions@);
        let ghost wr = nodes_wmax(rn);
        let ghost hb = choose|hb: int|
            0 <= hb && sp_vals_bounded(h, hb) && rn.len() * wr + 2 * hb <= i32::MAX;
        proof {
            lemma_nodes_wmax_nonneg(rn);
        }
        let mut shortest = PathLength::Unreach;
        let count = relabelled_nodes.len();
        let mut i: usize = 0;
        while i < count
            invariant
                rn == relabelled_nodes@,
                outs == sp_outs(rn),
                h == paths_view(bellman_solutions@),
                wr == nodes_wmax(rn),
                wr >= 0,
                wf_nodes(rn),
                outs_nonneg(rn),
                count == rn.len(),
                (rn.len() + 1) * wr <= i32::MAX,
                bellman_solutions@.len() == count,
                forall|v: int| 0 <= v < count ==> (#[trigger] h[v]) matches Some(_x),
                hb >= 0,
                sp_vals_bounded(h, hb),
                rn.len() * wr + 2 * hb <= i32::MAX,
                dijkstra.nodes@ == rn,
                i <= count,
                shortest@ == sp_rows_min(outs, h, i as int),
            decreases count - i,
        {
            dijkstra.compute_shortest_paths(i);
            let ghost dij = paths_view(dijkstra.shortest_paths@);
            proof {
                assert(dij == sp_dijkstra(outs, i as int));
                assert forall|t: int|
                    0 <= t < dijkstra.shortest_paths@.len() implies sp_restore_fits(
                    dij[t],
                    h[i as int],
                    h[t],
                ) by {
                    assert(dij[t] matches Some(x) ==> 0 <= x <= rn.len() * wr);
                }
            }
            let iteration = self.shortest_path(i, bellman_solutions, &dijkstra.shortest_paths);
            shortest = shortest.min(iteration);
            proof {
                assert(sp_rows_min(outs, h, i as int + 1) == sp_min(
                    sp_rows_min(outs, h, i as int),
                    sp_row_min(h, sp_dijkstra(outs, i as int), i as int, outs.len() as int),
                ));
            }
            i = i + 1;
        }
        shortest
    }

    /// Runs the whole pipeline: Bellman-Ford potentials from the
    /// virtual super source, then — unless a negative cycle was
    /// detected — reweighting, one Dijkstra per node, restoration and
    /// aggregation. Returns the negative-cycle outcome as a normal
    /// branch, never a distance.
    pub fn find_shortest_shortest_path(&mut self) -> (r: (bool, PathLength))
        requires
            wf_nodes(old(self).nodes@),
            old(self).bellman.node_count == old(self).nodes@.len(),
            sp_fits(old(self).nodes@),
        ensures
            final(self).nodes == old(self).nodes,
            final(self).edge_count == old(self).edge_count,
            final(self).bellman.node_count == old(self).bellman.node_count,
            r.0 == !sp_detects_cycle(sp_ins(old(self).nodes@), None::<usize>),
            !r.0 ==> r.1 == PathLength::Unreach && final(self).shortest_shortest_path == old(
                self,
            ).shortest_shortest_path,
            r.0 ==> r.1@ == sp_johnson_value(sp_ins(old(self).nodes@), sp_outs(old(self).nodes@))
                && final(self).shortest_shortest_path == r.1,
            r.0 ==> forall|es: Seq<DirectedEdge>|
                sp_is_cycle(sp_ins(old(self).nodes@), es) ==> sp_path_weight(es) >= 0,
    {
        let ghost gn = self.nodes@;
        let ghost gins = sp_ins(gn);
        let ghost gouts = sp_outs(gn);
        let ghost n = gn.len() as int;
        let ghost gw = nodes_wmax(gn);
        proof {
            lemma_nodes_wmax_nonneg(gn);
            lemma_wf_ins(gn);
            assert((n + 1) * gw <= i32::MAX) by (nonlinear_arith)
                requires
                    2 * (n + 1) * (n + 1) * gw <= i32::MAX,
                    gw >= 0,
                    n >= 0,
            ;
        }
        if !self.bellman.compute_shortest_paths(None, &self.nodes) {
            return (false, PathLength::Unreach);
        }
        proof {
            lemma_reweighting_invariant(gins);
            assert(self.bellman.solution() == sp_potentials(gins));
        }
        let ghost h = sp_potentials(gins);
        let bellman_solutions = self.bellman.path_solutions();
        let relabelled_nodes = self.nodes_with_relabelled_edges(bellman_solutions);
        let ghost rn = relabelled_nodes@;
        proof {
            assert(sp_valid_potentials(gins, h));
            assert(outs_nonneg(rn));
            let wr = nodes_wmax(rn);
            lemma_nodes_wmax_nonneg(rn);
            assert((n + 1) * ((2 * n + 1) * gw) <= 2 * (n + 1) * (n + 1) * gw)
                by (nonlinear_arith)
                requires
                    gw >= 0,
                    n >= 0,
            ;
            assert(n * ((2 * n + 1) * gw) + 2 * (n * gw) <= 2 * (n + 1) * (n + 1) * gw)
                by (nonlinear_arith)
                requires
                    gw >= 0,
                    n >= 0,
            ;
            vstd::arithmetic::mul::lemma_mul_inequality(wr, (2 * n + 1) * gw, n + 1);
            vstd::arithmetic::mul::lemma_mul_inequality(wr, (2 * n + 1) * gw, n);
        }
        let mut dijkstra = Dijkstra::new(&relabelled_nodes, self.edge_count);
        proof {
            let hb = n * gw;
            assert(0 <= hb && sp_vals_bounded(paths_view(bellman_solutions@), hb)
                && rn.len() * nodes_wmax(rn) + 2 * hb <= i32::MAX);
        }
        let shortest = self.compute_shortest_shortest_paths(
            &relabelled_nodes,
            bellman_solutions,
            &mut dijkstra,
        );
        self.shortest_shortest_path = shortest;
        proof {
            assert(sp_outs(rn) == sp_relabel_adj(gouts, h));
            assert(shortest@ == sp_rows_min(sp_relabel_adj(gouts, h), h, n));
            assert(shortest@ == sp_johnson_value(gins, gouts));
            assert forall|es: Seq<DirectedEdge>|
                sp_is_cycle(gins, es) implies sp_path_weight(es) >= 0 by {
                lemma_cycle_nonnegative(gins, h, es);
            }
        }
        (true, shortest)
    }
}


/// The distinguished outcome of a pipeline run on a graph that holds a
/// negative cycle: no shortest shortest path exists.
#[derive(Debug, Clone, Copy, PartialEq, Eq, Structural)]
pub struct NegativeCycleDetected;

/// The core's entry point: builds the graph from a node count and an
/// edge list and runs the full pipeline. Returns the shortest shortest
/// path over all ordered pairs of distinct, mutually reachable nodes,
/// or the negative-cycle outcome — exactly when the final Bellman-Ford
/// sweep still improved some distance.
pub fn compute_shortest_shortest_path(node_count: usize, edges: &Vec<DirectedEdge>) -> (r: Result<
    PathLength,
    NegativeCycleDetected,
>)
    requires
        forall|k: int|
            0 <= k < edges@.len() ==> (#[trigger] edges@[k]).a < node_count && edges@[k].b
                < node_count,
        2 * (node_count + 1) * (node_count + 1) * edges_wmax(edges@) <= i32::MAX,
    ensures
        (r matches Err(_)) <==> sp_detects_cycle(
            sp_built_ins(node_count as nat, edges@),
            None::<usize>,
        ),
        r matches Ok(p) ==> p@ == sp_johnson_value(
            sp_built_ins(node_count as nat, edges@),
            sp_built_outs(node_count as nat, edges@),
        ),
        r matches Ok(_p) ==> (forall|es: Seq<DirectedEdge>|
            sp_is_cycle(sp_built_ins(node_count as nat, edges@), es) ==> sp_path_weight(es) >= 0),
{
    let nodes = build_nodes(node_count, edges);
    proof {
        vstd::arithmetic::mul::lemma_mul_inequality(
            nodes_wmax(nodes@),
            edges_wmax(edges@),
            2 * (node_count as int + 1) * (node_count as int + 1),
        );
        assert(2 * (node_count as int + 1) * (node_count as int + 1) >= 0) by (nonlinear_arith);
        assert(2 * (node_count as int + 1) * (node_count as int + 1) * nodes_wmax(nodes@)
            == nodes_wmax(nodes@) * (2 * (node_count as int + 1) * (node_count as int + 1)))
            by (nonlinear_arith);
        assert(2 * (node_count as int + 1) * (node_count as int + 1) * edges_wmax(edges@)
            == edges_wmax(edges@) * (2 * (node_count as int + 1) * (node_count as int + 1)))
            by (nonlinear_arith);
    }
    let mut johnson = Johnson::new(edges.len(), nodes);
    let (ok, value) = johnson.find_shortest_shortest_path();
    if ok {
        Ok(value)
    } else {
        Err(NegativeCycleDetected)
    }
}

/// A relabelled node table element by element equal to the reweighted
/// original is itself a well-formed graph, with bounded weights, and
/// with non-negative outgoing weights when the potentials are valid.
proof fn lemma_relabelled_nodes_wf(gn: Seq<Node>, h: Seq<Option<int>>, rn: Seq<Node>)
    requires
        wf_nodes(gn),
        h.len() == gn.len(),
        forall|v: int| 0 <= v < h.len() ==> (#[trigger] h[v]) matches Some(_x),
        sp_vals_bounded(h, gn.len() * nodes_wmax(gn)),
        (gn.len() + 1) * nodes_wmax(gn) <= i32::MAX,
        (2 * gn.len() + 1) * nodes_wmax(gn) + 1 <= i32::MAX,
        rn.len() == gn.len(),
        forall|k: int|
            0 <= k < rn.len() ==> (#[trigger] rn[k]).index == k
                && rn[k].out_edges@ == sp_relabel_edges(gn[k].out_edges@, h)
                && rn[k].in_edges@ == sp_relabel_edges(gn[k].in_edges@, h),
    ensures
        wf_nodes(rn),
        sp_outs(rn) == sp_relabel_adj(sp_outs(gn), h),
        sp_ins(rn) == sp_relabel_adj(sp_ins(gn), h),
        nodes_wmax(rn) <= (2 * gn.len() + 1) * nodes_wmax(gn),
        sp_valid_potentials(sp_ins(gn), h) ==> outs_nonneg(rn),
{
    let n = gn.len() as int;
    let gw = nodes_wmax(gn);
    lemma_nodes_wmax_nonneg(gn);
    assert forall|i: int, j: int|
        0 <= i < rn.len() && 0 <= j < rn[i].in_edges@.len() implies {
        let e = #[trigger] rn[i].in_edges@[j];
        e.b == i && e.a < rn.len() && -((2 * n + 1) * gw) <= e.weight <= (2 * n + 1) * gw
    } by {
        let eo = gn[i].in_edges@[j];
        assert(rn[i].in_edges@[j] == sp_relabel_edge(eo, h));
        lemma_edge_weight_bound(gn, eo);
        assert(h[eo.a as int] matches Some(_x));
        assert(h[eo.b as int] matches Some(_y));
        assert(-(n * gw) <= sp_fin(h[eo.a as int]) <= n * gw);
        assert(-(n * gw) <= sp_fin(h[eo.b as int]) <= n * gw);
        assert((2 * n + 1) * gw == n * gw + n * gw + gw) by (nonlinear_arith);
        assert((n + 1) * gw == n * gw + gw) by (nonlinear_arith);
    }
    assert forall|i: int, j: int|
        0 <= i < rn.len() && 0 <= j < rn[i].out_edges@.len() implies {
        let e = #[trigger] rn[i].out_edges@[j];
        e.a == i && e.b < rn.len() && rn[e.b as int].in_edges@.contains(e)
    } by {
        let eo = gn[i].out_edges@[j];
        assert(rn[i].out_edges@[j] == sp_relabel_edge(eo, h));
        assert(gn[eo.b as int].in_edges@.contains(eo));
        let jj = choose|jj: int|
            0 <= jj < gn[eo.b as int].in_edges@.len() && gn[eo.b as int].in_edges@[jj] == eo;
        assert(rn[eo.b as int].in_edges@[jj] == sp_relabel_edge(eo, h));
    }
    assert(wf_nodes(rn));
    lemma_wmax_le(rn, (2 * n + 1) * gw);
    assert forall|i: int| 0 <= i < rn.len() implies #[trigger] sp_outs(rn)[i] == sp_relabel_adj(
        sp_outs(gn),
        h,
    )[i] by {
        assert(sp_outs(rn)[i] == rn[i].out_edges@);
        assert(sp_relabel_adj(sp_outs(gn), h)[i] == sp_relabel_edges(sp_outs(gn)[i], h));
        assert(sp_outs(gn)[i] == gn[i].out_edges@);
    }
    assert(sp_outs(rn) =~= sp_relabel_adj(sp_outs(gn), h));
    assert forall|i: int| 0 <= i < rn.len() implies #[trigger] sp_ins(rn)[i] == sp_relabel_adj(
        sp_ins(gn),
        h,
    )[i] by {
        assert(sp_ins(rn)[i] == rn[i].in_edges@);
        assert(sp_relabel_adj(sp_ins(gn), h)[i] == sp_relabel_edges(sp_ins(gn)[i], h));
        assert(sp_ins(gn)[i] == gn[i].in_edges@);
    }
    assert(sp_ins(rn) =~= sp_relabel_adj(sp_ins(gn), h));
    if sp_valid_potentials(sp_ins(gn), h) {
        assert forall|i: int, j: int|
            0 <= i < rn.len() && 0 <= j < rn[i].out_edges@.len() implies (#[trigger] rn[i].out_edges@[j]).weight
            >= 0 by {
            let eo = gn[i].out_edges@[j];
            assert(rn[i].out_edges@[j] == sp_relabel_edge(eo, h));
            assert(gn[eo.b as int].in_edges@.contains(eo));
            let jj = choose|jj: int|
                0 <= jj < gn[eo.b as int].in_edges@.len() && gn[eo.b as int].in_edges@[jj] == eo;
            assert(sp_ins(gn)[eo.b as int] == gn[eo.b as int].in_edges@);
            assert(sp_ins(gn)[eo.b as int][jj] == eo);
            assert(sp_fin(h[eo.a as int]) + eo.weight - sp_fin(h[eo.b as int]) >= 0);
            lemma_edge_weight_bound(gn, eo);
            assert(h[eo.a as int] matches Some(_x));
            assert(h[eo.b as int] matches Some(_y));
            assert((2 * n + 1) * gw == n * gw + n * gw + gw) by (nonlinear_arith);
        }
    }
}


} // verus!
