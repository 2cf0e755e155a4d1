//! The Dijkstra engine: single-source shortest paths on a graph whose
//! edge weights are already non-negative, driven by a min-oriented
//! priority structure of pending edges keyed by cumulative path length.

use vstd::prelude::*;
use crate::graph::{
    DijkstraEdge, DirectedEdge, Node, PathLength, edge_in_graph, lemma_edge_weight_bound,
    lemma_nodes_wmax_nonneg, nodes_wmax, outs_nonneg, paths_view, sp_lt, sp_outs,
    wf_nodes,
};

verus! {

/// The position of the first minimal entry, by cumulative path length,
/// of a non-empty pending sequence.
pub open spec fn sp_min_index(pend: Seq<DijkstraEdge>) -> int
    decreases pend.len(),
{
    if pend.len() <= 1 {
        0
    } else {
        let m = sp_min_index(pend.drop_last());
        if pend.last().path_length < pend[m].path_length {
            pend.len() - 1
        } else {
            m
        }
    }
}

/// The first minimal entry of a non-empty pending sequence lies within
/// it.
pub proof fn lemma_min_index_range(pend: Seq<DijkstraEdge>)
    requires
        pend.len() > 0,
    ensures
        0 <= sp_min_index(pend) < pend.len(),
    decreases pend.len(),
{
    if pend.len() > 1 {
        lemma_min_index_range(pend.drop_last());
    }
}

/// Appends to the pending sequence one entry per outgoing edge whose
/// target is not yet settled, keyed by the settled distance `d` plus
/// the edge weight.
pub open spec fn sp_push_edges(
    pend: Seq<DijkstraEdge>,
    cut: Seq<bool>,
    es: Seq<DirectedEdge>,
    d: int,
) -> Seq<DijkstraEdge>
    decreases es.len(),
{
    if es.len() == 0 {
        pend
    } else {
        let p = sp_push_edges(pend, cut, es.drop_last(), d);
        let e = es.last();
        if e.b < cut.len() && !cut[e.b as int] {
            p.push(DijkstraEdge { path_length: (d + e.weight) as i32, a: e.a, b: e.b })
        } else {
            p
        }
    }
}

/// The main loop of the engine, over the outgoing adjacency alone:
/// repeatedly pop the pending entry with the smallest cumulative
/// length; discard it if its target is already settled, otherwise
/// settle the target at that length and enqueue its outgoing edges.
/// Stops when every node is settled or nothing is pending.
pub open spec fn sp_dij_run(
    outs: Seq<Seq<DirectedEdge>>,
    paths: Seq<Option<int>>,
    cut: Seq<bool>,
    added: int,
    pend: Seq<DijkstraEdge>,
) -> Seq<Option<int>>
    decreases outs.len() - added, pend.len(),
{
    if added >= outs.len() || pend.len() == 0 {
        paths
    } else if !(0 <= sp_min_index(pend) < pend.len()) {
        // never taken: the minimum's position is always in range
        paths
    } else {
        let m = sp_min_index(pend);
        let e = pend[m];
        let rest = pend.remove(m);
        if e.b < outs.len() && e.b < cut.len() && !cut[e.b as int] {
            let paths2 = paths.update(e.b as int, Some(e.path_length as int));
            let cut2 = cut.update(e.b as int, true);
            let pend2 = sp_push_edges(rest, cut2, outs[e.b as int], e.path_length as int);
            sp_dij_run(outs, paths2, cut2, added + 1, pend2)
        } else {
            sp_dij_run(outs, paths, cut, added, rest)
        }
    }
}

/// The seed distance vector: zero at the source, unreachable
/// elsewhere.
pub open spec fn sp_dij_init_paths(n: nat, source: int) -> Seq<Option<int>> {
    Seq::new(n, |i: int| if i == source { Some(0int) } else { None::<int> })
}

/// The seed settled set: only the source.
pub open spec fn sp_dij_init_cut(n: nat, source: int) -> Seq<bool> {
    Seq::new(n, |i: int| i == source)
}

/// The distance vector of a full run from `source`: the source is
/// settled at zero, its outgoing edges are seeded, and the main loop
/// runs to completion.
pub open spec fn sp_dijkstra(outs: Seq<Seq<DirectedEdge>>, source: int) -> Seq<Option<int>> {
    let paths = sp_dij_init_paths(outs.len(), source);
    let cut = sp_dij_init_cut(outs.len(), source);
    let pend = sp_push_edges(Seq::empty(), cut, outs[source], 0);
    sp_dij_run(outs, paths, cut, 1, pend)
}

/// The largest distance of a vector under the distance order, keeping
/// the later of equal entries.
pub open spec fn sp_longest(s: Seq<Option<int>>) -> Option<int>
    decreases s.len(),
{
    if s.len() == 0 {
        None
    } else if s.len() == 1 {
        s[0]
    } else {
        let m = sp_longest(s.drop_last());
        if sp_lt(s.last(), m) {
            m
        } else {
            s.last()
        }
    }
}

/// All pending entries target valid nodes and carry path lengths in
/// `[0, bound]`.
pub open spec fn sp_pend_ok(pend: Seq<DijkstraEdge>, n: int, bound: int) -> bool {
    forall|k: int|
        0 <= k < pend.len() ==> {
            let e = #[trigger] pend[k];
            e.b < n && 0 <= e.path_length <= bound
        }
}

pub struct Dijkstra<'a> {
    pub shortest_paths: Vec<PathLength>,
    pub in_cut: Vec<bool>,
    pub nodes: &'a Vec<Node>,
    pub pending_edges: Vec<DijkstraEdge>,
    pub nodes_added: usize,
}

impl<'a> Dijkstra<'a> {
    pub fn new(nodes: &'a Vec<Node>, edge_count: usize) -> (r: Dijkstra<'a>)
        ensures
            r.nodes == nodes,
            r.shortest_paths@.len() == 0,
            r.in_cut@.len() == 0,
    {
        let paths = Vec::<PathLength>::with_capacity(nodes.len());
        let in_cut = Vec::<bool>::with_capacity(nodes.len());
        let heap_capacity = if edge_count > nodes.len() {
            edge_count - nodes.len()
        } else {
            1
        };
        Dijkstra {
            shortest_paths: paths,
            in_cut,
            nodes,
            pending_edges: Vec::<DijkstraEdge>::with_capacity(heap_capacity),
            nodes_added: 0,
        }
    }

    /// Runs the engine from `source_index`; afterwards
    /// `shortest_paths` holds, per node, the shortest distance from
    /// the source, with nodes never reached left `Unreach`.
    pub fn compute_shortest_paths(&mut self, source_index: usize)
        requires
            wf_nodes(old(self).nodes@),
            outs_nonneg(old(self).nodes@),
            source_index < old(self).nodes@.len(),
            (old(self).nodes@.len() + 1) * nodes_wmax(old(self).nodes@) <= i32::MAX,
        ensures
            final(self).nodes == old(self).nodes,
            final(self).shortest_paths@.len() == old(self).nodes@.len(),
            final(self).in_cut@.len() == old(self).nodes@.len(),
            paths_view(final(self).shortest_paths@) == sp_dijkstra(
                sp_outs(old(self).nodes@),
                source_index as int,
            ),
            forall|v: int|
                0 <= v < old(self).nodes@.len() ==> match #[trigger] paths_view(
                    final(self).shortest_paths@,
                )[v] {
                    Some(x) => 0 <= x <= old(self).nodes@.len() * nodes_wmax(old(self).nodes@),
                    None => true,
                },
    {
        let ghost gn = self.nodes@;
        let ghost outs = sp_outs(gn);
        let ghost wm = nodes_wmax(gn);
        let ghost target = sp_dijkstra(outs, source_index as int);
        proof {
            lemma_nodes_wmax_nonneg(gn);
        }
        self.initialize_paths(source_index);
        proof {
            let spaths = sp_dij_init_paths(outs.len(), source_index as int);
            let scut = sp_dij_init_cut(outs.len(), source_index as int);
            assert(paths_view(self.shortest_paths@) =~= spaths);
            assert(self.in_cut@ =~= scut);
            assert(target == sp_dij_run(
                outs,
                spaths,
                scut,
                1,
                sp_push_edges(Seq::empty(), scut, outs[source_index as int], 0),
            ));
        }
        let n = self.nodes.len();
        while self.nodes_added < n && self.pending_edges.len() > 0
            invariant
                self.nodes@ == gn,
                self.nodes == old(self).nodes,
                outs == sp_outs(gn),
                wm == nodes_wmax(gn),
                wm >= 0,
                wf_nodes(gn),
                outs_nonneg(gn),
                n == gn.len(),
                (gn.len() + 1) * wm <= i32::MAX,
                self.shortest_paths@.len() == n,
                self.in_cut@.len() == n,
                1 <= self.nodes_added <= n,
                sp_pend_ok(self.pending_edges@, n as int, self.nodes_added as int * wm),
                forall|v: int|
                    0 <= v < n ==> match #[trigger] paths_view(self.shortest_paths@)[v] {
                        Some(x) => 0 <= x <= self.nodes_added as int * wm,
                        None => true,
                    },
                sp_dij_run(
                    outs,
                    paths_view(self.shortest_paths@),
                    self.in_cut@,
                    self.nodes_added as int,
                    self.pending_edges@,
                ) == target,
            decreases n - self.nodes_added, self.pending_edges@.len(),
        {
            let ghost pre_paths = paths_view(self.shortest_paths@);
            let ghost pre_cut = self.in_cut@;
            let ghost pre_pend = self.pending_edges@;
            let ghost pre_added = self.nodes_added as int;
            let edge = self.pop_pending();
            proof {
                lemma_min_index_range(pre_pend);
                assert(edge == pre_pend[sp_min_index(pre_pend)]);
                assert(edge.b < n && 0 <= edge.path_length <= pre_added * wm);
            }
            if !self.in_cut[edge.b] {
                proof {
                    vstd::arithmetic::mul::lemma_mul_inequality(
                        pre_added + 1,
                        gn.len() as int,
                        wm,
                    );
                    assert((pre_added + 1) * wm == pre_added * wm + wm) by (nonlinear_arith);
                    assert((gn.len() as int + 1) * wm == gn.len() as int * wm + wm)
                        by (nonlinear_arith);
                    let m = sp_min_index(pre_pend);
                    let rest = pre_pend.remove(m);
                    assert forall|k: int| 0 <= k < rest.len() implies {
                        let e = #[trigger] rest[k];
                        e.b < n && 0 <= e.path_length <= (pre_added + 1) * wm
                    } by {
                        if k < m {
                            assert(rest[k] == pre_pend[k]);
                        } else {
                            assert(rest[k] == pre_pend[k + 1]);
                        }
                    }
                }
                let nodes_ref: &Vec<Node> = self.nodes;
                self.add_node_to_cut(&nodes_ref[edge.b], edge.path_length);
                proof {
                    let cut2 = pre_cut.update(edge.b as int, true);
                    let paths2 = pre_paths.update(edge.b as int, Some(edge.path_length as int));
                    assert(paths_view(self.shortest_paths@) =~= paths2);
                    assert(self.in_cut@ =~= cut2);
                    assert(self.pending_edges@ == sp_push_edges(
                        pre_pend.remove(sp_min_index(pre_pend)),
                        cut2,
                        outs[edge.b as int],
                        edge.path_length as int,
                    ));
                    lemma_push_edges_ok(
                        pre_pend.remove(sp_min_index(pre_pend)),
                        cut2,
                        gn,
                        edge.b as int,
                        edge.path_length as int,
                        (pre_added + 1) * wm,
                    );
                    assert(sp_dij_run(outs, pre_paths, pre_cut, pre_added, pre_pend)
                        == sp_dij_run(
                        outs,
                        paths2,
                        cut2,
                        pre_added + 1,
                        self.pending_edges@,
                    ));
                    assert forall|v: int|
                        0 <= v < n implies match #[trigger] paths_view(self.shortest_paths@)[v] {
                        Some(x) => 0 <= x <= self.nodes_added as int * wm,
                        None => true,
                    } by {
                        assert(paths_view(self.shortest_paths@)[v] == paths2[v]);
                    }
                }
            } else {
                proof {
                    assert(sp_dij_run(outs, pre_paths, pre_cut, pre_added, pre_pend)
                        == sp_dij_run(
                        outs,
                        pre_paths,
                        pre_cut,
                        pre_added,
                        pre_pend.remove(sp_min_index(pre_pend)),
                    ));
                    let m = sp_min_index(pre_pend);
                    let rest = pre_pend.remove(m);
                    assert forall|k: int| 0 <= k < rest.len() implies {
                        let e = #[trigger] rest[k];
                        e.b < n && 0 <= e.path_length <= pre_added * wm
                    } by {
                        if k < m {
                            assert(rest[k] == pre_pend[k]);
                        } else {
                            assert(rest[k] == pre_pend[k + 1]);
                        }
                    }
                }
            }
        }
        proof {
            assert(sp_dij_run(
                outs,
                paths_view(self.shortest_paths@),
                self.in_cut@,
                self.nodes_added as int,
                self.pending_edges@,
            ) == paths_view(self.shortest_paths@));
            vstd::arithmetic::mul::lemma_mul_inequality(
                self.nodes_added as int,
                gn.len() as int,
                wm,
            );
        }
    }

    /// The largest settled distance of the last run, under the
    /// distance order.
    pub fn longest_path(&self) -> (r: PathLength)
        requires
            self.shortest_paths@.len() > 0,
        ensures
            r@ == sp_longest(paths_view(self.shortest_paths@)),
    {
        let ghost s = paths_view(self.shortest_paths@);
        let mut best = self.shortest_paths[0];
        let mut i: usize = 1;
        proof {
            assert(s.take(1)[0] == s[0]);
            assert(s.take(1).len() == 1);
        }
        while i < self.shortest_paths.len()
            invariant
                s == paths_view(self.shortest_paths@),
                self.shortest_paths@.len() > 0,
                1 <= i <= self.shortest_paths@.len(),
                best@ == sp_longest(s.take(i as int)),
            decreases self.shortest_paths@.len() - i,
        {
            let x = self.shortest_paths[i];
            let next = match x.cmp(&best) {
                core::cmp::Ordering::Less => best,
                _ => x,
            };
            proof {
                assert(s.take(i as int + 1).drop_last() =~= s.take(i as int));
                assert(s.take(i as int + 1).last() == s[i as int]);
                assert(s.take(i as int + 1).len() == i as int + 1);
                assert(x@ == s[i as int]);
            }
            best = next;
            i = i + 1;
        }
        proof {
            assert(s.take(s.len() as int) =~= s);
        }
        best
    }

    fn node_count(&self) -> (r: usize)
        ensures
            r == self.nodes@.len(),
    {
        self.nodes.len()
    }

    /// Removes and returns the first pending entry with the smallest
    /// cumulative path length.
    fn pop_pending(&mut self) -> (r: DijkstraEdge)
        requires
            old(self).pending_edges@.len() > 0,
        ensures
            r == old(self).pending_edges@[sp_min_index(old(self).pending_edges@)],
            final(self).pending_edges@ == old(self).pending_edges@.remove(
                sp_min_index(old(self).pending_edges@),
            ),
            final(self).shortest_paths == old(self).shortest_paths,
            final(self).in_cut == old(self).in_cut,
            final(self).nodes == old(self).nodes,
            final(self).nodes_added == old(self).nodes_added,
    {
        let ghost pend = self.pending_edges@;
        let mut mi: usize = 0;
        let mut j: usize = 1;
        proof {
            assert(pend.take(1).len() == 1);
            assert(pend.take(1)[0] == pend[0]);
        }
        while j < self.pending_edges.len()
            invariant
                pend == self.pending_edges@,
                pend.len() > 0,
                1 <= j <= pend.len(),
                mi < j,
                mi as int == sp_min_index(pend.take(j as int)),
            decreases pend.len() - j,
        {
            proof {
                assert(pend.take(j as int + 1).drop_last() =~= pend.take(j as int));
                assert(pend.take(j as int + 1).last() == pend[j as int]);
                assert(pend.take(j as int + 1).len() == j as int + 1);
                assert(forall|k: int|
                    0 <= k < j as int ==> pend.take(j as int + 1)[k] == pend.take(j as int)[k]);
            }
            if self.pending_edges[j].path_length < self.pending_edges[mi].path_length {
                mi = j;
            }
            j = j + 1;
        }
        proof {
            assert(pend.take(pend.len() as int) =~= pend);
        }
        self.pending_edges.remove(mi)
    }

    /// Settles one node at the given cumulative length and enqueues
    /// its outgoing edges whose targets are still unsettled.
    fn add_node_to_cut(&mut self, node: &Node, path_length: i32)
        requires
            wf_nodes(old(self).nodes@),
            outs_nonneg(old(self).nodes@),
            old(self).in_cut@.len() == old(self).nodes@.len(),
            old(self).shortest_paths@.len() == old(self).nodes@.len(),
            node.index < old(self).nodes@.len(),
            *node == old(self).nodes@[node.index as int],
            old(self).nodes_added < old(self).nodes@.len(),
            old(self).nodes@.len() <= usize::MAX,
            0 <= path_length,
            path_length + nodes_wmax(old(self).nodes@) <= i32::MAX,
        ensures
            final(self).nodes == old(self).nodes,
            final(self).nodes_added == old(self).nodes_added + 1,
            final(self).in_cut@ == old(self).in_cut@.update(node.index as int, true),
            final(self).shortest_paths@ == old(self).shortest_paths@.update(
                node.index as int,
                PathLength::Reach(path_length),
            ),
            final(self).pending_edges@ == sp_push_edges(
                old(self).pending_edges@,
                final(self).in_cut@,
                node.out_edges@,
                path_length as int,
            ),
    {
        let ghost gn = self.nodes@;
        let ghost pend0 = self.pending_edges@;
        self.in_cut[node.index] = true;
        self.shortest_paths[node.index] = PathLength::Reach(path_length);
        self.nodes_added = self.nodes_added + 1;
        let ghost cut = self.in_cut@;
        let ghost es = node.out_edges@;
        let ecount = node.out_edges.len();
        let mut j: usize = 0;
        while j < ecount
            invariant
                gn == self.nodes@,
                self.nodes == old(self).nodes,
                wf_nodes(gn),
                outs_nonneg(gn),
                node.index < gn.len(),
                *node == gn[node.index as int],
                es == node.out_edges@,
                ecount == es.len(),
                j <= ecount,
                cut == self.in_cut@,
                cut.len() == gn.len(),
                0 <= path_length,
                path_length + nodes_wmax(gn) <= i32::MAX,
                self.nodes_added == old(self).nodes_added + 1,
                self.in_cut@ == old(self).in_cut@.update(node.index as int, true),
                self.shortest_paths@ == old(self).shortest_paths@.update(
                    node.index as int,
                    PathLength::Reach(path_length),
                ),
                self.pending_edges@ == sp_push_edges(pend0, cut, es.take(j as int), path_length as int),
            decreases ecount - j,
        {
            let edge = &node.out_edges[j];
            proof {
                assert(es.take(j as int + 1).drop_last() =~= es.take(j as int));
                assert(es.take(j as int + 1).last() == es[j as int]);
                assert(edge_in_graph(gn, es[j as int]));
                lemma_edge_weight_bound(gn, es[j as int]);
            }
            if !self.in_cut[edge.b] {
                self.pending_edges.push(DijkstraEdge::new(path_length, edge));
            }
            j = j + 1;
        }
        proof {
            assert(es.take(ecount as int) =~= es);
        }
    }

    /// Clears the state, settles the source at distance zero, and
    /// seeds its outgoing edges.
    fn initialize_paths(&mut self, source_index: usize)
        requires
            wf_nodes(old(self).nodes@),
            outs_nonneg(old(self).nodes@),
            source_index < old(self).nodes@.len(),
            (old(self).nodes@.len() + 1) * nodes_wmax(old(self).nodes@) <= i32::MAX,
        ensures
            final(self).nodes == old(self).nodes,
            final(self).shortest_paths@.len() == old(self).nodes@.len(),
            final(self).in_cut@.len() == old(self).nodes@.len(),
            final(self).nodes_added == 1,
            paths_view(final(self).shortest_paths@) == Seq::new(
                old(self).nodes@.len(),
                |i: int| if i == source_index as int { Some(0int) } else { None::<int> },
            ),
            final(self).in_cut@ == Seq::new(
                old(self).nodes@.len(),
                |i: int| i == source_index as int,
            ),
            final(self).pending_edges@ == sp_push_edges(
                Seq::empty(),
                final(self).in_cut@,
                sp_outs(old(self).nodes@)[source_index as int],
                0,
            ),
            sp_pend_ok(final(self).pending_edges@, old(self).nodes@.len() as int, nodes_wmax(old(self).nodes@)),
            forall|v: int|
                0 <= v < old(self).nodes@.len() ==> match #[trigger] paths_view(
                    final(self).shortest_paths@,
                )[v] {
                    Some(x) => 0 <= x <= nodes_wmax(old(self).nodes@),
                    None => true,
                },
    {
        let ghost gn = self.nodes@;
        let ghost n = gn.len();
        proof {
            lemma_nodes_wmax_nonneg(gn);
        }
        self.shortest_paths.clear();
        self.in_cut.clear();
        self.nodes_added = 0;
        self.pending_edges.clear();
        let count = self.node_count();
        let mut i: usize = 0;
        while i < count
            invariant
                gn == self.nodes@,
                self.nodes == old(self).nodes,
                count == gn.len(),
                i <= count,
                source_index < count,
                self.nodes_added == 0,
                self.pending_edges@.len() == 0,
                self.shortest_paths@.len() == i,
                self.in_cut@.len() == i,
                forall|k: int|
                    0 <= k < i ==> self.shortest_paths@[k] == (if k == source_index as int {
                        PathLength::Reach(0)
                    } else {
                        PathLength::Unreach
                    }),
                forall|k: int| 0 <= k < i ==> self.in_cut@[k] == (k == source_index as int),
            decreases count - i,
        {
            if i == source_index {
                self.in_cut.push(true);
                self.shortest_paths.push(PathLength::Reach(0));
            } else {
                self.in_cut.push(false);
                self.shortest_paths.push(PathLength::Unreach);
            }
            i = i + 1;
        }
        let ghost cut0 = self.in_cut@;
        let ghost paths0 = paths_view(self.shortest_paths@);
        let nodes_ref: &Vec<Node> = self.nodes;
        proof {
            vstd::arithmetic::mul::lemma_mul_inequality(1, gn.len() as int + 1, nodes_wmax(gn));
        }
        let ghost the_node = gn[source_index as int];
        proof {
            assert(self.pending_edges@ =~= Seq::<DijkstraEdge>::empty());
        }
        self.add_node_to_cut(&nodes_ref[source_index], 0);
        proof {
            assert(self.in_cut@ =~= cut0);
            assert(self.shortest_paths@ =~= Seq::new(
                n,
                |i: int| if i == source_index as int {
                    PathLength::Reach(0)
                } else {
                    PathLength::Unreach
                },
            ));
            assert(paths_view(self.shortest_paths@) =~= Seq::new(
                n,
                |i: int| if i == source_index as int { Some(0int) } else { None::<int> },
            ));
            assert(self.in_cut@ =~= Seq::new(n, |i: int| i == source_index as int));
            assert(the_node.out_edges@ == sp_outs(gn)[source_index as int]);
            assert(self.pending_edges@ == sp_push_edges(
                Seq::empty(),
                self.in_cut@,
                sp_outs(gn)[source_index as int],
                0,
            ));
            lemma_push_edges_ok(
                Seq::empty(),
                self.in_cut@,
                gn,
                source_index as int,
                0,
                nodes_wmax(gn),
            );
            assert forall|v: int|
                0 <= v < gn.len() implies match #[trigger] paths_view(self.shortest_paths@)[v] {
                Some(x) => 0 <= x <= nodes_wmax(gn),
                None => true,
            } by {
                assert(paths_view(self.shortest_paths@)[v] == self.shortest_paths@[v]@);
            }
        }
    }
}

/// Pushing the outgoing edges of node `src` onto a pending sequence
/// whose entries are valid and bounded keeps them valid, provided the
/// settled distance plus any edge weight stays within the bound.
proof fn lemma_push_edges_ok(
    pend: Seq<DijkstraEdge>,
    cut: Seq<bool>,
    nodes: Seq<Node>,
    src: int,
    d: int,
    bound: int,
)
    requires
        wf_nodes(nodes),
        outs_nonneg(nodes),
        0 <= src < nodes.len(),
        0 <= d,
        d + nodes_wmax(nodes) <= bound || nodes[src].out_edges@.len() == 0,
        d + nodes_wmax(nodes) <= i32::MAX,
        sp_pend_ok(pend, nodes.len() as int, bound),
    ensures
        sp_pend_ok(
            sp_push_edges(pend, cut, sp_outs(nodes)[src], d),
            nodes.len() as int,
            bound,
        ),
{
    lemma_push_edges_ok_rec(pend, cut, nodes, src, nodes[src].out_edges@.len() as int, d, bound);
    assert(sp_outs(nodes)[src] == nodes[src].out_edges@);
    assert(nodes[src].out_edges@.take(nodes[src].out_edges@.len() as int) =~= nodes[src].out_edges@);
}

proof fn lemma_push_edges_ok_rec(
    pend: Seq<DijkstraEdge>,
    cut: Seq<bool>,
    nodes: Seq<Node>,
    src: int,
    k: int,
    d: int,
    bound: int,
)
    requires
        wf_nodes(nodes),
        outs_nonneg(nodes),
        0 <= src < nodes.len(),
        0 <= k <= nodes[src].out_edges@.len(),
        0 <= d,
        d + nodes_wmax(nodes) <= bound || k == 0,
        d + nodes_wmax(nodes) <= i32::MAX,
        sp_pend_ok(pend, nodes.len() as int, bound),
    ensures
        sp_pend_ok(
            sp_push_edges(pend, cut, nodes[src].out_edges@.take(k), d),
            nodes.len() as int,
            bound,
        ),
    decreases k,
{
    let es = nodes[src].out_edges@;
    if k == 0 {
        assert(es.take(0) =~= Seq::<DirectedEdge>::empty());
        assert(sp_push_edges(pend, cut, es.take(0), d) == pend);
    } else {
        lemma_push_edges_ok_rec(pend, cut, nodes, src, k - 1, d, bound);
        assert(es.take(k).drop_last() =~= es.take(k - 1));
        assert(es.take(k).last() == es[k - 1]);
        let e = es[k - 1];
        assert(edge_in_graph(nodes, e));
        lemma_edge_weight_bound(nodes, e);
        lemma_nodes_wmax_nonneg(nodes);
        let p = sp_push_edges(pend, cut, es.take(k - 1), d);
        if e.b < cut.len() && !cut[e.b as int] {
            let ne = DijkstraEdge { path_length: (d + e.weight) as i32, a: e.a, b: e.b };
            assert(0 <= d + e.weight <= bound);
            assert(ne.path_length == d + e.weight);
            assert forall|kk: int|
                0 <= kk < p.push(ne).len() implies {
                let ee = #[trigger] p.push(ne)[kk];
                ee.b < nodes.len() && 0 <= ee.path_length <= bound
            } by {
                if kk < p.len() {
                    assert(p.push(ne)[kk] == p[kk]);
                } else {
                    assert(p.push(ne)[kk] == ne);
                }
            }
        }
    }
}

} // verus!
