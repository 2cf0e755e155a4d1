//! The Bellman-Ford relaxation engine: double-buffered sweeps over the
//! incoming adjacency, a fixed number of sweeps equal to the node
//! count, and negative-cycle detection from the final sweep.

use vstd::prelude::*;
use crate::graph::{
    DirectedEdge, Node, PathLength, edge_in_ins, ins_wf, lemma_in_edge_weight_bound,
    lemma_nodes_wmax_nonneg, lemma_order_transitive, nodes_wmax, paths_view, sp_cat, sp_ins,
    sp_is_path, sp_le, sp_min, sp_path_weight, sp_vals_bounded, wf_nodes,
};

verus! {

/// The best relaxation candidate over a sequence of incoming edges:
/// the minimum, under the distance order, of `cur[e.a] + e.weight`
/// over the edges, or unreachable when there is none.
pub open spec fn sp_best_in(cur: Seq<Option<int>>, es: Seq<DirectedEdge>) -> Option<int>
    decreases es.len(),
{
    if es.len() == 0 {
        None
    } else {
        sp_min(
            sp_best_in(cur, es.drop_last()),
            sp_cat(cur[es.last().a as int], es.last().weight as int),
        )
    }
}

/// One node's value after a relaxation sweep: the minimum of its
/// previous value and its best incoming candidate. `ins` is the
/// incoming adjacency, node by node.
pub open spec fn sp_stepped(ins: Seq<Seq<DirectedEdge>>, cur: Seq<Option<int>>, v: int) -> Option<
    int,
> {
    sp_min(cur[v], sp_best_in(cur, ins[v]))
}

/// One full relaxation sweep, computed purely from the previous
/// iteration's values.
pub open spec fn sp_step(ins: Seq<Seq<DirectedEdge>>, cur: Seq<Option<int>>) -> Seq<Option<int>> {
    Seq::new(ins.len(), |v: int| sp_stepped(ins, cur, v))
}

/// Some node among the first `k` changes its value in the next sweep.
pub open spec fn sp_changed_upto(ins: Seq<Seq<DirectedEdge>>, cur: Seq<Option<int>>, k: int) -> bool {
    exists|v: int| 0 <= v < k && #[trigger] sp_stepped(ins, cur, v) != cur[v]
}

/// Some node changes its value in the next sweep.
pub open spec fn sp_changes(ins: Seq<Seq<DirectedEdge>>, cur: Seq<Option<int>>) -> bool {
    sp_changed_upto(ins, cur, ins.len() as int)
}

/// The initial distance vector: with a concrete source, zero there and
/// unreachable elsewhere; in virtual super-source mode, zero
/// everywhere.
pub open spec fn sp_init(n: nat, source: Option<usize>) -> Seq<Option<int>> {
    match source {
        Some(s) => Seq::new(n, |i: int| if i == s as int { Some(0int) } else { None::<int> }),
        None => Seq::new(n, |i: int| Some(0int)),
    }
}

/// The distance vector after `k` relaxation sweeps.
pub open spec fn sp_iterate(ins: Seq<Seq<DirectedEdge>>, source: Option<usize>, k: int) -> Seq<
    Option<int>,
>
    decreases k,
{
    if k <= 0 {
        sp_init(ins.len(), source)
    } else {
        sp_step(ins, sp_iterate(ins, source, k - 1))
    }
}

/// The engine reports a negative cycle when the final sweep still
/// changes some node's value.
pub open spec fn sp_detects_cycle(ins: Seq<Seq<DirectedEdge>>, source: Option<usize>) -> bool {
    ins.len() > 0 && sp_changes(ins, sp_iterate(ins, source, ins.len() - 1))
}

pub struct BellmanFord {
    pub has_negative_cycle: bool,
    pub first_paths: Vec<PathLength>,
    pub second_paths: Vec<PathLength>,
    pub node_count: usize,
}

impl BellmanFord {
    /// Both buffers hold one entry per node.
    pub open spec fn buffers_wf(self) -> bool {
        self.first_paths@.len() == self.node_count && self.second_paths@.len() == self.node_count
    }

    /// The buffer holding the result of the last sweep, as distances.
    pub open spec fn solution(self) -> Seq<Option<int>> {
        if self.node_count % 2 == 0 {
            paths_view(self.first_paths@)
        } else {
            paths_view(self.second_paths@)
        }
    }

    pub fn new(node_count: usize) -> (r: BellmanFord)
        ensures
            r.node_count == node_count,
            !r.has_negative_cycle,
            r.first_paths@.len() == 0,
            r.second_paths@.len() == 0,
    {
        let first_paths = Vec::<PathLength>::with_capacity(node_count);
        let second_paths = Vec::<PathLength>::with_capacity(node_count);
        BellmanFord { has_negative_cycle: false, node_count, first_paths, second_paths }
    }

    /// Runs exactly `node_count` relaxation sweeps from the given
    /// source (or the virtual super source when `None`), recording
    /// whether the final sweep still changed anything. Returns true
    /// exactly when no negative cycle was detected.
    pub fn compute_shortest_paths(&mut self, source_index: Option<usize>, nodes: &Vec<Node>) -> (ok:
        bool)
        requires
            old(self).node_count == nodes@.len(),
            wf_nodes(nodes@),
            (nodes@.len() + 1) * nodes_wmax(nodes@) <= i32::MAX,
        ensures
            final(self).node_count == old(self).node_count,
            final(self).buffers_wf(),
            final(self).solution() == sp_iterate(sp_ins(nodes@), source_index, nodes@.len() as int),
            final(self).has_negative_cycle == sp_detects_cycle(sp_ins(nodes@), source_index),
            ok == !final(self).has_negative_cycle,
            sp_vals_bounded(final(self).solution(), nodes@.len() * nodes_wmax(nodes@)),
            !final(self).has_negative_cycle ==> sp_step(sp_ins(nodes@), final(self).solution())
                == final(self).solution(),
    {
        self.init_path_lengths(source_index);
        self.has_negative_cycle = false;
        let n = self.node_count;
        let ghost gn = nodes@;
        let ghost gins = sp_ins(gn);
        let ghost src = source_index;
        let mut cur: Vec<PathLength> = Vec::new();
        let mut nxt: Vec<PathLength> = Vec::new();
        core::mem::swap(&mut cur, &mut self.first_paths);
        core::mem::swap(&mut nxt, &mut self.second_paths);
        proof {
            lemma_nodes_wmax_nonneg(gn);
        }
        let mut i: usize = 0;
        while i < n
            invariant
                n == gn.len(),
                wf_nodes(gn),
                gn == nodes@,
                gins == sp_ins(gn),
                gins.len() == n,
                (gn.len() + 1) * nodes_wmax(gn) <= i32::MAX,
                nodes_wmax(gn) >= 0,
                i <= n,
                cur@.len() == n,
                nxt@.len() == n,
                paths_view(cur@) == sp_iterate(gins, src, i as int),
                sp_vals_bounded(paths_view(cur@), i * nodes_wmax(gn)),
                i > 0 ==> self.has_negative_cycle == sp_changes(
                    gins,
                    sp_iterate(gins, src, i as int - 1),
                ),
                i == 0 ==> self.has_negative_cycle == false,
                self.node_count == n,
            decreases n - i,
        {
            let ghost pre = paths_view(cur@);
            proof {
                vstd::arithmetic::mul::lemma_mul_inequality(
                    i as int,
                    gn.len() as int,
                    nodes_wmax(gn),
                );
                vstd::arithmetic::mul::lemma_mul_inequality(
                    i as int + 1,
                    gn.len() as int + 1,
                    nodes_wmax(gn),
                );
                assert((i as int + 1) * nodes_wmax(gn) == (i as int) * nodes_wmax(gn)
                    + nodes_wmax(gn)) by (nonlinear_arith);
                assert((i as int) * nodes_wmax(gn) >= 0) by (nonlinear_arith)
                    requires i as int >= 0 && nodes_wmax(gn) >= 0;
            }
            let changed = BellmanFord::step_solution(
                nodes,
                &cur,
                &mut nxt,
                Ghost((i as int) * nodes_wmax(gn)),
            );
            self.has_negative_cycle = changed;
            core::mem::swap(&mut cur, &mut nxt);
            proof {
                assert(sp_iterate(gins, src, i as int + 1) == sp_step(
                    gins,
                    sp_iterate(gins, src, i as int),
                ));
                assert((i as int + 1) * nodes_wmax(gn) == (i as int) * nodes_wmax(gn)
                    + nodes_wmax(gn)) by (nonlinear_arith);
            }
            i = i + 1;
        }
        core::mem::swap(&mut cur, &mut nxt);
        proof {
            vstd::arithmetic::mul::lemma_mul_inequality(
                gn.len() as int,
                gn.len() as int + 1,
                nodes_wmax(gn),
            );
        }
        if n % 2 == 0 {
            self.first_paths = nxt;
            self.second_paths = cur;
        } else {
            self.second_paths = nxt;
            self.first_paths = cur;
        }
        proof {
            if !self.has_negative_cycle {
                lemma_no_cycle_fixed_point(gins, src);
            }
        }
        !self.has_negative_cycle
    }

    /// The distance vector computed by the last run.
    pub fn path_solutions(&self) -> (r: &Vec<PathLength>)
        ensures
            paths_view(r@) == self.solution(),
    {
        match self.node_count % 2 {
            0 => &self.first_paths,
            _ => &self.second_paths,
        }
    }

    fn init_path_lengths(&mut self, source_index: Option<usize>)
        ensures
            final(self).node_count == old(self).node_count,
            final(self).has_negative_cycle == old(self).has_negative_cycle,
            final(self).first_paths@.len() == final(self).node_count,
            final(self).second_paths@.len() == final(self).node_count,
            paths_view(final(self).first_paths@) == sp_init(final(self).node_count as nat, source_index),
    {
        let (index, initial_value) = match source_index {
            Some(ndx) => (ndx, PathLength::Unreach),
            None => (0, PathLength::Reach(0)),
        };
        self.first_paths.clear();
        self.second_paths.clear();
        let n = self.node_count;
        let mut i: usize = 0;
        while i < n
            invariant
                i <= n,
                self.node_count == n,
                self.has_negative_cycle == old(self).has_negative_cycle,
                self.first_paths@.len() == i,
                self.second_paths@.len() == i,
                forall|k: int|
                    0 <= k < i ==> paths_view(self.first_paths@)[k] == sp_init(
                        n as nat,
                        source_index,
                    )[k],
                index == (match source_index {
                    Some(ndx) => ndx,
                    None => 0usize,
                }),
                initial_value@ == (match source_index {
                    Some(_s) => None::<int>,
                    None => Some(0int),
                }),
            decreases n - i,
        {
            self.first_paths.push(
                if i == index {
                    PathLength::Reach(0)
                } else {
                    initial_value
                },
            );
            self.second_paths.push(PathLength::Unreach);
            i = i + 1;
        }
        proof {
            assert(paths_view(self.first_paths@) =~= sp_init(n as nat, source_index));
        }
    }

    /// One relaxation sweep: fills `target` from `source` alone and
    /// reports whether any node's value strictly improved.
    fn step_solution(
        nodes: &Vec<Node>,
        source: &Vec<PathLength>,
        target: &mut Vec<PathLength>,
        Ghost(b): Ghost<int>,
    ) -> (changed: bool)
        requires
            wf_nodes(nodes@),
            source@.len() == nodes@.len(),
            old(target)@.len() == nodes@.len(),
            b >= 0,
            sp_vals_bounded(paths_view(source@), b),
            b + nodes_wmax(nodes@) <= i32::MAX,
        ensures
            final(target)@.len() == nodes@.len(),
            paths_view(final(target)@) == sp_step(sp_ins(nodes@), paths_view(source@)),
            changed == sp_changes(sp_ins(nodes@), paths_view(source@)),
            sp_vals_bounded(paths_view(final(target)@), b + nodes_wmax(nodes@)),
    {
        let ghost gins = sp_ins(nodes@);
        let ghost cur = paths_view(source@);
        let ghost wm = nodes_wmax(nodes@);
        proof {
            lemma_nodes_wmax_nonneg(nodes@);
        }
        let mut any_changed = false;
        let n = nodes.len();
        let mut v: usize = 0;
        while v < n
            invariant
                n == nodes@.len(),
                wf_nodes(nodes@),
                gins == sp_ins(nodes@),
                gins.len() == n,
                source@.len() == n,
                cur == paths_view(source@),
                wm == nodes_wmax(nodes@),
                b >= 0,
                wm >= 0,
                sp_vals_bounded(cur, b),
                b + wm <= i32::MAX,
                v <= n,
                target@.len() == n,
                forall|k: int| 0 <= k < v ==> paths_view(target@)[k] == sp_stepped(gins, cur, k),
                forall|k: int|
                    0 <= k < v ==> match #[trigger] paths_view(target@)[k] {
                        Some(x) => -(b + wm) <= x <= b + wm,
                        None => true,
                    },
                any_changed == sp_changed_upto(gins, cur, v as int),
            decreases n - v,
        {
            let node = &nodes[v];
            let ghost es = node.in_edges@;
            proof {
                assert(gins[v as int] == nodes@[v as int].in_edges@);
            }
            let ecount = node.in_edges.len();
            let mut best = PathLength::Unreach;
            let mut j: usize = 0;
            while j < ecount
                invariant
                    n == nodes@.len(),
                    wf_nodes(nodes@),
                    gins == sp_ins(nodes@),
                    gins.len() == n,
                    source@.len() == n,
                    cur == paths_view(source@),
                    wm == nodes_wmax(nodes@),
                    b >= 0,
                    wm >= 0,
                    sp_vals_bounded(cur, b),
                    b + wm <= i32::MAX,
                    v < n,
                    node == &nodes@[v as int],
                    es == node.in_edges@,
                    es == gins[v as int],
                    ecount == es.len(),
                    j <= ecount,
                    best@ == sp_best_in(cur, es.take(j as int)),
                    match best@ {
                        Some(x) => -(b + wm) <= x <= b + wm,
                        None => true,
                    },
                decreases ecount - j,
            {
                let edge = &node.in_edges[j];
                proof {
                    lemma_in_edge_weight_bound(nodes@, v as int, j as int);
                    assert(cur[edge.a as int] == source@[edge.a as int]@);
                }
                let c = source[edge.a].cat(edge);
                let next_best = match c.cmp(&best) {
                    core::cmp::Ordering::Less => c,
                    _ => best,
                };
                proof {
                    assert(es.take(j as int + 1).drop_last() =~= es.take(j as int));
                    assert(es.take(j as int + 1).last() == es[j as int]);
                    assert(next_best@ == sp_min(best@, sp_cat(cur[edge.a as int], edge.weight as int)));
                }
                best = next_best;
                j = j + 1;
            }
            proof {
                assert(es.take(ecount as int) =~= es);
            }
            let prev = source[v];
            let stepped = match best.cmp(&prev) {
                core::cmp::Ordering::Less => {
                    any_changed = true;
                    best
                },
                _ => prev,
            };
            proof {
                assert(prev@ == cur[v as int]);
                assert(stepped@ == sp_stepped(gins, cur, v as int));
                assert(sp_changed_upto(gins, cur, v as int + 1) == (sp_changed_upto(
                    gins,
                    cur,
                    v as int,
                ) || sp_stepped(gins, cur, v as int) != cur[v as int]));
            }
            let ghost t_pre = target@;
            target[v] = stepped;
            proof {
                assert(target@ == t_pre.update(v as int, stepped));
                assert forall|k: int| 0 <= k < v as int + 1 implies match #[trigger] paths_view(
                    target@,
                )[k] {
                    Some(x) => -(b + wm) <= x <= b + wm,
                    None => true,
                } by {
                    assert(paths_view(target@)[k] == target@[k]@);
                    if k < v as int {
                        assert(target@[k] == t_pre[k]);
                        assert(paths_view(t_pre)[k] == t_pre[k]@);
                    } else {
                        assert(target@[k] == stepped);
                    }
                }
            }
            v = v + 1;
        }
        proof {
            assert(paths_view(target@) =~= sp_step(gins, cur));
        }
        any_changed
    }
}

/// The length of the distance vector after any number of sweeps is the
/// node count.
pub proof fn lemma_iterate_len(ins: Seq<Seq<DirectedEdge>>, source: Option<usize>, k: int)
    ensures
        sp_iterate(ins, source, k).len() == ins.len(),
    decreases k,
{
    if k > 0 {
        lemma_iterate_len(ins, source, k - 1);
    }
}

/// The best incoming candidate is no larger than the candidate through
/// any single incoming edge.
pub proof fn lemma_best_in_le(cur: Seq<Option<int>>, es: Seq<DirectedEdge>, j: int)
    requires
        0 <= j < es.len(),
    ensures
        sp_le(sp_best_in(cur, es), sp_cat(cur[es[j].a as int], es[j].weight as int)),
    decreases es.len(),
{
    if j < es.len() - 1 {
        lemma_best_in_le(cur, es.drop_last(), j);
    }
}

/// Triangle inequality: at a fixed point of the relaxation sweep (the
/// state reached when no negative cycle was detected), every edge
/// (u, v) satisfies `dist[v] <= dist[u] + weight(u, v)` under the
/// distance order.
pub proof fn lemma_fixed_point_triangle(ins: Seq<Seq<DirectedEdge>>, sol: Seq<Option<int>>)
    requires
        sol.len() == ins.len(),
        sp_step(ins, sol) == sol,
    ensures
        forall|v: int, j: int|
            0 <= v < ins.len() && 0 <= j < ins[v].len() ==> sp_le(
                sol[v],
                sp_cat(sol[(#[trigger] ins[v][j]).a as int], ins[v][j].weight as int),
            ),
{
    assert forall|v: int, j: int|
        0 <= v < ins.len() && 0 <= j < ins[v].len() implies sp_le(
        sol[v],
        sp_cat(sol[(#[trigger] ins[v][j]).a as int], ins[v][j].weight as int),
    ) by {
        assert(sp_step(ins, sol)[v] == sol[v]);
        assert(sp_stepped(ins, sol, v) == sol[v]);
        lemma_best_in_le(sol, ins[v], j);
    }
}

/// Triangle inequality for a single edge of the graph.
pub proof fn lemma_edge_triangle(ins: Seq<Seq<DirectedEdge>>, sol: Seq<Option<int>>, e: DirectedEdge)
    requires
        sol.len() == ins.len(),
        sp_step(ins, sol) == sol,
        edge_in_ins(ins, e),
    ensures
        sp_le(sol[e.b as int], sp_cat(sol[e.a as int], e.weight as int)),
{
    let j = choose|j: int| 0 <= j < ins[e.b as int].len() && ins[e.b as int][j] == e;
    lemma_fixed_point_triangle(ins, sol);
    assert(ins[e.b as int][j] == e);
}

/// A run that detects no negative cycle ends at a fixed point of the
/// relaxation sweep.
pub proof fn lemma_no_cycle_fixed_point(ins: Seq<Seq<DirectedEdge>>, source: Option<usize>)
    requires
        !sp_detects_cycle(ins, source),
    ensures
        sp_iterate(ins, source, ins.len() as int).len() == ins.len(),
        sp_step(ins, sp_iterate(ins, source, ins.len() as int)) == sp_iterate(
            ins,
            source,
            ins.len() as int,
        ),
{
    let n = ins.len() as int;
    lemma_iterate_len(ins, source, n);
    if n > 0 {
        let prev = sp_iterate(ins, source, n - 1);
        lemma_iterate_len(ins, source, n - 1);
        assert forall|v: int| 0 <= v < n implies sp_step(ins, prev)[v] == prev[v] by {
            assert(!(sp_stepped(ins, prev, v) != prev[v]));
        }
        assert(sp_step(ins, prev) =~= prev);
        assert(sp_iterate(ins, source, n) == sp_step(ins, prev));
    } else {
        assert(sp_step(ins, sp_iterate(ins, source, 0)) =~= sp_iterate(ins, source, 0));
    }
}

/// Triangle inequality: after any run that detects no negative cycle,
/// every edge (u, v) satisfies `dist[v] <= dist[u] + weight(u, v)`
/// under the distance order, where `dist` is the run's final distance
/// vector.
pub proof fn lemma_run_triangle(ins: Seq<Seq<DirectedEdge>>, source: Option<usize>)
    requires
        !sp_detects_cycle(ins, source),
    ensures
        forall|v: int, j: int|
            0 <= v < ins.len() && 0 <= j < ins[v].len() ==> sp_le(
                sp_iterate(ins, source, ins.len() as int)[v],
                sp_cat(
                    sp_iterate(ins, source, ins.len() as int)[(#[trigger] ins[v][j]).a as int],
                    ins[v][j].weight as int,
                ),
            ),
{
    lemma_no_cycle_fixed_point(ins, source);
    lemma_fixed_point_triangle(ins, sp_iterate(ins, source, ins.len() as int));
}

/// In virtual super-source mode every node starts at zero and stays
/// reachable through every sweep.
pub proof fn lemma_iterate_all_finite(ins: Seq<Seq<DirectedEdge>>, k: int)
    ensures
        forall|v: int|
            0 <= v < ins.len() ==> (#[trigger] sp_iterate(ins, None, k)[v]) matches Some(_x),
    decreases k,
{
    lemma_iterate_len(ins, None, k);
    if k <= 0 {
    } else {
        lemma_iterate_all_finite(ins, k - 1);
        lemma_iterate_len(ins, None, k - 1);
        let prev = sp_iterate(ins, None, k - 1);
        assert forall|v: int|
            0 <= v < ins.len() implies (#[trigger] sp_iterate(ins, None, k)[v]) matches Some(
            _x,
        ) by {
            assert(sp_iterate(ins, None, k)[v] == sp_stepped(ins, prev, v));
            assert(prev[v] matches Some(_y));
        }
    }
}


/// One sweep never increases any node's distance.
pub proof fn lemma_step_le(ins: Seq<Seq<DirectedEdge>>, cur: Seq<Option<int>>, v: int)
    requires
        0 <= v < ins.len(),
    ensures
        sp_le(sp_step(ins, cur)[v], cur[v]),
{
}

/// Distances only shrink as more sweeps run.
pub proof fn lemma_iterate_nonincreasing(
    ins: Seq<Seq<DirectedEdge>>,
    source: Option<usize>,
    k1: int,
    k2: int,
    v: int,
)
    requires
        0 <= k1 <= k2,
        0 <= v < ins.len(),
    ensures
        sp_le(sp_iterate(ins, source, k2)[v], sp_iterate(ins, source, k1)[v]),
    decreases k2 - k1,
{
    lemma_iterate_len(ins, source, k1);
    lemma_iterate_len(ins, source, k2);
    if k1 < k2 {
        lemma_iterate_nonincreasing(ins, source, k1, k2 - 1, v);
        lemma_step_le(ins, sp_iterate(ins, source, k2 - 1), v);
        lemma_order_transitive(
            sp_iterate(ins, source, k2)[v],
            sp_iterate(ins, source, k2 - 1)[v],
            sp_iterate(ins, source, k1)[v],
        );
    }
}

/// After `m` sweeps the distance of the node reached by the first `m`
/// edges of a path is at most that prefix's weight.
proof fn lemma_prefix_bound(
    ins: Seq<Seq<DirectedEdge>>,
    source: Option<usize>,
    es: Seq<DirectedEdge>,
    m: int,
)
    requires
        ins_wf(ins),
        sp_is_path(ins, es),
        0 <= es[0].a < ins.len(),
        sp_le(sp_init(ins.len(), source)[es[0].a as int], Some(0int)),
        0 <= m <= es.len(),
    ensures
        sp_le(
            sp_iterate(ins, source, m)[if m == 0 {
                es[0].a as int
            } else {
                es[m - 1].b as int
            }],
            Some(sp_path_weight_prefix(es, m)),
        ),
    decreases m,
{
    lemma_iterate_len(ins, source, m);
    if m == 0 {
        assert(sp_path_weight_prefix(es, 0) == 0) by {
            assert(es.take(0) =~= Seq::<DirectedEdge>::empty());
        }
    } else {
        lemma_prefix_bound(ins, source, es, m - 1);
        lemma_iterate_len(ins, source, m - 1);
        let prev = sp_iterate(ins, source, m - 1);
        let e = es[m - 1];
        assert(edge_in_ins(ins, e));
        let j = choose|j: int| 0 <= j < ins[e.b as int].len() && ins[e.b as int][j] == e;
        assert(ins[e.b as int][j] == e);
        lemma_best_in_le(prev, ins[e.b as int], j);
        let from = if m - 1 == 0 {
            es[0].a as int
        } else {
            es[m - 2].b as int
        };
        assert(e.a as int == from) by {
            if m - 1 > 0 {
                assert(es[m - 2].b == es[m - 1].a);
            }
        }
        assert(sp_path_weight_prefix(es, m) == sp_path_weight_prefix(es, m - 1) + e.weight) by {
            assert(es.take(m).drop_last() =~= es.take(m - 1));
            assert(es.take(m).last() == es[m - 1]);
        }
        assert(sp_le(sp_cat(prev[e.a as int], e.weight as int), Some(sp_path_weight_prefix(es, m))));
        assert(sp_iterate(ins, source, m)[e.b as int] == sp_stepped(ins, prev, e.b as int));
        lemma_order_transitive(
            sp_iterate(ins, source, m)[e.b as int],
            sp_cat(prev[e.a as int], e.weight as int),
            Some(sp_path_weight_prefix(es, m)),
        );
    }
}

/// The weight of the first `m` edges of a path.
pub open spec fn sp_path_weight_prefix(es: Seq<DirectedEdge>, m: int) -> int {
    sp_path_weight(es.take(m))
}

/// Soundness of the relaxation: after enough sweeps, a node's distance
/// is at most the weight of any path that reaches it from a starting
/// node whose initial distance is zero.
pub proof fn lemma_distance_at_most_any_path(
    ins: Seq<Seq<DirectedEdge>>,
    source: Option<usize>,
    es: Seq<DirectedEdge>,
    k: int,
)
    requires
        ins_wf(ins),
        sp_is_path(ins, es),
        0 <= es[0].a < ins.len(),
        sp_le(sp_init(ins.len(), source)[es[0].a as int], Some(0int)),
        k >= es.len(),
    ensures
        sp_le(sp_iterate(ins, source, k)[es.last().b as int], Some(sp_path_weight(es))),
{
    let m = es.len() as int;
    lemma_prefix_bound(ins, source, es, m);
    assert(es.take(m) =~= es);
    assert(edge_in_ins(ins, es[m - 1]));
    lemma_iterate_nonincreasing(ins, source, m, k, es.last().b as int);
    lemma_order_transitive(
        sp_iterate(ins, source, k)[es.last().b as int],
        sp_iterate(ins, source, m)[es.last().b as int],
        Some(sp_path_weight(es)),
    );
}


} // verus!
