//! Two-pass construction of the adjacency structure from a node count
//! and an edge list: a counting pass sizes each node's edge storage
//! exactly, a second pass populates it, keeping edge order
//! source-stable.

use vstd::prelude::*;
use crate::graph::{
    DirectedEdge, Node, NodeBuilder, edges_wmax, lemma_edges_wmax_bound, lemma_wmax_le,
    nodes_wmax, sp_ins, sp_outs, wf_nodes,
};

verus! {

/// The edges leaving node `i`, in input order.
pub open spec fn sp_edges_from(edges: Seq<DirectedEdge>, i: int) -> Seq<DirectedEdge>
    decreases edges.len(),
{
    if edges.len() == 0 {
        Seq::empty()
    } else {
        let p = sp_edges_from(edges.drop_last(), i);
        if edges.last().a == i {
            p.push(edges.last())
        } else {
            p
        }
    }
}

/// The edges entering node `i`, in input order.
pub open spec fn sp_edges_into(edges: Seq<DirectedEdge>, i: int) -> Seq<DirectedEdge>
    decreases edges.len(),
{
    if edges.len() == 0 {
        Seq::empty()
    } else {
        let p = sp_edges_into(edges.drop_last(), i);
        if edges.last().b == i {
            p.push(edges.last())
        } else {
            p
        }
    }
}

/// The incoming adjacency of the graph built from an edge list.
pub open spec fn sp_built_ins(n: nat, edges: Seq<DirectedEdge>) -> Seq<Seq<DirectedEdge>> {
    Seq::new(n, |i: int| sp_edges_into(edges, i))
}

/// The outgoing adjacency of the graph built from an edge list.
pub open spec fn sp_built_outs(n: nat, edges: Seq<DirectedEdge>) -> Seq<Seq<DirectedEdge>> {
    Seq::new(n, |i: int| sp_edges_from(edges, i))
}

/// Every edge leaving `i` indeed has source `i` and is drawn from the
/// input list.
pub proof fn lemma_edges_from_sound(edges: Seq<DirectedEdge>, i: int)
    ensures
        forall|j: int|
            0 <= j < sp_edges_from(edges, i).len() ==> (#[trigger] sp_edges_from(edges, i)[j]).a
                == i && edges.contains(sp_edges_from(edges, i)[j]),
    decreases edges.len(),
{
    if edges.len() > 0 {
        let pre = edges.drop_last();
        lemma_edges_from_sound(pre, i);
        assert forall|j: int|
            0 <= j < sp_edges_from(edges, i).len() implies (#[trigger] sp_edges_from(
            edges,
            i,
        )[j]).a == i && edges.contains(sp_edges_from(edges, i)[j]) by {
            let p = sp_edges_from(pre, i);
            if j < p.len() {
                assert(sp_edges_from(edges, i)[j] == p[j]);
                let w = choose|w: int| 0 <= w < pre.len() && pre[w] == p[j];
                assert(edges[w] == p[j]);
            } else {
                assert(sp_edges_from(edges, i)[j] == edges.last());
                assert(edges[edges.len() - 1] == edges.last());
            }
        }
    }
}

/// Every edge entering `i` indeed has target `i` and is drawn from the
/// input list.
pub proof fn lemma_edges_into_sound(edges: Seq<DirectedEdge>, i: int)
    ensures
        forall|j: int|
            0 <= j < sp_edges_into(edges, i).len() ==> (#[trigger] sp_edges_into(edges, i)[j]).b
                == i && edges.contains(sp_edges_into(edges, i)[j]),
    decreases edges.len(),
{
    if edges.len() > 0 {
        let pre = edges.drop_last();
        lemma_edges_into_sound(pre, i);
        assert forall|j: int|
            0 <= j < sp_edges_into(edges, i).len() implies (#[trigger] sp_edges_into(
            edges,
            i,
        )[j]).b == i && edges.contains(sp_edges_into(edges, i)[j]) by {
            let p = sp_edges_into(pre, i);
            if j < p.len() {
                assert(sp_edges_into(edges, i)[j] == p[j]);
                let w = choose|w: int| 0 <= w < pre.len() && pre[w] == p[j];
                assert(edges[w] == p[j]);
            } else {
                assert(sp_edges_into(edges, i)[j] == edges.last());
                assert(edges[edges.len() - 1] == edges.last());
            }
        }
    }
}

/// Every input edge is recorded among the edges entering its target.
pub proof fn lemma_edges_into_complete(edges: Seq<DirectedEdge>, k: int)
    requires
        0 <= k < edges.len(),
    ensures
        sp_edges_into(edges, edges[k].b as int).contains(edges[k]),
    decreases edges.len(),
{
    let i = edges[k].b as int;
    if k == edges.len() - 1 {
        let p = sp_edges_into(edges.drop_last(), i);
        assert(sp_edges_into(edges, i) == p.push(edges.last()));
        assert(sp_edges_into(edges, i)[p.len() as int] == edges[k]);
    } else {
        let pre = edges.drop_last();
        assert(pre[k] == edges[k]);
        lemma_edges_into_complete(pre, k);
        let p = sp_edges_into(pre, i);
        let w = choose|w: int| 0 <= w < p.len() && p[w] == edges[k];
        if edges.last().b == i {
            assert(sp_edges_into(edges, i) == p.push(edges.last()));
            assert(sp_edges_into(edges, i)[w] == edges[k]);
        } else {
            assert(sp_edges_into(edges, i) == p);
        }
    }
}

/// The built graph's largest absolute weight is bounded by the edge
/// list's.
pub proof fn lemma_built_wmax(nodes: Seq<Node>, edges: Seq<DirectedEdge>)
    requires
        forall|i: int|
            0 <= i < nodes.len() ==> (#[trigger] nodes[i].in_edges@) == sp_edges_into(
                edges,
                i,
            ),
    ensures
        nodes_wmax(nodes) <= edges_wmax(edges),
{
    crate::graph::lemma_edges_wmax_nonneg(edges);
    assert forall|i: int, j: int|
        0 <= i < nodes.len() && 0 <= j < nodes[i].in_edges@.len() implies -edges_wmax(edges)
        <= (#[trigger] nodes[i].in_edges@[j]).weight <= edges_wmax(edges) by {
        lemma_edges_into_sound(edges, i);
        let e = nodes[i].in_edges@[j];
        assert(sp_edges_into(edges, i)[j] == e);
        assert(edges.contains(e));
        let w = choose|w: int| 0 <= w < edges.len() && edges[w] == e;
        lemma_edges_wmax_bound(edges, w);
    }
    lemma_wmax_le(nodes, edges_wmax(edges));
}

/// Builds the immutable adjacency structure from a node count and an
/// edge list, in two passes: degree counting to size each node's
/// storage, then population in input order.
pub fn build_nodes(node_count: usize, edges: &Vec<DirectedEdge>) -> (r: Vec<Node>)
    requires
        forall|k: int|
            0 <= k < edges@.len() ==> (#[trigger] edges@[k]).a < node_count && edges@[k].b
                < node_count,
    ensures
        r@.len() == node_count,
        forall|i: int|
            0 <= i < node_count ==> (#[trigger] r@[i]).index == i && r@[i].out_edges@
                == sp_edges_from(edges@, i) && r@[i].in_edges@ == sp_edges_into(edges@, i),
        wf_nodes(r@),
        sp_ins(r@) == sp_built_ins(node_count as nat, edges@),
        sp_outs(r@) == sp_built_outs(node_count as nat, edges@),
        nodes_wmax(r@) <= edges_wmax(edges@),
{
    let ecount = edges.len();
    let mut builders: Vec<NodeBuilder> = Vec::with_capacity(node_count);
    let mut i: usize = 0;
    while i < node_count
        invariant
            i <= node_count,
            builders@.len() == i,
            forall|k: int|
                0 <= k < i ==> (#[trigger] builders@[k]).index == k
                    && builders@[k].outgoing_edge_count == 0
                    && builders@[k].incoming_edge_count == 0,
        decreases node_count - i,
    {
        builders.push(NodeBuilder::new(i));
        i = i + 1;
    }
    let mut k: usize = 0;
    while k < ecount
        invariant
            k <= ecount,
            ecount == edges@.len(),
            builders@.len() == node_count,
            forall|kk: int|
                0 <= kk < edges@.len() ==> (#[trigger] edges@[kk]).a < node_count
                    && edges@[kk].b < node_count,
            forall|idx: int| 0 <= idx < node_count ==> (#[trigger] builders@[idx]).index == idx,
            forall|idx: int|
                0 <= idx < node_count ==> (#[trigger] builders@[idx]).outgoing_edge_count <= k
                    && builders@[idx].incoming_edge_count <= k,
        decreases ecount - k,
    {
        let a = edges[k].a;
        let b = edges[k].b;
        builders[a].outgoing_edge_count = builders[a].outgoing_edge_count + 1;
        builders[b].incoming_edge_count = builders[b].incoming_edge_count + 1;
        k = k + 1;
    }
    let mut nodes: Vec<Node> = Vec::with_capacity(node_count);
    i = 0;
    while i < node_count
        invariant
            i <= node_count,
            builders@.len() == node_count,
            nodes@.len() == i,
            forall|idx: int| 0 <= idx < node_count ==> (#[trigger] builders@[idx]).index == idx,
            forall|idx: int|
                0 <= idx < i ==> (#[trigger] nodes@[idx]).index == idx
                    && nodes@[idx].out_edges@ == sp_edges_from(edges@.take(0), idx)
                    && nodes@[idx].in_edges@ == sp_edges_into(edges@.take(0), idx),
        decreases node_count - i,
    {
        let node = builders[i].to_node();
        proof {
            assert(edges@.take(0) =~= Seq::<DirectedEdge>::empty());
            assert(sp_edges_from(edges@.take(0), i as int) =~= Seq::<DirectedEdge>::empty());
            assert(sp_edges_into(edges@.take(0), i as int) =~= Seq::<DirectedEdge>::empty());
        }
        nodes.push(node);
        i = i + 1;
    }
    k = 0;
    while k < ecount
        invariant
            k <= ecount,
            ecount == edges@.len(),
            nodes@.len() == node_count,
            forall|kk: int|
                0 <= kk < edges@.len() ==> (#[trigger] edges@[kk]).a < node_count
                    && edges@[kk].b < node_count,
            forall|idx: int|
                0 <= idx < node_count ==> (#[trigger] nodes@[idx]).index == idx
                    && nodes@[idx].out_edges@ == sp_edges_from(edges@.take(k as int), idx)
                    && nodes@[idx].in_edges@ == sp_edges_into(edges@.take(k as int), idx),
        decreases ecount - k,
    {
        let edge = edges[k];
        let ghost pre = nodes@;
        let a = edge.a;
        nodes[a].out_edges.push(edge);
        let ghost mid = nodes@;
        let b = edge.b;
        nodes[b].in_edges.push(edge);
        proof {
            assert(edges@.take(k as int + 1).drop_last() =~= edges@.take(k as int));
            assert(edges@.take(k as int + 1).last() == edges@[k as int]);
            assert forall|idx: int|
                0 <= idx < node_count implies (#[trigger] nodes@[idx]).index == idx
                    && nodes@[idx].out_edges@ == sp_edges_from(edges@.take(k as int + 1), idx)
                    && nodes@[idx].in_edges@ == sp_edges_into(edges@.take(k as int + 1), idx) by {
                if idx != a as int && idx != b as int {
                    assert(nodes@[idx] == pre[idx]);
                }
                if idx == a as int {
                    assert(mid[idx].out_edges@ == pre[idx].out_edges@.push(edge));
                    if idx != b as int {
                        assert(nodes@[idx] == mid[idx]);
                    } else {
                        assert(nodes@[idx].out_edges@ == mid[idx].out_edges@);
                    }
                }
                if idx == b as int {
                    assert(nodes@[idx].in_edges@ == mid[idx].in_edges@.push(edge));
                    if idx != a as int {
                        assert(mid[idx] == pre[idx]);
                    }
                }
            }
        }
        k = k + 1;
    }
    proof {
        assert(edges@.take(ecount as int) =~= edges@);
        assert forall|i2: int, j: int|
            0 <= i2 < nodes@.len() && 0 <= j < nodes@[i2].in_edges@.len() implies {
            let e = #[trigger] nodes@[i2].in_edges@[j];
            e.b == i2 && e.a < nodes@.len()
        } by {
            lemma_edges_into_sound(edges@, i2);
            let e = nodes@[i2].in_edges@[j];
            assert(sp_edges_into(edges@, i2)[j] == e);
            assert(edges@.contains(e));
            let w = choose|w: int| 0 <= w < edges@.len() && edges@[w] == e;
            assert(edges@[w].a < node_count);
        }
        assert forall|i2: int, j: int|
            0 <= i2 < nodes@.len() && 0 <= j < nodes@[i2].out_edges@.len() implies {
            let e = #[trigger] nodes@[i2].out_edges@[j];
            e.a == i2 && e.b < nodes@.len() && nodes@[e.b as int].in_edges@.contains(e)
        } by {
            lemma_edges_from_sound(edges@, i2);
            let e = nodes@[i2].out_edges@[j];
            assert(sp_edges_from(edges@, i2)[j] == e);
            assert(edges@.contains(e));
            let w = choose|w: int| 0 <= w < edges@.len() && edges@[w] == e;
            assert(edges@[w].b < node_count);
            lemma_edges_into_complete(edges@, w);
        }
        assert(wf_nodes(nodes@));
        assert forall|i2: int| 0 <= i2 < nodes@.len() implies #[trigger] sp_ins(nodes@)[i2]
            == sp_built_ins(node_count as nat, edges@)[i2] by {
            assert(sp_ins(nodes@)[i2] == nodes@[i2].in_edges@);
        }
        assert(sp_ins(nodes@) =~= sp_built_ins(node_count as nat, edges@));
        assert forall|i2: int| 0 <= i2 < nodes@.len() implies #[trigger] sp_outs(nodes@)[i2]
            == sp_built_outs(node_count as nat, edges@)[i2] by {
            assert(sp_outs(nodes@)[i2] == nodes@[i2].out_edges@);
        }
        assert(sp_outs(nodes@) =~= sp_built_outs(node_count as nat, edges@));
        lemma_built_wmax(nodes@, edges@);
    }
    nodes
}

} // verus!
