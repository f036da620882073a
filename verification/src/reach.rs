//! Reachability over adjacency lists.
//!
//! The traversal and ordering algorithms are specified against a small
//! mathematical vocabulary: an adjacency view `Seq<Seq<Arc>>` (one outgoing
//! arc list per vertex), arcs as edges, finite paths, reachability as the
//! existence of a path, and a cycle as an arc that closes a loop back to its
//! own source. This module defines that vocabulary and proves the handful of
//! facts about it that the algorithm proofs lean on.

use vstd::prelude::*;

use crate::graph::Arc;

verus! {

/// There is an arc from `u` to `v`.
pub open spec fn graph_edge(adj: Seq<Seq<Arc>>, u: int, v: int) -> bool {
    &&& 0 <= u < adj.len()
    &&& exists|k: int| 0 <= k < adj[u].len() && (#[trigger] adj[u][k]).other.value == v
}

/// `p` lists at least one vertex, stays inside the graph, and follows one
/// arc between each pair of neighbouring entries.
pub open spec fn is_path(adj: Seq<Seq<Arc>>, p: Seq<int>) -> bool {
    &&& p.len() >= 1
    &&& forall|i: int|
        0 <= i < p.len() ==> {
            &&& 0 <= #[trigger] p[i] < adj.len()
            &&& i + 1 < p.len() ==> graph_edge(adj, p[i], p[i + 1])
        }
}

/// `v` can be reached from `u` along zero or more arcs.
pub open spec fn graph_reach(adj: Seq<Seq<Arc>>, u: int, v: int) -> bool {
    exists|p: Seq<int>| #[trigger] is_path(adj, p) && p.first() == u && p.last() == v
}

/// The graph holds a cycle: some arc leads from `u` to a vertex that can
/// reach `u` back. Self-loops are the case `u == v`.
pub open spec fn graph_cyclic(adj: Seq<Seq<Arc>>) -> bool {
    exists|u: int, v: int| #[trigger] graph_edge(adj, u, v) && graph_reach(adj, v, u)
}

/// Every vertex reaches itself, by the one-vertex path.
pub proof fn lemma_reach_refl(adj: Seq<Seq<Arc>>, u: int)
    requires
        0 <= u < adj.len(),
    ensures
        graph_reach(adj, u, u),
{
    let p = seq![u];
    assert(is_path(adj, p));
    assert(p.first() == u && p.last() == u);
}

/// Reachability is extended by one more arc.
pub proof fn lemma_reach_step(adj: Seq<Seq<Arc>>, u: int, v: int, w: int)
    requires
        graph_reach(adj, u, v),
        graph_edge(adj, v, w),
        0 <= w < adj.len(),
    ensures
        graph_reach(adj, u, w),
{
    let p = choose|p: Seq<int>| #[trigger] is_path(adj, p) && p.first() == u && p.last() == v;
    let q = p.push(w);
    assert forall|i: int|
        0 <= i < q.len() implies {
            &&& 0 <= #[trigger] q[i] < adj.len()
            &&& i + 1 < q.len() ==> graph_edge(adj, q[i], q[i + 1])
        } by {
        if i < p.len() {
            assert(q[i] == p[i]);
            if i + 1 < p.len() {
                assert(q[i + 1] == p[i + 1]);
            } else {
                assert(p[i] == p.last());
                assert(q[i + 1] == w);
            }
        } else {
            assert(q[i] == w);
        }
    }
    assert(is_path(adj, q));
    assert(q.first() == u && q.last() == w);
}

/// A path grows by one more arc at its end.
pub proof fn lemma_path_push(adj: Seq<Seq<Arc>>, p: Seq<int>, w: int)
    requires
        is_path(adj, p),
        graph_edge(adj, p.last(), w),
        0 <= w < adj.len(),
    ensures
        is_path(adj, p.push(w)),
{
    let q = p.push(w);
    assert forall|i: int|
        0 <= i < q.len() implies {
            &&& 0 <= #[trigger] q[i] < adj.len()
            &&& i + 1 < q.len() ==> graph_edge(adj, q[i], q[i + 1])
        } by {
        if i < p.len() {
            assert(q[i] == p[i]);
            if i + 1 < p.len() {
                assert(q[i + 1] == p[i + 1]);
            } else {
                assert(p[i] == p.last());
                assert(q[i + 1] == w);
            }
        } else {
            assert(q[i] == w);
        }
    }
}

/// Walking a path keeps one inside any arc-closed set that holds its start.
proof fn lemma_path_stays_inside(adj: Seq<Seq<Arc>>, inside: spec_fn(int) -> bool, p: Seq<int>)
    requires
        is_path(adj, p),
        inside(p.first()),
        forall|x: int, y: int| inside(x) && #[trigger] graph_edge(adj, x, y) ==> inside(y),
    ensures
        inside(p.last()),
    decreases p.len(),
{
    if p.len() > 1 {
        assert(graph_edge(adj, p[0], p[1]));
        let rest = p.subrange(1, p.len() as int);
        assert(is_path(adj, rest));
        assert(inside(rest.first()));
        lemma_path_stays_inside(adj, inside, rest);
    }
}

/// A set that holds `u` and is closed under following arcs holds every
/// vertex reachable from `u`.
pub proof fn lemma_reach_in_closed_set(
    adj: Seq<Seq<Arc>>,
    inside: spec_fn(int) -> bool,
    u: int,
    v: int,
)
    requires
        inside(u),
        forall|x: int, y: int| inside(x) && #[trigger] graph_edge(adj, x, y) ==> inside(y),
        graph_reach(adj, u, v),
    ensures
        inside(v),
{
    let p = choose|p: Seq<int>| #[trigger] is_path(adj, p) && p.first() == u && p.last() == v;
    lemma_path_stays_inside(adj, inside, p);
}

/// Any segment of a path witnesses reachability between its endpoints.
pub proof fn lemma_path_segment_reach(adj: Seq<Seq<Arc>>, p: Seq<int>, i: int, j: int)
    requires
        is_path(adj, p),
        0 <= i <= j < p.len(),
    ensures
        graph_reach(adj, p[i], p[j]),
{
    let q = p.subrange(i, j + 1);
    assert(is_path(adj, q));
    assert(q.first() == p[i] && q.last() == p[j]);
}

/// Along a path, a rank that strictly drops across every arc strictly drops
/// overall.
proof fn lemma_path_descends(adj: Seq<Seq<Arc>>, rank: spec_fn(int) -> int, p: Seq<int>)
    requires
        is_path(adj, p),
        forall|x: int, y: int| #[trigger] graph_edge(adj, x, y) ==> rank(y) < rank(x),
    ensures
        rank(p.last()) <= rank(p.first()),
        p.len() > 1 ==> rank(p.last()) < rank(p.first()),
    decreases p.len(),
{
    if p.len() > 1 {
        assert(graph_edge(adj, p[0], p[1]));
        let rest = p.subrange(1, p.len() as int);
        assert(is_path(adj, rest));
        lemma_path_descends(adj, rank, rest);
    }
}

/// A graph that admits a rank which strictly drops across every arc has no
/// cycle: this is what makes checking arcs against a candidate topological
/// order a complete cycle test.
pub proof fn lemma_descending_rank_acyclic(adj: Seq<Seq<Arc>>, rank: spec_fn(int) -> int)
    requires
        forall|x: int, y: int| #[trigger] graph_edge(adj, x, y) ==> rank(y) < rank(x),
    ensures
        !graph_cyclic(adj),
{
    if graph_cyclic(adj) {
        let (u, v) = choose|u: int, v: int|
            #[trigger] graph_edge(adj, u, v) && graph_reach(adj, v, u);
        let p = choose|p: Seq<int>| #[trigger] is_path(adj, p) && p.first() == v && p.last() == u;
        lemma_path_descends(adj, rank, p);
        assert(rank(u) <= rank(v));
        assert(rank(v) < rank(u));
    }
}

} // verus!
