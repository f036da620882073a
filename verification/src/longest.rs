//! Longest distances over acyclic graphs.
//!
//! Walking the vertices in topological order and relaxing every outgoing
//! arc of every vertex that already has a distance yields, for each vertex,
//! the largest total arc weight of any path from the source. A vertex that
//! cannot be reached from the source keeps no distance at all — absence is
//! the sentinel, never a numeric stand-in, so no arithmetic is ever done on
//! an "unreached" marker. Path sums themselves are clamped into the `i64`
//! range instead of wrapping.

use vstd::prelude::*;

use crate::graph::DirectedGraph;
use crate::graph::VertexId;
use crate::order::appears;
use crate::order::is_topological_order;
use crate::reach::graph_cyclic;
use crate::reach::graph_edge;
use crate::reach::graph_reach;
use crate::reach::lemma_reach_in_closed_set;
use crate::reach::lemma_reach_refl;
use crate::reach::lemma_reach_step;

verus! {

/// The value `x + y` clamped into the `i64` range.
pub open spec fn sat_add_spec(x: int, y: int) -> int {
    if x + y < i64::MIN {
        i64::MIN as int
    } else if x + y > i64::MAX {
        i64::MAX as int
    } else {
        x + y
    }
}

/// Every arc out of a vertex with a recorded distance is fully relaxed in
/// `dist`: the target holds a distance at least as large as the source's
/// distance plus the arc weight (clamped). No recorded value is too small.
pub open spec fn fully_relaxed<A>(graph: DirectedGraph<A>, dist: Seq<Option<i64>>) -> bool {
    forall|u: int, x: int|
        0 <= u < graph.vertex_count() && 0 <= x < graph.adj()[u].len() && dist[u] is Some ==> {
            let arc = #[trigger] graph.adj()[u][x];
            &&& dist[arc.other.value as int] is Some
            &&& dist[arc.other.value as int].unwrap() >= sat_add_spec(
                dist[u].unwrap() as int,
                arc.weight as int,
            )
        }
}

/// Every recorded distance in `dist` is attained: it is the source's zero,
/// or it equals the distance of some other recorded vertex plus the weight
/// of one arc from there (clamped). No recorded value is invented, so
/// together with [`fully_relaxed`] the table is pinned to the longest
/// clamped path weights whenever the graph is acyclic.
pub open spec fn attained<A>(graph: DirectedGraph<A>, src: int, dist: Seq<Option<i64>>) -> bool {
    forall|v: int|
        0 <= v < graph.vertex_count() && (#[trigger] dist[v]) is Some ==> {
            ||| (v == src && dist[v].unwrap() == 0)
            ||| exists|u: int, x: int|
                0 <= u < graph.vertex_count() && 0 <= x < graph.adj()[u].len() && (
                #[trigger] graph.adj()[u][x]).other.value == v && dist[u] is Some
                    && dist[v].unwrap() == sat_add_spec(
                    dist[u].unwrap() as int,
                    graph.adj()[u][x].weight as int,
                )
        }
}

/// `i64` addition that clamps at the ends of the range instead of
/// overflowing.
fn sat_add(x: i64, y: i64) -> (r: i64)
    ensures
        r == sat_add_spec(x as int, y as int),
{
    let wide: i128 = x as i128 + y as i128;
    if wide < i64::MIN as i128 {
        i64::MIN
    } else if wide > i64::MAX as i128 {
        i64::MAX
    } else {
        wide as i64
    }
}

impl<A> DirectedGraph<A> {
    /// Computes, for every vertex, the longest clamped path weight from
    /// `source`, or `None` for the whole query if the graph is cyclic. In
    /// the returned table a vertex holds a distance if and only if it can
    /// be reached from `source`; the source itself holds zero; every
    /// recorded distance is attained by relaxation and no arc could raise
    /// any of them further. Unreachable vertices are absent, never zero or
    /// a numeric minimum.
    pub fn longest_distance_from(&self, source: VertexId) -> (r: Option<Vec<Option<i64>>>)
        requires
            self.wf(),
            self.valid(source.value as int),
        ensures
            match r {
                None => self.cyclic(),
                Some(d) => {
                    &&& !self.cyclic()
                    &&& d@.len() == self.vertex_count()
                    &&& d@[source.value as int] == Some(0i64)
                    &&& forall|v: int|
                        0 <= v < d@.len() ==> ((#[trigger] d@[v]) is Some <==> self.reach(
                            source.value as int,
                            v,
                        ))
                    &&& fully_relaxed(*self, d@)
                    &&& attained(*self, source.value as int, d@)
                },
            },
    {
        let ghost adj = self.adj();
        let ghost src = source.value as int;
        match self.topologically_ordered_iter() {
            None => None,
            Some(it) => {
                let order = it.order;
                let n = self.vertices.len();
                let mut dist: Vec<Option<i64>> = Vec::new();
                while dist.len() < n
                    invariant
                        dist@.len() <= n,
                        forall|v: int| 0 <= v < dist@.len() ==> (#[trigger] dist@[v]) is None,
                    decreases n - dist@.len(),
                {
                    dist.push(None);
                }
                dist.set(source.value, Some(0));
                proof {
                    lemma_reach_refl(adj, src);
                }
                let mut k: usize = 0;
                while k < order.len()
                    invariant
                        self.wf(),
                        adj == self.adj(),
                        src == source.value as int,
                        0 <= src < n,
                        n == self.vertex_count(),
                        adj.len() == n,
                        !self.cyclic(),
                        is_topological_order(*self, order@),
                        k <= order@.len(),
                        dist@.len() == n,
                        dist@[src] == Some(0i64),
                        forall|v: int|
                            0 <= v < n && (#[trigger] dist@[v]) is Some ==> graph_reach(
                                adj,
                                src,
                                v,
                            ),
                        forall|j: int, x: int|
                            0 <= j < k && 0 <= x < adj[order@[j].value as int].len()
                                && dist@[order@[j].value as int] is Some ==> {
                                let arc = #[trigger] adj[order@[j].value as int][x];
                                &&& dist@[arc.other.value as int] is Some
                                &&& dist@[arc.other.value as int].unwrap() >= sat_add_spec(
                                    dist@[order@[j].value as int].unwrap() as int,
                                    arc.weight as int,
                                )
                            },
                        forall|v: int|
                            0 <= v < n && (#[trigger] dist@[v]) is Some ==> {
                                ||| (v == src && dist@[v].unwrap() == 0)
                                ||| exists|j: int, x: int|
                                    0 <= j < k && 0 <= x < adj[order@[j].value as int].len() && (
                                    #[trigger] adj[order@[j].value as int][x]).other.value == v
                                        && dist@[order@[j].value as int] is Some
                                        && dist@[v].unwrap() == sat_add_spec(
                                        dist@[order@[j].value as int].unwrap() as int,
                                        adj[order@[j].value as int][x].weight as int,
                                    )
                            },
                    decreases order@.len() - k,
                {
                    let ghost big: int = k + 1;
                    let u = order[k].value;
                    let du_opt = dist[u];
                    match du_opt {
                        None => {
                            proof {
                                assert forall|j: int, x: int|
                                    0 <= j < big && 0 <= x < adj[order@[j].value as int].len()
                                        && dist@[order@[j].value as int] is Some implies {
                                    let arc = #[trigger] adj[order@[j].value as int][x];
                                    &&& dist@[arc.other.value as int] is Some
                                    &&& dist@[arc.other.value as int].unwrap() >= sat_add_spec(
                                        dist@[order@[j].value as int].unwrap() as int,
                                        arc.weight as int,
                                    )
                                } by {
                                    assert(j < k);
                                }
                            }
                        },
                        Some(du) => {
                            let deg = self.vertices[u].arcs_out.len();
                            proof {
                                assert(adj[u as int] == self.vertices@[u as int].arcs_out@);
                            }
                            let mut a: usize = 0;
                            while a < deg
                                invariant
                                    self.wf(),
                                    adj == self.adj(),
                                    src == source.value as int,
                                    0 <= src < n,
                                    n == self.vertex_count(),
                                    adj.len() == n,
                                    !self.cyclic(),
                                    is_topological_order(*self, order@),
                                    k < order@.len(),
                                    big == k + 1,
                                    u == order@[k as int].value,
                                    (u as int) < n,
                                    deg == adj[u as int].len(),
                                    a <= deg,
                                    dist@.len() == n,
                                    dist@[src] == Some(0i64),
                                    dist@[u as int] == Some(du),
                                    graph_reach(adj, src, u as int),
                                    forall|v: int|
                                        0 <= v < n && (#[trigger] dist@[v]) is Some
                                            ==> graph_reach(adj, src, v),
                                    forall|x: int|
                                        0 <= x < a ==> {
                                            let arc = #[trigger] adj[u as int][x];
                                            &&& dist@[arc.other.value as int] is Some
                                            &&& dist@[arc.other.value as int].unwrap()
                                                >= sat_add_spec(du as int, arc.weight as int)
                                        },
                                    forall|j: int, x: int|
                                        0 <= j < k && 0 <= x < adj[order@[j].value as int].len()
                                            && dist@[order@[j].value as int] is Some ==> {
                                            let arc = #[trigger] adj[order@[j].value as int][x];
                                            &&& dist@[arc.other.value as int] is Some
                                            &&& dist@[arc.other.value as int].unwrap()
                                                >= sat_add_spec(
                                                dist@[order@[j].value as int].unwrap() as int,
                                                arc.weight as int,
                                            )
                                        },
                                    forall|v: int|
                                        0 <= v < n && (#[trigger] dist@[v]) is Some ==> {
                                            ||| (v == src && dist@[v].unwrap() == 0)
                                            ||| exists|j: int, x: int|
                                                0 <= j < big
                                                    && 0 <= x < adj[order@[j].value as int].len()
                                                    && (#[trigger] adj[order@[j].value as int][x]).other.value
                                                    == v && dist@[order@[j].value as int] is Some
                                                    && dist@[v].unwrap() == sat_add_spec(
                                                    dist@[order@[j].value as int].unwrap() as int,
                                                    adj[order@[j].value as int][x].weight as int,
                                                )
                                        },
                                decreases deg - a,
                            {
                                let ghost prev_dist = dist@;
                                let arc = self.vertices[u].arcs_out[a];
                                let t = arc.other.value;
                                proof {
                                    assert(graph_edge(adj, u as int, t as int));
                                    assert((t as int) < n);
                                }
                                let cand = sat_add(du, arc.weight);
                                let better = match dist[t] {
                                    None => true,
                                    Some(cur) => cur < cand,
                                };
                                if better {
                                    dist.set(t, Some(cand));
                                    proof {
                                        lemma_reach_step(adj, src, u as int, t as int);
                                        // a relaxed target always lies strictly after the
                                        // current position in the topological order, so
                                        // already-processed vertices keep their entries
                                        assert(appears(order@, t as int));
                                        let pt = choose|i: int|
                                            0 <= i < order@.len() && (#[trigger] order@[i]).value
                                                == t as int;
                                        assert(self.edge(
                                            order@[k as int].value as int,
                                            order@[pt].value as int,
                                        ));
                                        assert(k < pt);
                                        if t as int == src {
                                            assert(graph_edge(adj, u as int, src));
                                            assert(graph_cyclic(adj));
                                        }
                                        assert forall|j: int|
                                            0 <= j < big implies (#[trigger] order@[j]).value
                                            != t by {
                                            if order@[j].value == t {
                                                assert(j == pt);
                                            }
                                        }
                                        // the fresh entry is attained through the arc just
                                        // relaxed; every other entry keeps its witness
                                        assert forall|v: int|
                                            0 <= v < n && (#[trigger] dist@[v]) is Some implies {
                                            ||| (v == src && dist@[v].unwrap() == 0)
                                            ||| exists|j: int, x: int|
                                                0 <= j < big
                                                    && 0 <= x < adj[order@[j].value as int].len()
                                                    && (#[trigger] adj[order@[j].value as int][x]).other.value
                                                    == v && dist@[order@[j].value as int] is Some
                                                    && dist@[v].unwrap() == sat_add_spec(
                                                    dist@[order@[j].value as int].unwrap() as int,
                                                    adj[order@[j].value as int][x].weight as int,
                                                )
                                        } by {
                                            if v == t as int {
                                                assert(order@[k as int].value == u);
                                                assert(dist@[order@[k as int].value as int]
                                                    == Some(du));
                                                assert((adj[order@[k as int].value as int][a as int]).other.value
                                                    == v);
                                                assert(dist@[v].unwrap() == sat_add_spec(
                                                    du as int,
                                                    adj[order@[k as int].value as int][a as int].weight as int,
                                                ));
                                            } else if !(v == src && dist@[v].unwrap() == 0) {
                                                assert(prev_dist[v] == dist@[v]);
                                                let (j, x) = choose|j: int, x: int|
                                                    0 <= j < big
                                                        && 0 <= x < adj[order@[j].value as int].len()
                                                        && (#[trigger] adj[order@[j].value as int][x]).other.value
                                                        == v
                                                        && prev_dist[order@[j].value as int] is Some
                                                        && prev_dist[v].unwrap() == sat_add_spec(
                                                        prev_dist[order@[j].value as int].unwrap() as int,
                                                        adj[order@[j].value as int][x].weight as int,
                                                    );
                                                assert(order@[j].value != t);
                                                assert(dist@[order@[j].value as int]
                                                    == prev_dist[order@[j].value as int]);
                                                assert((adj[order@[j].value as int][x]).other.value
                                                    == v && dist@[order@[j].value as int] is Some
                                                    && dist@[v].unwrap() == sat_add_spec(
                                                    dist@[order@[j].value as int].unwrap() as int,
                                                    adj[order@[j].value as int][x].weight as int,
                                                ));
                                            }
                                        }
                                    }
                                }
                                a += 1;
                            }
                            proof {
                                assert forall|j: int, x: int|
                                    0 <= j < big && 0 <= x < adj[order@[j].value as int].len()
                                        && dist@[order@[j].value as int] is Some implies {
                                    let arc = #[trigger] adj[order@[j].value as int][x];
                                    &&& dist@[arc.other.value as int] is Some
                                    &&& dist@[arc.other.value as int].unwrap() >= sat_add_spec(
                                        dist@[order@[j].value as int].unwrap() as int,
                                        arc.weight as int,
                                    )
                                } by {
                                    if j == k {
                                        assert(dist@[(adj[u as int][x]).other.value as int] is Some);
                                        assert(dist@[(adj[u as int][x]).other.value as int].unwrap()
                                            >= sat_add_spec(du as int, adj[u as int][x].weight as int));
                                    }
                                }
                            }
                        },
                    }
                    k += 1;
                }
                proof {
                    let ghost fixed = dist@;
                    // an exhausted topological walk leaves the distanced set
                    // closed under arcs, so it holds every reachable vertex
                    assert forall|v: int|
                        0 <= v < n && graph_reach(adj, src, v) implies (#[trigger] fixed[v]) is Some by {
                        let inside = |w: int| 0 <= w < n && fixed[w] is Some;
                        assert forall|x: int, y: int|
                            inside(x) && #[trigger] graph_edge(adj, x, y) implies inside(y) by {
                            assert(appears(order@, x));
                            let j = choose|j: int|
                                0 <= j < order@.len() && (#[trigger] order@[j]).value == x;
                            let xk = choose|xk: int|
                                0 <= xk < adj[x].len() && (#[trigger] adj[x][xk]).other.value == y;
                            assert(fixed[(adj[order@[j].value as int][xk]).other.value as int] is Some);
                        }
                        lemma_reach_in_closed_set(adj, inside, src, v);
                    }
                    // restate the order-indexed invariants over the vertices
                    // themselves
                    assert forall|u2: int, x: int|
                        0 <= u2 < n && 0 <= x < adj[u2].len() && dist@[u2] is Some implies {
                        let arc = #[trigger] adj[u2][x];
                        &&& dist@[arc.other.value as int] is Some
                        &&& dist@[arc.other.value as int].unwrap() >= sat_add_spec(
                            dist@[u2].unwrap() as int,
                            arc.weight as int,
                        )
                    } by {
                        assert(appears(order@, u2));
                        let j = choose|j: int|
                            0 <= j < order@.len() && (#[trigger] order@[j]).value == u2;
                        assert({
                            let arc = adj[order@[j].value as int][x];
                            &&& dist@[arc.other.value as int] is Some
                            &&& dist@[arc.other.value as int].unwrap() >= sat_add_spec(
                                dist@[order@[j].value as int].unwrap() as int,
                                arc.weight as int,
                            )
                        });
                    }
                    assert forall|v: int|
                        0 <= v < n && (#[trigger] dist@[v]) is Some implies {
                        ||| (v == src && dist@[v].unwrap() == 0)
                        ||| exists|u2: int, x: int|
                            0 <= u2 < n && 0 <= x < adj[u2].len() && (#[trigger] adj[u2][x]).other.value
                                == v && dist@[u2] is Some && dist@[v].unwrap() == sat_add_spec(
                                dist@[u2].unwrap() as int,
                                adj[u2][x].weight as int,
                            )
                    } by {
                        if !(v == src && dist@[v].unwrap() == 0) {
                            let (j, x) = choose|j: int, x: int|
                                0 <= j < n && 0 <= x < adj[order@[j].value as int].len() && (
                                #[trigger] adj[order@[j].value as int][x]).other.value == v
                                    && dist@[order@[j].value as int] is Some && dist@[v].unwrap()
                                    == sat_add_spec(
                                    dist@[order@[j].value as int].unwrap() as int,
                                    adj[order@[j].value as int][x].weight as int,
                                );
                            let u2 = order@[j].value as int;
                            assert(0 <= u2 < n && 0 <= x < adj[u2].len() && adj[u2][x].other.value
                                == v && dist@[u2] is Some && dist@[v].unwrap() == sat_add_spec(
                                dist@[u2].unwrap() as int,
                                adj[u2][x].weight as int,
                            ));
                        }
                    }
                }
                Some(dist)
            },
        }
    }
}

} // verus!
