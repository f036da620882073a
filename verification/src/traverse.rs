//! Breadth-first and depth-first traversal.
//!
//! Both traversals are seeded from one start vertex and share a step rule:
//! take the next frontier entry; if its target was already visited, discard
//! it; otherwise mark the target visited, emit it, and put all of its
//! outgoing arcs, in ascending weight order, onto the frontier. The
//! breadth-first frontier is a FIFO queue, the depth-first frontier a LIFO
//! stack, which is the only difference between the two orders. A vertex may
//! sit in the frontier several times but is emitted at most once, and
//! vertices that cannot be reached from the start are never emitted.

use std::collections::VecDeque;

use vstd::prelude::*;

use crate::graph::Arc;
use crate::graph::DirectedGraph;
use crate::graph::VertexId;
use crate::reach::graph_edge;
use crate::reach::graph_reach;
use crate::reach::lemma_reach_in_closed_set;
use crate::reach::lemma_reach_refl;
use crate::reach::lemma_reach_step;
use crate::sort::sort_arcs;
use crate::sort::sorted_arcs;

verus! {

/// The number of vertices a traversal has not visited yet.
pub open spec fn count_unvisited(s: Seq<bool>) -> nat
    decreases s.len(),
{
    if s.len() == 0 {
        0
    } else {
        count_unvisited(s.drop_last()) + if s.last() {
            0nat
        } else {
            1nat
        }
    }
}

/// Marking one unvisited vertex as visited lowers the unvisited count.
proof fn lemma_count_unvisited_update(s: Seq<bool>, i: int)
    requires
        0 <= i < s.len(),
        !s[i],
    ensures
        count_unvisited(s.update(i, true)) < count_unvisited(s),
    decreases s.len(),
{
    let t = s.update(i, true);
    if i == s.len() - 1 {
        assert(t.drop_last() =~= s.drop_last());
    } else {
        assert(t.drop_last() =~= s.drop_last().update(i, true));
        lemma_count_unvisited_update(s.drop_last(), i);
    }
}

/// The emission sequence of the shared traversal step rule, as a function
/// of the adjacency lists, the frontier, and the visited markers. With
/// `fifo` the frontier entry at the front is taken, otherwise the one at
/// the back; an entry whose target is already visited is discarded;
/// otherwise the target is emitted and its outgoing arcs join the back of
/// the frontier in ascending stable weight order.
pub open spec fn traverse_spec(
    adj: Seq<Seq<Arc>>,
    frontier: Seq<Arc>,
    visited: Seq<bool>,
    fifo: bool,
) -> Seq<int>
    decreases count_unvisited(visited), frontier.len(),
        via traverse_spec_decreases
{
    if frontier.len() == 0 {
        Seq::empty()
    } else {
        let e = if fifo {
            frontier.first()
        } else {
            frontier.last()
        };
        let rest = if fifo {
            frontier.drop_first()
        } else {
            frontier.drop_last()
        };
        let t = e.other.value as int;
        if !(t < visited.len()) {
            Seq::empty()
        } else if visited[t] {
            traverse_spec(adj, rest, visited, fifo)
        } else if !(t < adj.len()) {
            Seq::empty()
        } else {
            seq![t] + traverse_spec(
                adj,
                rest + sort_arcs(adj[t]),
                visited.update(t, true),
                fifo,
            )
        }
    }
}

#[via_fn]
proof fn traverse_spec_decreases(
    adj: Seq<Seq<Arc>>,
    frontier: Seq<Arc>,
    visited: Seq<bool>,
    fifo: bool,
) {
    if frontier.len() > 0 {
        let e = if fifo {
            frontier.first()
        } else {
            frontier.last()
        };
        let t = e.other.value as int;
        if t < visited.len() && !visited[t] {
            lemma_count_unvisited_update(visited, t);
        }
    }
}

/// The full traversal sequence of `graph` from `from`: the step rule run
/// to exhaustion on a frontier holding one zero-weight arc to `from`, with
/// nothing visited yet.
pub open spec fn traversal_spec<A>(
    graph: DirectedGraph<A>,
    from: VertexId,
    breadth_first: bool,
) -> Seq<int> {
    traverse_spec(
        graph.adj(),
        seq![Arc { other: from, weight: 0 }],
        Seq::new(graph.vertex_count(), |i: int| false),
        breadth_first,
    )
}

/// `order` is a complete single-visit traversal of the part of `graph`
/// reachable from `from`: it starts at `from`, every entry is a vertex
/// reachable from `from`, no vertex appears twice, and every reachable
/// vertex appears.
pub open spec fn is_traversal_of<A>(
    graph: DirectedGraph<A>,
    from: VertexId,
    order: Seq<VertexId>,
) -> bool {
    &&& order.len() >= 1
    &&& order[0] == from
    &&& forall|i: int|
        0 <= i < order.len() ==> graph.valid((#[trigger] order[i]).value as int) && graph.reach(
            from.value as int,
            order[i].value as int,
        )
    &&& forall|i: int, j: int|
        0 <= i < j < order.len() ==> (#[trigger] order[i]).value != (#[trigger] order[j]).value
    &&& forall|v: int|
        #[trigger] graph.reach(from.value as int, v) ==> exists|i: int|
            0 <= i < order.len() && (#[trigger] order[i]).value == v
}

impl<A> DirectedGraph<A> {
    /// The shared traversal engine: runs the step rule to exhaustion and
    /// returns the emission order. `breadth_first` selects the FIFO frontier,
    /// otherwise the frontier is LIFO.
    fn traversal_order(&self, from: VertexId, breadth_first: bool) -> (order: Vec<VertexId>)
        requires
            self.wf(),
            self.valid(from.value as int),
        ensures
            is_traversal_of(*self, from, order@),
            order@.map_values(|id: VertexId| id.value as int) == traversal_spec(
                *self,
                from,
                breadth_first,
            ),
    {
        let ghost adj = self.adj();
        let ghost src = from.value as int;
        let ghost total = traversal_spec(*self, from, breadth_first);
        let n = self.vertices.len();

        let mut visited: Vec<bool> = Vec::new();
        while visited.len() < n
            invariant
                visited@.len() <= n,
                forall|i: int| 0 <= i < visited@.len() ==> !(#[trigger] visited@[i]),
            decreases n - visited@.len(),
        {
            visited.push(false);
        }

        let ghost blank = visited@;
        let mut order: Vec<VertexId> = Vec::new();
        let mut frontier: VecDeque<Arc> = VecDeque::new();

        visited.set(from.value, true);
        order.push(from);
        proof {
            lemma_reach_refl(adj, src);
        }
        let seed = sorted_arcs(&self.vertices[from.value].arcs_out);
        let mut k: usize = 0;
        while k < seed.len()
            invariant
                k <= seed@.len(),
                frontier@ =~= seed@.subrange(0, k as int),
            decreases seed@.len() - k,
        {
            frontier.push_back(seed[k]);
            proof {
                assert(frontier@ =~= seed@.subrange(0, k + 1));
            }
            k += 1;
        }
        proof {
            assert(frontier@ =~= seed@);
            broadcast use vstd::seq_lib::group_to_multiset_ensures;

            assert(adj[src] == self.vertices@[src].arcs_out@);
            assert forall|i: int| 0 <= i < frontier@.len() implies {
                &&& (#[trigger] frontier@[i]).other.value < n
                &&& graph_reach(adj, src, frontier@[i].other.value as int)
            } by {
                assert(seed@[i] == frontier@[i]);
                assert(seed@.contains(frontier@[i]));
                assert(seed@.to_multiset().count(frontier@[i]) > 0);
                assert(adj[src].to_multiset().count(frontier@[i]) > 0);
                assert(adj[src].contains(frontier@[i]));
                assert(graph_edge(adj, src, frontier@[i].other.value as int));
                lemma_reach_step(adj, src, src, frontier@[i].other.value as int);
            }
            assert forall|v: int, x: int|
                0 <= v < n && visited@[v] && 0 <= x < adj[v].len() implies {
                ||| visited@[(#[trigger] adj[v][x]).other.value as int]
                ||| exists|i: int|
                    0 <= i < frontier@.len() && (#[trigger] frontier@[i]).other.value
                        == adj[v][x].other.value
            } by {
                assert(v == src);
                if adj[v][x].other.value as int != src {
                    assert(adj[src].contains(adj[src][x]));
                    assert(adj[src].to_multiset().count(adj[v][x]) > 0);
                    assert(seed@.to_multiset().count(adj[v][x]) > 0);
                    assert(seed@.contains(adj[v][x]));
                    let i = choose|i: int| 0 <= i < seed@.len() && seed@[i] == adj[v][x];
                    assert(frontier@[i].other.value == adj[v][x].other.value);
                }
            }
            assert forall|v: int| 0 <= v < n && #[trigger] visited@[v] implies exists|i: int|
                0 <= i < order@.len() && (#[trigger] order@[i]).value == v by {
                assert(v == src);
                assert(order@[0].value == v);
            }
            // the start of the run: the step rule pops the seed entry,
            // emits the start vertex and queues its sorted arcs
            assert(blank =~= Seq::new(self.vertex_count(), |i: int| false));
            let f0 = seq![Arc { other: from, weight: 0 }];
            assert(total == traverse_spec(adj, f0, blank, breadth_first));
            let rest0 = if breadth_first {
                f0.drop_first()
            } else {
                f0.drop_last()
            };
            assert(rest0 =~= Seq::<Arc>::empty());
            assert(!blank[src]);
            assert(traverse_spec(adj, f0, blank, breadth_first) == seq![src] + traverse_spec(
                adj,
                rest0 + sort_arcs(adj[src]),
                blank.update(src, true),
                breadth_first,
            ));
            assert(rest0 + sort_arcs(adj[src]) =~= frontier@);
            assert(blank.update(src, true) =~= visited@);
            assert(order@.map_values(|id: VertexId| id.value as int) =~= seq![src]);
            assert(total == order@.map_values(|id: VertexId| id.value as int) + traverse_spec(
                adj,
                frontier@,
                visited@,
                breadth_first,
            ));
        }

        while frontier.len() > 0
            invariant
                self.wf(),
                n == self.vertices@.len(),
                adj == self.adj(),
                src == from.value as int,
                0 <= src < n,
                visited@.len() == n,
                visited@[src],
                order@.len() >= 1,
                order@[0] == from,
                forall|i: int|
                    0 <= i < order@.len() ==> 0 <= (#[trigger] order@[i]).value < n && visited@[order@[i].value as int]
                        && graph_reach(adj, src, order@[i].value as int),
                forall|i: int, j: int|
                    0 <= i < j < order@.len() ==> (#[trigger] order@[i]).value != (
                    #[trigger] order@[j]).value,
                forall|v: int|
                    0 <= v < n && #[trigger] visited@[v] ==> exists|i: int|
                        0 <= i < order@.len() && (#[trigger] order@[i]).value == v,
                forall|i: int|
                    0 <= i < frontier@.len() ==> (#[trigger] frontier@[i]).other.value < n
                        && graph_reach(adj, src, frontier@[i].other.value as int),
                forall|v: int, x: int|
                    0 <= v < n && visited@[v] && 0 <= x < adj[v].len() ==> {
                        ||| visited@[(#[trigger] adj[v][x]).other.value as int]
                        ||| exists|i: int|
                            0 <= i < frontier@.len() && (#[trigger] frontier@[i]).other.value
                                == adj[v][x].other.value
                    },
                total == order@.map_values(|id: VertexId| id.value as int) + traverse_spec(
                    adj,
                    frontier@,
                    visited@,
                    breadth_first,
                ),
            decreases count_unvisited(visited@), frontier@.len(),
        {
            let ghost prev_frontier = frontier@;
            let arc = if breadth_first {
                frontier.pop_front().unwrap()
            } else {
                frontier.pop_back().unwrap()
            };
            let ghost popped_index: int = if breadth_first {
                0
            } else {
                prev_frontier.len() - 1
            };
            proof {
                assert(arc == prev_frontier[popped_index]);
                let spec_rest = if breadth_first {
                    prev_frontier.drop_first()
                } else {
                    prev_frontier.drop_last()
                };
                assert(spec_rest =~= frontier@);
            }
            let t = arc.other.value;
            if !visited[t] {
                let ghost prev_visited = visited@;
                let ghost prev_order = order@;
                visited.set(t, true);
                order.push(VertexId { value: t });
                let sorted = sorted_arcs(&self.vertices[t].arcs_out);
                let ghost mid_frontier = frontier@;
                let mut k: usize = 0;
                while k < sorted.len()
                    invariant
                        k <= sorted@.len(),
                        frontier@ =~= mid_frontier + sorted@.subrange(0, k as int),
                    decreases sorted@.len() - k,
                {
                    frontier.push_back(sorted[k]);
                    proof {
                        assert(frontier@ =~= mid_frontier + sorted@.subrange(0, k + 1));
                    }
                    k += 1;
                }
                proof {
                    broadcast use vstd::seq_lib::group_to_multiset_ensures;

                    assert(adj[t as int] == self.vertices@[t as int].arcs_out@);
                    assert(frontier@ =~= mid_frontier + sorted@);
                    assert(sorted@.to_multiset() == adj[t as int].to_multiset());
                    lemma_count_unvisited_update(prev_visited, t as int);

                    // one unfolding of the step rule: the popped entry's
                    // target is new, so it is emitted and its sorted arcs
                    // join the frontier
                    let spec_rest = if breadth_first {
                        prev_frontier.drop_first()
                    } else {
                        prev_frontier.drop_last()
                    };
                    if breadth_first {
                        assert(prev_frontier.first() == arc);
                    } else {
                        assert(prev_frontier.last() == arc);
                    }
                    assert(spec_rest =~= mid_frontier);
                    assert(sorted@ == sort_arcs(adj[t as int]));
                    assert(spec_rest + sort_arcs(adj[t as int]) =~= frontier@);
                    assert(prev_visited.update(t as int, true) =~= visited@);
                    assert(traverse_spec(adj, prev_frontier, prev_visited, breadth_first)
                        == seq![t as int] + traverse_spec(adj, frontier@, visited@, breadth_first));
                    let tail = traverse_spec(adj, frontier@, visited@, breadth_first);
                    let prev_vals = prev_order.map_values(|id: VertexId| id.value as int);
                    assert(order@.map_values(|id: VertexId| id.value as int) =~= prev_vals
                        + seq![t as int]);
                    assert(prev_vals + (seq![t as int] + tail) =~= (prev_vals + seq![t as int])
                        + tail);

                    // every entry of the grown frontier is in range and reachable
                    assert forall|i: int| 0 <= i < frontier@.len() implies {
                        &&& (#[trigger] frontier@[i]).other.value < n
                        &&& graph_reach(adj, src, frontier@[i].other.value as int)
                    } by {
                        if i < mid_frontier.len() {
                            let j = if breadth_first {
                                i + 1
                            } else {
                                i
                            };
                            assert(frontier@[i] == prev_frontier[j]);
                        } else {
                            let e = frontier@[i];
                            assert(e == sorted@[i - mid_frontier.len()]);
                            assert(sorted@.contains(e));
                            assert(adj[t as int].to_multiset().count(e) > 0);
                            assert(adj[t as int].contains(e));
                            assert(graph_edge(adj, t as int, e.other.value as int));
                            lemma_reach_step(adj, src, t as int, e.other.value as int);
                        }
                    }

                    // the emitted vertex is new: no duplicate entries in order
                    assert forall|i: int, j: int|
                        0 <= i < j < order@.len() implies (#[trigger] order@[i]).value != (
                    #[trigger] order@[j]).value by {
                        if j == order@.len() - 1 {
                            assert(!prev_visited[order@[j].value as int]);
                            assert(prev_visited[order@[i].value as int]);
                        }
                    }

                    // visited vertices still all appear in the emission order
                    assert forall|v: int| 0 <= v < n && #[trigger] visited@[v] implies exists|i: int|
                        0 <= i < order@.len() && (#[trigger] order@[i]).value == v by {
                        if v == t as int {
                            assert(order@[order@.len() - 1].value == v);
                        } else {
                            assert(prev_visited[v]);
                            let i = choose|i: int|
                                0 <= i < prev_order.len() && (#[trigger] prev_order[i]).value == v;
                            assert(order@[i].value == v);
                        }
                    }

                    // the closure invariant survives the pop and the pushes
                    assert forall|v: int, x: int|
                        0 <= v < n && visited@[v] && 0 <= x < adj[v].len() implies {
                            ||| visited@[(#[trigger] adj[v][x]).other.value as int]
                            ||| exists|i: int|
                                0 <= i < frontier@.len() && (#[trigger] frontier@[i]).other.value
                                    == adj[v][x].other.value
                        } by {
                        let tgt = adj[v][x].other.value;
                        if v == t as int {
                            if tgt as int != t as int {
                                assert(adj[t as int].to_multiset().count(adj[v][x]) > 0);
                                assert(sorted@.contains(adj[v][x]));
                                let s_i = choose|s_i: int|
                                    0 <= s_i < sorted@.len() && sorted@[s_i] == adj[v][x];
                                assert(frontier@[mid_frontier.len() + s_i].other.value == tgt);
                            }
                        } else {
                            assert(prev_visited[v]);
                            if !prev_visited[tgt as int] {
                                let w_i = choose|w_i: int|
                                    0 <= w_i < prev_frontier.len() && (
                                    #[trigger] prev_frontier[w_i]).other.value == tgt;
                                if w_i == popped_index {
                                    assert(tgt == t);
                                } else {
                                    let i2: int = if breadth_first {
                                        w_i - 1
                                    } else {
                                        w_i
                                    };
                                    assert(mid_frontier[i2] == prev_frontier[w_i]);
                                    assert(frontier@[i2].other.value == tgt);
                                }
                            }
                        }
                    }
                }
            } else {
                proof {
                    // one unfolding of the step rule: a visited target is
                    // discarded and nothing is emitted
                    let spec_rest = if breadth_first {
                        prev_frontier.drop_first()
                    } else {
                        prev_frontier.drop_last()
                    };
                    if breadth_first {
                        assert(prev_frontier.first() == arc);
                    } else {
                        assert(prev_frontier.last() == arc);
                    }
                    assert(spec_rest =~= frontier@);
                    assert(traverse_spec(adj, prev_frontier, visited@, breadth_first)
                        == traverse_spec(adj, frontier@, visited@, breadth_first));

                    // a discarded entry only shrinks the frontier; the closure
                    // invariant keeps holding because the dropped target is
                    // already visited
                    assert forall|v: int, x: int|
                        0 <= v < n && visited@[v] && 0 <= x < adj[v].len() implies {
                            ||| visited@[(#[trigger] adj[v][x]).other.value as int]
                            ||| exists|i: int|
                                0 <= i < frontier@.len() && (#[trigger] frontier@[i]).other.value
                                    == adj[v][x].other.value
                        } by {
                        let tgt = adj[v][x].other.value;
                        if !visited@[tgt as int] {
                            let w_i = choose|w_i: int|
                                0 <= w_i < prev_frontier.len() && (
                                #[trigger] prev_frontier[w_i]).other.value == tgt;
                            assert(w_i != popped_index);
                            let i2: int = if breadth_first {
                                w_i - 1
                            } else {
                                w_i
                            };
                            assert(frontier@[i2] == prev_frontier[w_i]);
                            assert(frontier@[i2].other.value == tgt);
                        }
                    }
                }
            }
        }

        proof {
            // an empty frontier means the visited set is closed under arcs,
            // so it holds every reachable vertex
            let ghost fixed = visited@;
            assert forall|v: int| #[trigger] graph_reach(adj, src, v) implies exists|i: int|
                0 <= i < order@.len() && (#[trigger] order@[i]).value == v by {
                let inside = |w: int| 0 <= w < n && fixed[w];
                assert forall|x: int, y: int|
                    inside(x) && #[trigger] graph_edge(adj, x, y) implies inside(y) by {
                    let x_k = choose|x_k: int|
                        0 <= x_k < adj[x].len() && (#[trigger] adj[x][x_k]).other.value == y;
                    assert(adj[x][x_k].other.value as int == y);
                }
                lemma_reach_in_closed_set(adj, inside, src, v);
            }
            assert(traverse_spec(adj, frontier@, visited@, breadth_first) == Seq::<int>::empty());
            assert(order@.map_values(|id: VertexId| id.value as int) + Seq::<int>::empty()
                =~= order@.map_values(|id: VertexId| id.value as int));
        }
        order
    }

    /// Produces the breadth-first traversal from `from`: a one-shot sequence
    /// that visits every vertex reachable from `from` exactly once and never
    /// visits an unreachable vertex. Arcs leave each vertex in ascending
    /// weight order, so same-vertex siblings are visited cheapest-first.
    pub fn breadth_first_iter(&self, from: VertexId) -> (it: BFDirectedGraphIter)
        requires
            self.wf(),
            self.valid(from.value as int),
        ensures
            it.pos == 0,
            is_traversal_of(*self, from, it.order@),
            it.order@.map_values(|id: VertexId| id.value as int) == traversal_spec(
                *self,
                from,
                true,
            ),
    {
        BFDirectedGraphIter { order: self.traversal_order(from, true), pos: 0 }
    }

    /// Produces the depth-first traversal from `from`: a one-shot sequence
    /// that visits every vertex reachable from `from` exactly once and never
    /// visits an unreachable vertex. Each newly visited vertex's arcs are
    /// stacked in ascending weight order, so the heaviest sibling branch is
    /// explored first, depth before breadth.
    pub fn depth_first_iter(&self, from: VertexId) -> (it: DFDirectedGraphIter)
        requires
            self.wf(),
            self.valid(from.value as int),
        ensures
            it.pos == 0,
            is_traversal_of(*self, from, it.order@),
            it.order@.map_values(|id: VertexId| id.value as int) == traversal_spec(
                *self,
                from,
                false,
            ),
    {
        DFDirectedGraphIter { order: self.traversal_order(from, false), pos: 0 }
    }
}

/// A one-shot breadth-first traversal sequence.
pub struct BFDirectedGraphIter {
    pub order: Vec<VertexId>,
    pub pos: usize,
}

impl BFDirectedGraphIter {
    /// Hands out the next vertex of the traversal, or `None` once the
    /// sequence is exhausted.
    pub fn next(&mut self) -> (r: Option<VertexId>)
        ensures
            match r {
                Some(id) => {
                    &&& old(self).pos < old(self).order@.len()
                    &&& id == old(self).order@[old(self).pos as int]
                    &&& final(self).pos == old(self).pos + 1
                    &&& final(self).order == old(self).order
                },
                None => {
                    &&& old(self).pos >= old(self).order@.len()
                    &&& *final(self) == *old(self)
                },
            },
    {
        if self.pos < self.order.len() {
            let id = self.order[self.pos];
            self.pos = self.pos + 1;
            Some(id)
        } else {
            None
        }
    }
}

/// A one-shot depth-first traversal sequence.
pub struct DFDirectedGraphIter {
    pub order: Vec<VertexId>,
    pub pos: usize,
}

impl DFDirectedGraphIter {
    /// Hands out the next vertex of the traversal, or `None` once the
    /// sequence is exhausted.
    pub fn next(&mut self) -> (r: Option<VertexId>)
        ensures
            match r {
                Some(id) => {
                    &&& old(self).pos < old(self).order@.len()
                    &&& id == old(self).order@[old(self).pos as int]
                    &&& final(self).pos == old(self).pos + 1
                    &&& final(self).order == old(self).order
                },
                None => {
                    &&& old(self).pos >= old(self).order@.len()
                    &&& *final(self) == *old(self)
                },
            },
    {
        if self.pos < self.order.len() {
            let id = self.order[self.pos];
            self.pos = self.pos + 1;
            Some(id)
        } else {
            None
        }
    }
}

} // verus!
