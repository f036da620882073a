//! Cycle detection and topological ordering.
//!
//! Both rest on one depth-first pass over the whole graph. The pass runs
//! with an explicit frame stack instead of call recursion, colours vertices
//! white (untouched), gray (on the current depth-first chain) or black
//! (finished), and records every vertex at the moment it finishes. Reading
//! that record backwards gives the classic reverse-postorder candidate for
//! a topological order, and it carries the guarantee the two public
//! operations need: an arc whose target does not finish strictly earlier
//! than its source closes a cycle.

use vstd::prelude::*;

use crate::graph::Arc;
use crate::graph::DirectedGraph;
use crate::graph::VertexId;
use crate::reach::graph_cyclic;
use crate::reach::graph_edge;
use crate::reach::graph_reach;
use crate::reach::is_path;
use crate::reach::lemma_descending_rank_acyclic;
use crate::reach::lemma_path_push;
use crate::reach::lemma_path_segment_reach;
use crate::reach::lemma_reach_refl;

verus! {

/// The visiting state of a vertex during the depth-first pass.
#[derive(Debug, Copy, Clone, PartialEq, Eq, Structural)]
pub enum Color {
    White,
    Gray,
    Black,
}

/// One suspended visit: a vertex and the index of its next unscanned arc.
#[derive(Debug, Copy, Clone)]
pub struct Frame {
    pub v: usize,
    pub next: usize,
}

/// How many vertices the pass has not touched yet.
pub open spec fn count_white(s: Seq<Color>) -> nat
    decreases s.len(),
{
    if s.len() == 0 {
        0
    } else {
        count_white(s.drop_last()) + if s.last() == Color::White {
            1nat
        } else {
            0nat
        }
    }
}

/// Recolouring one vertex away from white never raises, and from white
/// strictly lowers, the white count.
proof fn lemma_count_white_update(s: Seq<Color>, i: int, c: Color)
    requires
        0 <= i < s.len(),
        c != Color::White,
    ensures
        s[i] == Color::White ==> count_white(s.update(i, c)) < count_white(s),
        s[i] != Color::White ==> count_white(s.update(i, c)) == count_white(s),
    decreases s.len(),
{
    let t = s.update(i, c);
    if i == s.len() - 1 {
        assert(t.drop_last() =~= s.drop_last());
    } else {
        assert(t.drop_last() =~= s.drop_last().update(i, c));
        lemma_count_white_update(s.drop_last(), i, c);
    }
}

/// Whether a frame indexes into the graph and has not overrun its arc list.
pub open spec fn frame_ok(adj: Seq<Seq<Arc>>, f: Frame) -> bool {
    f.v < adj.len() && f.next <= adj[f.v as int].len()
}

/// How many arcs of this frame's vertex are still unscanned.
pub open spec fn frame_pending(adj: Seq<Seq<Arc>>, f: Frame) -> nat {
    if frame_ok(adj, f) {
        (adj[f.v as int].len() - f.next) as nat
    } else {
        0
    }
}

/// The total unscanned-arc count over a whole stack.
pub open spec fn frames_pending(adj: Seq<Seq<Arc>>, frames: Seq<Frame>) -> nat
    decreases frames.len(),
{
    if frames.len() == 0 {
        0
    } else {
        frames_pending(adj, frames.drop_last()) + frame_pending(adj, frames.last())
    }
}

proof fn lemma_frames_pending_push(adj: Seq<Seq<Arc>>, frames: Seq<Frame>, f: Frame)
    ensures
        frames_pending(adj, frames.push(f)) == frames_pending(adj, frames) + frame_pending(adj, f),
{
    assert(frames.push(f).drop_last() =~= frames);
    assert(frames.push(f).last() == f);
}

/// The vertices of a frame stack, bottom to top.
spec fn stack_vertices(frames: Seq<Frame>) -> Seq<int> {
    frames.map_values(|f: Frame| f.v as int)
}

/// One depth-first run to exhaustion of its frame stack: the topmost
/// frame's next arc is scanned, a white target is coloured gray and
/// descended into, and a frame whose arcs are spent is popped, its vertex
/// blackened and appended to the finish record. Returns the colours and
/// the finish record as they stand when the stack empties.
pub open spec fn dfs_run(
    adj: Seq<Seq<Arc>>,
    stack: Seq<Frame>,
    color: Seq<Color>,
    ord: Seq<int>,
) -> (Seq<Color>, Seq<int>)
    decreases count_white(color), frames_pending(adj, stack), stack.len(),
        via dfs_run_decreases
{
    if stack.len() == 0 {
        (color, ord)
    } else {
        let f = stack.last();
        let rest = stack.drop_last();
        if !(f.v < adj.len() && adj.len() == color.len() && adj[f.v as int].len() <= usize::MAX) {
            (color, ord)
        } else if f.next < adj[f.v as int].len() {
            let w = adj[f.v as int][f.next as int].other.value;
            let stack2 = rest.push(Frame { v: f.v, next: (f.next + 1) as usize });
            if !(w < color.len()) {
                (color, ord)
            } else if color[w as int] == Color::White {
                dfs_run(
                    adj,
                    stack2.push(Frame { v: w, next: 0 }),
                    color.update(w as int, Color::Gray),
                    ord,
                )
            } else {
                dfs_run(adj, stack2, color, ord)
            }
        } else {
            dfs_run(adj, rest, color.update(f.v as int, Color::Black), ord.push(f.v as int))
        }
    }
}

#[via_fn]
proof fn dfs_run_decreases(adj: Seq<Seq<Arc>>, stack: Seq<Frame>, color: Seq<Color>, ord: Seq<int>) {
    if stack.len() > 0 {
        let f = stack.last();
        let rest = stack.drop_last();
        if f.v < adj.len() && adj.len() == color.len() && adj[f.v as int].len() <= usize::MAX {
            if f.next < adj[f.v as int].len() {
                let w = adj[f.v as int][f.next as int].other.value;
                let f2 = Frame { v: f.v, next: (f.next + 1) as usize };
                lemma_frames_pending_push(adj, rest, f);
                lemma_frames_pending_push(adj, rest, f2);
                if w < color.len() && color[w as int] == Color::White {
                    lemma_count_white_update(color, w as int, Color::Gray);
                    lemma_frames_pending_push(adj, rest.push(f2), Frame { v: w, next: 0 });
                }
            } else {
                lemma_frames_pending_push(adj, rest, f);
                assert(frame_pending(adj, f) == 0);
                lemma_count_white_update(color, f.v as int, Color::Black);
            }
        }
    }
}

/// The finish record of the whole pass: every vertex, in insertion order,
/// serves once as the root of a depth-first run unless an earlier run
/// already finished it.
pub open spec fn dfs_all(adj: Seq<Seq<Arc>>, s: int, color: Seq<Color>, ord: Seq<int>) -> Seq<int>
    decreases adj.len() - s,
{
    if !(0 <= s < adj.len() && adj.len() == color.len()) {
        ord
    } else if color[s] == Color::White {
        let run = dfs_run(
            adj,
            seq![Frame { v: s as usize, next: 0 }],
            color.update(s, Color::Gray),
            ord,
        );
        dfs_all(adj, s + 1, run.0, run.1)
    } else {
        dfs_all(adj, s + 1, color, ord)
    }
}

/// The finish sequence of the depth-first pass over `graph`, started on
/// blank colours: the order in which the vertices finish. The topological
/// candidate order is this sequence read backwards.
pub open spec fn finish_order_spec<A>(graph: DirectedGraph<A>) -> Seq<int> {
    dfs_all(
        graph.adj(),
        0,
        Seq::new(graph.vertex_count(), |i: int| Color::White),
        Seq::empty(),
    )
}

/// Some position of `order` holds vertex `v`.
pub open spec fn appears(order: Seq<VertexId>, v: int) -> bool {
    exists|i: int| 0 <= i < order.len() && (#[trigger] order[i]).value == v
}

/// `order` lays out every vertex of `graph` exactly once, and every arc
/// points from an earlier to a later position — an arrangement that can
/// exist only when the graph holds no cycle.
pub open spec fn is_topological_order<A>(graph: DirectedGraph<A>, order: Seq<VertexId>) -> bool {
    &&& order.len() == graph.vertex_count()
    &&& forall|i: int| 0 <= i < order.len() ==> graph.valid((#[trigger] order[i]).value as int)
    &&& forall|i: int, j: int|
        0 <= i < j < order.len() ==> (#[trigger] order[i]).value != (#[trigger] order[j]).value
    &&& forall|v: int| 0 <= v < graph.vertex_count() ==> #[trigger] appears(order, v)
    &&& forall|i: int, j: int|
        0 <= i < order.len() && 0 <= j < order.len() && #[trigger] graph.edge(
            order[i].value as int,
            order[j].value as int,
        ) ==> i < j
}

impl<A> DirectedGraph<A> {
    /// The depth-first pass: finishes every vertex of every component and
    /// returns the finish sequence together with each vertex's finish rank.
    /// An arc whose target ranks at or above its own source is a witness
    /// that the target reaches back to the source.
    fn dfs(&self) -> (res: (Vec<VertexId>, Vec<usize>))
        requires
            self.wf(),
        ensures
            res.0@.len() == self.vertex_count(),
            res.1@.len() == self.vertex_count(),
            forall|v: int|
                0 <= v < self.vertex_count() ==> (#[trigger] res.1@[v]) < self.vertex_count()
                    && res.0@[res.1@[v] as int].value == v,
            forall|i: int|
                0 <= i < res.0@.len() ==> ((#[trigger] res.0@[i]).value as int)
                    < self.vertex_count() && res.1@[res.0@[i].value as int] == i,
            forall|u: int, k: int|
                0 <= u < self.vertex_count() && 0 <= k < self.adj()[u].len() ==> {
                    let t = (#[trigger] self.adj()[u][k]).other.value as int;
                    res.1@[t] < res.1@[u] || graph_reach(self.adj(), t, u)
                },
            res.0@.map_values(|id: VertexId| id.value as int) == finish_order_spec(*self),
    {
        let ghost adj = self.adj();
        let ghost total = finish_order_spec(*self);
        let n = self.vertices.len();

        let mut color: Vec<Color> = Vec::new();
        while color.len() < n
            invariant
                color@.len() <= n,
                forall|i: int| 0 <= i < color@.len() ==> #[trigger] color@[i] == Color::White,
            decreases n - color@.len(),
        {
            color.push(Color::White);
        }
        let mut rank: Vec<usize> = Vec::new();
        while rank.len() < n
            invariant
                rank@.len() <= n,
            decreases n - rank@.len(),
        {
            rank.push(0);
        }
        let mut ord: Vec<VertexId> = Vec::new();
        proof {
            assert(color@ =~= Seq::new(self.vertex_count(), |i: int| Color::White));
            assert(ord@.map_values(|id: VertexId| id.value as int) =~= Seq::<int>::empty());
        }

        let mut s: usize = 0;
        while s < n
            invariant
                self.wf(),
                adj == self.adj(),
                n == self.vertex_count(),
                adj.len() == n,
                s <= n,
                color@.len() == n,
                rank@.len() == n,
                forall|v: int| 0 <= v < n ==> #[trigger] color@[v] != Color::Gray,
                forall|v: int| 0 <= v < s ==> #[trigger] color@[v] == Color::Black,
                forall|v: int|
                    0 <= v < n && #[trigger] color@[v] == Color::Black ==> rank@[v] < ord@.len()
                        && ord@[rank@[v] as int].value == v,
                forall|i: int|
                    0 <= i < ord@.len() ==> ((#[trigger] ord@[i]).value as int) < n
                        && color@[ord@[i].value as int] == Color::Black
                        && rank@[ord@[i].value as int] == i,
                forall|v: int, k: int|
                    0 <= v < n && color@[v] == Color::Black && 0 <= k < adj[v].len() ==> {
                        let t = (#[trigger] adj[v][k]).other.value as int;
                        (color@[t] == Color::Black && rank@[t] < rank@[v]) || graph_reach(
                            adj,
                            t,
                            v,
                        )
                    },
                total == dfs_all(adj, s as int, color@, ord@.map_values(|id: VertexId| id.value as int)),
            decreases n - s,
        {
            if color[s] == Color::White {
                let ghost entry_color = color@;
                let ghost entry_vals = ord@.map_values(|id: VertexId| id.value as int);
                color.set(s, Color::Gray);
                let mut stack: Vec<Frame> = Vec::new();
                stack.push(Frame { v: s, next: 0 });
                let ghost target = dfs_run(adj, stack@, color@, entry_vals);
                proof {
                    assert(stack_vertices(stack@) =~= seq![s as int]);
                    assert(is_path(adj, stack_vertices(stack@)));
                    assert forall|v: int|
                        0 <= v < n && #[trigger] color@[v] == Color::Gray implies exists|i: int|
                            0 <= i < stack@.len() && (#[trigger] stack@[i]).v == v by {
                        assert(v == s as int);
                        assert(stack@[0].v == v);
                    }
                    // one unfolding of the outer pass: this root is white,
                    // so the pass descends into one depth-first run
                    assert(stack@ =~= seq![Frame { v: s, next: 0 }]);
                    assert(entry_color.update(s as int, Color::Gray) =~= color@);
                    assert(dfs_all(adj, s as int, entry_color, entry_vals) == dfs_all(
                        adj,
                        s as int + 1,
                        target.0,
                        target.1,
                    ));
                }
                while stack.len() > 0
                    invariant
                        self.wf(),
                        adj == self.adj(),
                        n == self.vertex_count(),
                        adj.len() == n,
                        s < n,
                        color@.len() == n,
                        rank@.len() == n,
                        color@[s as int] != Color::White,
                        forall|v: int| 0 <= v < s ==> #[trigger] color@[v] == Color::Black,
                        forall|i: int|
                            0 <= i < stack@.len() ==> ((#[trigger] stack@[i]).v as int) < n
                                && stack@[i].next <= adj[stack@[i].v as int].len()
                                && color@[stack@[i].v as int] == Color::Gray,
                        stack@.len() > 0 ==> is_path(adj, stack_vertices(stack@)),
                        forall|i: int, j: int|
                            0 <= i < j < stack@.len() ==> (#[trigger] stack@[i]).v != (
                            #[trigger] stack@[j]).v,
                        forall|v: int|
                            0 <= v < n && #[trigger] color@[v] == Color::Gray ==> exists|i: int|
                                0 <= i < stack@.len() && (#[trigger] stack@[i]).v == v,
                        forall|i: int, k: int|
                            0 <= i < stack@.len() && 0 <= k < stack@[i].next
                                ==> (#[trigger] adj[stack@[i].v as int][k]).other.value < n
                                && color@[adj[stack@[i].v as int][k].other.value as int]
                                != Color::White,
                        forall|v: int|
                            0 <= v < n && #[trigger] color@[v] == Color::Black ==> rank@[v]
                                < ord@.len() && ord@[rank@[v] as int].value == v,
                        forall|i: int|
                            0 <= i < ord@.len() ==> ((#[trigger] ord@[i]).value as int) < n
                                && color@[ord@[i].value as int] == Color::Black
                                && rank@[ord@[i].value as int] == i,
                        forall|v: int, k: int|
                            0 <= v < n && color@[v] == Color::Black && 0 <= k < adj[v].len() ==> {
                                let t = (#[trigger] adj[v][k]).other.value as int;
                                (color@[t] == Color::Black && rank@[t] < rank@[v])
                                    || graph_reach(adj, t, v)
                            },
                        target == dfs_run(
                            adj,
                            stack@,
                            color@,
                            ord@.map_values(|id: VertexId| id.value as int),
                        ),
                        total == dfs_all(adj, s as int + 1, target.0, target.1),
                    decreases count_white(color@), frames_pending(adj, stack@), stack@.len(),
                {
                    let ghost prev_stack = stack@;
                    let ghost prev_color = color@;
                    let ghost prev_vals = ord@.map_values(|id: VertexId| id.value as int);
                    let ghost pv = stack_vertices(prev_stack);
                    let f = stack.pop().unwrap();
                    let deg = self.vertices[f.v].arcs_out.len();
                    proof {
                        assert(adj[f.v as int] == self.vertices@[f.v as int].arcs_out@);
                        assert(adj[f.v as int].len() <= usize::MAX);
                        assert(prev_stack.drop_last() =~= stack@);
                        lemma_frames_pending_push(adj, stack@, f);
                    }
                    if f.next < deg {
                        stack.push(Frame { v: f.v, next: f.next + 1 });
                        proof {
                            lemma_frames_pending_push(
                                adj,
                                prev_stack.drop_last(),
                                Frame { v: f.v, next: (f.next + 1) as usize },
                            );
                            assert(stack_vertices(stack@) =~= pv);
                            assert(stack@ =~= prev_stack.drop_last().push(
                                Frame { v: f.v, next: (f.next + 1) as usize },
                            ));
                        }
                        let w = self.vertices[f.v].arcs_out[f.next].other.value;
                        proof {
                            assert(graph_edge(adj, f.v as int, w as int));
                        }
                        if color[w] == Color::White {
                            let ghost mid_stack = stack@;
                            color.set(w, Color::Gray);
                            stack.push(Frame { v: w, next: 0 });
                            proof {
                                lemma_count_white_update(prev_color, w as int, Color::Gray);
                                // one unfolding of the run: a white target is
                                // coloured gray and descended into
                                assert(stack@ =~= mid_stack.push(Frame { v: w, next: 0 }));
                                assert(prev_color.update(w as int, Color::Gray) =~= color@);
                                assert(dfs_run(adj, prev_stack, prev_color, prev_vals) == dfs_run(
                                    adj,
                                    stack@,
                                    color@,
                                    prev_vals,
                                ));
                                assert(stack_vertices(stack@) =~= pv.push(w as int));
                                assert(pv.last() == f.v as int);
                                lemma_path_push(adj, pv, w as int);
                                assert forall|v: int|
                                    0 <= v < n && #[trigger] color@[v] == Color::Gray implies exists|
                                    i: int,
                                |
                                    0 <= i < stack@.len() && (#[trigger] stack@[i]).v == v by {
                                    if v == w as int {
                                        assert(stack@[stack@.len() - 1].v == v);
                                    } else {
                                        let i = choose|i: int|
                                            0 <= i < prev_stack.len() && (
                                            #[trigger] prev_stack[i]).v == v;
                                        if i < prev_stack.len() - 1 {
                                            assert(stack@[i].v == v);
                                        } else {
                                            assert(stack@[prev_stack.len() - 1].v == v);
                                        }
                                    }
                                }
                            }
                        } else {
                            proof {
                                // one unfolding of the run: an already-seen
                                // target is skipped
                                assert(dfs_run(adj, prev_stack, prev_color, prev_vals) == dfs_run(
                                    adj,
                                    stack@,
                                    color@,
                                    prev_vals,
                                ));
                                assert forall|v: int|
                                    0 <= v < n && #[trigger] color@[v] == Color::Gray implies exists|
                                    i: int,
                                |
                                    0 <= i < stack@.len() && (#[trigger] stack@[i]).v == v by {
                                    let i = choose|i: int|
                                        0 <= i < prev_stack.len() && (#[trigger] prev_stack[i]).v
                                            == v;
                                    if i < prev_stack.len() - 1 {
                                        assert(stack@[i].v == v);
                                    } else {
                                        assert(stack@[prev_stack.len() - 1].v == v);
                                    }
                                }
                            }
                        }
                    } else {
                        let ghost po = ord@;
                        let ghost pr = rank@;
                        color.set(f.v, Color::Black);
                        rank.set(f.v, ord.len());
                        ord.push(VertexId { value: f.v });
                        proof {
                            lemma_count_white_update(prev_color, f.v as int, Color::Black);
                            assert(frame_pending(adj, f) == 0);
                            // one unfolding of the run: a spent frame is
                            // popped and its vertex joins the finish record
                            assert(prev_color.update(f.v as int, Color::Black) =~= color@);
                            assert(ord@.map_values(|id: VertexId| id.value as int) =~= prev_vals.push(
                                f.v as int,
                            ));
                            assert(dfs_run(adj, prev_stack, prev_color, prev_vals) == dfs_run(
                                adj,
                                stack@,
                                color@,
                                prev_vals.push(f.v as int),
                            ));
                            if stack@.len() > 0 {
                                let nv = stack_vertices(stack@);
                                assert(nv =~= pv.subrange(0, pv.len() - 1));
                                assert forall|i: int|
                                    0 <= i < nv.len() implies {
                                        &&& 0 <= #[trigger] nv[i] < adj.len()
                                        &&& i + 1 < nv.len() ==> graph_edge(adj, nv[i], nv[i + 1])
                                    } by {
                                    assert(nv[i] == pv[i]);
                                    if i + 1 < nv.len() {
                                        assert(nv[i + 1] == pv[i + 1]);
                                    }
                                }
                                assert(is_path(adj, nv));
                            }
                            // every gray vertex still has its frame
                            assert forall|v: int|
                                0 <= v < n && #[trigger] color@[v] == Color::Gray implies exists|
                                i: int,
                            |
                                0 <= i < stack@.len() && (#[trigger] stack@[i]).v == v by {
                                let i = choose|i: int|
                                    0 <= i < prev_stack.len() && (#[trigger] prev_stack[i]).v == v;
                                assert(i < prev_stack.len() - 1);
                                assert(stack@[i].v == v);
                            }
                            // the finished vertex carries the rank guarantee
                            assert forall|v: int, k: int|
                                0 <= v < n && color@[v] == Color::Black && 0 <= k
                                    < adj[v].len() implies {
                                let t = (#[trigger] adj[v][k]).other.value as int;
                                (color@[t] == Color::Black && rank@[t] < rank@[v]) || graph_reach(
                                    adj,
                                    t,
                                    v,
                                )
                            } by {
                                let t = adj[v][k].other.value as int;
                                if v == f.v as int {
                                    assert(k < f.next);
                                    assert(prev_color[t] != Color::White);
                                    if prev_color[t] == Color::Black {
                                        assert(color@[t] == Color::Black);
                                        assert(rank@[t] == pr[t] && pr[t] < po.len());
                                    } else {
                                        assert(prev_color[t] == Color::Gray);
                                        if t == f.v as int {
                                            lemma_reach_refl(adj, t);
                                        } else {
                                            let j = choose|j: int|
                                                0 <= j < prev_stack.len() && (
                                                #[trigger] prev_stack[j]).v == t;
                                            assert(j < prev_stack.len() - 1);
                                            assert(pv[j] == t);
                                            assert(pv[pv.len() - 1] == f.v as int);
                                            lemma_path_segment_reach(adj, pv, j, pv.len() - 1);
                                        }
                                    }
                                } else {
                                    assert(prev_color[v] == Color::Black);
                                }
                            }
                        }
                    }
                }
                proof {
                    assert(color@[s as int] == Color::Black);
                    // the run is over: its result is exactly the state held now
                    assert(target == (color@, ord@.map_values(|id: VertexId| id.value as int)));
                }
            } else {
                proof {
                    // one unfolding of the outer pass: a finished root is
                    // passed over
                    assert(dfs_all(
                        adj,
                        s as int,
                        color@,
                        ord@.map_values(|id: VertexId| id.value as int),
                    ) == dfs_all(
                        adj,
                        s as int + 1,
                        color@,
                        ord@.map_values(|id: VertexId| id.value as int),
                    ));
                }
            }
            s += 1;
        }
        proof {
            // every vertex finished, so the finish record is a permutation
            let vals = ord@.map_values(|id: VertexId| id.value as int);
            assert forall|v: int| 0 <= v < n implies #[trigger] vals.to_set().contains(v) by {
                assert(color@[v] == Color::Black);
                assert(vals[rank@[v] as int] == v);
                assert(vals.contains(v));
            }
            assert forall|x: int| #[trigger] vals.to_set().contains(x) implies 0 <= x < n by {
                let i = choose|i: int| 0 <= i < vals.len() && vals[i] == x;
            }
            assert(vals.to_set() =~= vstd::set_lib::set_int_range(0, n as int));
            vstd::set_lib::lemma_int_range(0, n as int);
            assert(vals.no_duplicates()) by {
                assert forall|i: int, j: int|
                    0 <= i < vals.len() && 0 <= j < vals.len() && i != j implies vals[i]
                    != vals[j] by {
                    assert(rank@[ord@[i].value as int] == i);
                    assert(rank@[ord@[j].value as int] == j);
                }
            }
            vals.unique_seq_to_set();
            assert(ord@.len() == n);
            assert(dfs_all(adj, n as int, color@, vals) == vals);
            assert(total == vals);
            assert forall|v: int| 0 <= v < n implies (#[trigger] rank@[v]) < n
                && ord@[rank@[v] as int].value == v by {
                assert(color@[v] == Color::Black);
            }
        }
        (ord, rank)
    }

    /// Reports whether the graph holds a cycle anywhere: some arc, in any
    /// component, leads to a vertex that can reach the arc's own source
    /// back. A self-loop counts. The empty graph is not cyclic.
    pub fn is_cyclic(&self) -> (r: bool)
        requires
            self.wf(),
        ensures
            r == self.cyclic(),
    {
        let ghost adj = self.adj();
        let (ord, rank) = self.dfs();
        let n = self.vertices.len();
        let mut u: usize = 0;
        while u < n
            invariant
                self.wf(),
                adj == self.adj(),
                n == self.vertex_count(),
                adj.len() == n,
                u <= n,
                rank@.len() == n,
                forall|v: int, k: int|
                    0 <= v < n && 0 <= k < adj[v].len() ==> {
                        let t = (#[trigger] adj[v][k]).other.value as int;
                        rank@[t] < rank@[v] || graph_reach(adj, t, v)
                    },
                forall|v: int, k: int|
                    0 <= v < u && 0 <= k < adj[v].len() ==> rank@[(#[trigger] adj[v][k]).other.value as int]
                        < rank@[v],
            decreases n - u,
        {
            let deg = self.vertices[u].arcs_out.len();
            proof {
                assert(adj[u as int] == self.vertices@[u as int].arcs_out@);
            }
            let mut k: usize = 0;
            while k < deg
                invariant
                    self.wf(),
                    adj == self.adj(),
                    n == self.vertex_count(),
                    adj.len() == n,
                    u < n,
                    k <= deg,
                    deg == adj[u as int].len(),
                    rank@.len() == n,
                    forall|v: int, kk: int|
                        0 <= v < n && 0 <= kk < adj[v].len() ==> (#[trigger] adj[v][kk]).other.value
                            < n,
                    forall|v: int, kk: int|
                        0 <= v < n && 0 <= kk < adj[v].len() ==> {
                            let t = (#[trigger] adj[v][kk]).other.value as int;
                            rank@[t] < rank@[v] || graph_reach(adj, t, v)
                        },
                    forall|kk: int|
                        0 <= kk < k ==> rank@[(#[trigger] adj[u as int][kk]).other.value as int]
                            < rank@[u as int],
                decreases deg - k,
            {
                let t = self.vertices[u].arcs_out[k].other.value;
                if rank[t] >= rank[u] {
                    proof {
                        assert(graph_edge(adj, u as int, t as int));
                        assert(graph_reach(adj, t as int, u as int));
                        assert(graph_cyclic(adj));
                    }
                    return true;
                }
                k += 1;
            }
            u += 1;
        }
        proof {
            let rank_of = |v: int| rank@[v] as int;
            assert forall|x: int, y: int| #[trigger] graph_edge(adj, x, y) implies rank_of(y)
                < rank_of(x) by {
                let k = choose|k: int| 0 <= k < adj[x].len() && (#[trigger] adj[x][k]).other.value == y;
            }
            lemma_descending_rank_acyclic(adj, rank_of);
        }
        false
    }

    /// Computes the reverse finish order of the depth-first pass: always a
    /// permutation of all vertices, and a topological order whenever the
    /// graph is acyclic.
    fn topological_order(&self) -> (order: Vec<VertexId>)
        requires
            self.wf(),
        ensures
            order@.len() == self.vertex_count(),
            forall|i: int|
                0 <= i < order@.len() ==> self.valid((#[trigger] order@[i]).value as int),
            forall|i: int, j: int|
                0 <= i < j < order@.len() ==> (#[trigger] order@[i]).value != (
                #[trigger] order@[j]).value,
            forall|v: int| 0 <= v < self.vertex_count() ==> #[trigger] appears(order@, v),
            order@.map_values(|id: VertexId| id.value as int) == finish_order_spec(
                *self,
            ).reverse(),
            !self.cyclic() ==> is_topological_order(*self, order@),
    {
        let ghost adj = self.adj();
        let (ord, rank) = self.dfs();
        let n = ord.len();
        let mut order: Vec<VertexId> = Vec::new();
        let mut i: usize = 0;
        while i < n
            invariant
                i <= n,
                n == ord@.len(),
                order@.len() == i,
                forall|j: int| 0 <= j < i ==> #[trigger] order@[j] == ord@[n - 1 - j],
            decreases n - i,
        {
            order.push(ord[n - 1 - i]);
            i += 1;
        }
        proof {
            assert(order@.map_values(|id: VertexId| id.value as int) =~= ord@.map_values(
                |id: VertexId| id.value as int,
            ).reverse());
            assert forall|i2: int, j2: int|
                0 <= i2 < j2 < order@.len() implies (#[trigger] order@[i2]).value != (
            #[trigger] order@[j2]).value by {
                assert(order@[i2] == ord@[n - 1 - i2]);
                assert(order@[j2] == ord@[n - 1 - j2]);
                assert(rank@[ord@[n - 1 - i2].value as int] == n - 1 - i2);
                assert(rank@[ord@[n - 1 - j2].value as int] == n - 1 - j2);
            }
            assert forall|v: int| 0 <= v < self.vertex_count() implies #[trigger] appears(
                order@,
                v,
            ) by {
                assert(ord@[rank@[v] as int].value == v);
                assert(order@[n - 1 - rank@[v]] == ord@[rank@[v] as int]);
                assert((n - 1 - rank@[v]) < order@.len());
            }
            if !self.cyclic() {
                assert forall|i2: int, j2: int|
                    0 <= i2 < order@.len() && 0 <= j2 < order@.len() && #[trigger] self.edge(
                        order@[i2].value as int,
                        order@[j2].value as int,
                    ) implies i2 < j2 by {
                    let u = order@[i2].value as int;
                    let t = order@[j2].value as int;
                    assert(order@[i2] == ord@[n - 1 - i2]);
                    assert(order@[j2] == ord@[n - 1 - j2]);
                    assert(rank@[u] == n - 1 - i2);
                    assert(rank@[t] == n - 1 - j2);
                    let k = choose|k: int|
                        0 <= k < adj[u].len() && (#[trigger] adj[u][k]).other.value == t;
                    assert(rank@[t] < rank@[u] || graph_reach(adj, t, u));
                    if graph_reach(adj, t, u) {
                        assert(graph_edge(adj, u, t));
                        assert(graph_cyclic(adj));
                    }
                }
            }
        }
        order
    }

    /// Produces the vertices in a topological order if the graph is
    /// acyclic, and reports `None` if it holds a cycle. In the returned
    /// order every vertex appears exactly once and every arc points from an
    /// earlier to a later vertex.
    pub fn topologically_ordered_iter(&self) -> (r: Option<TopologicalIter>)
        requires
            self.wf(),
        ensures
            match r {
                None => self.cyclic(),
                Some(it) => {
                    &&& !self.cyclic()
                    &&& it.pos == 0
                    &&& is_topological_order(*self, it.order@)
                    &&& it.order@.map_values(|id: VertexId| id.value as int) == finish_order_spec(
                        *self,
                    ).reverse()
                },
            },
    {
        if self.is_cyclic() {
            None
        } else {
            Some(TopologicalIter { order: self.topological_order(), pos: 0 })
        }
    }
}

/// A one-shot sequence over a precomputed topological order.
pub struct TopologicalIter {
    pub order: Vec<VertexId>,
    pub pos: usize,
}

impl TopologicalIter {
    /// Hands out the next vertex of the order, or `None` once the sequence
    /// is exhausted.
    pub fn next(&mut self) -> (r: Option<VertexId>)
        ensures
            match r {
                Some(id) => {
                    &&& old(self).pos < old(self).order@.len()
                    &&& id == old(self).order@[old(self).pos as int]
                    &&& final(self).pos == old(self).pos + 1
                    &&& final(self).order == old(self).order
                },
                None => {
                    &&& old(self).pos >= old(self).order@.len()
                    &&& *final(self) == *old(self)
                },
            },
    {
        if self.pos < self.order.len() {
            let id = self.order[self.pos];
            self.pos = self.pos + 1;
            Some(id)
        } else {
            None
        }
    }
}

} // verus!
