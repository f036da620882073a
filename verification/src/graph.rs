//! Vertex and arc storage for directed graphs.
//!
//! A [`DirectedGraph`] owns an append-only sequence of vertices. Each vertex
//! keeps its payload together with its outgoing and incoming arc lists, and
//! its own id, which is its position in the storage sequence. Vertices are
//! never removed, so an id stays valid for the graph's whole lifetime.

use vstd::prelude::*;

use crate::reach::graph_cyclic;
use crate::reach::graph_edge;
use crate::reach::graph_reach;

verus! {

/// A unique identifier for a vertex within a graph: its storage index.
///
/// Ids are handed out by [`DirectedGraph::add_vertex`] and are never reused
/// or invalidated. An id is only meaningful for the graph that produced it.
#[derive(Debug, Copy, Clone, PartialEq, Eq, Hash, Structural)]
pub struct VertexId {
    pub value: usize,
}

/// A directed edge record: the vertex at the far end, and a signed weight.
///
/// In an outgoing arc list `other` is the target; in an incoming arc list it
/// is the source. Weights may be negative. Self-loops and parallel arcs are
/// permitted and never deduplicated.
#[derive(Debug, Copy, Clone, PartialEq, Eq, Structural)]
pub struct Arc {
    pub other: VertexId,
    pub weight: i64,
}

/// A vertex: a payload value, its arc lists, and its own id.
pub struct Vertex<A> {
    pub value: A,
    pub arcs_in: Vec<Arc>,
    pub arcs_out: Vec<Arc>,
    pub id: VertexId,
}

/// A directed graph over payloads of type `A`.
pub struct DirectedGraph<A> {
    pub vertices: Vec<Vertex<A>>,
}

/// The error reported when an operation names a vertex id that does not
/// exist in the graph. It carries the missing id.
#[derive(Debug, Copy, Clone, PartialEq, Eq, Structural)]
pub enum GraphError {
    VertexNotFound(VertexId),
}

/// Every arc target of every adjacency list stays inside the graph.
pub open spec fn adj_wf(adj: Seq<Seq<Arc>>) -> bool {
    forall|u: int, k: int|
        0 <= u < adj.len() && 0 <= k < adj[u].len() ==> (#[trigger] adj[u][k]).other.value
            < adj.len()
}

impl<A> DirectedGraph<A> {
    /// The number of vertices.
    pub open spec fn vertex_count(self) -> nat {
        self.vertices@.len()
    }

    /// Whether `v` is the index of a stored vertex.
    pub open spec fn valid(self, v: int) -> bool {
        0 <= v < self.vertices@.len()
    }

    /// The outgoing arc lists, indexed by vertex.
    pub open spec fn adj(self) -> Seq<Seq<Arc>> {
        self.vertices@.map_values(|vx: Vertex<A>| vx.arcs_out@)
    }

    /// The incoming arc lists, indexed by vertex.
    pub open spec fn radj(self) -> Seq<Seq<Arc>> {
        self.vertices@.map_values(|vx: Vertex<A>| vx.arcs_in@)
    }

    /// The payloads, indexed by vertex.
    pub open spec fn payloads(self) -> Seq<A> {
        self.vertices@.map_values(|vx: Vertex<A>| vx.value)
    }

    /// There is an arc from vertex `u` to vertex `v`.
    pub open spec fn edge(self, u: int, v: int) -> bool {
        graph_edge(self.adj(), u, v)
    }

    /// Vertex `v` can be reached from vertex `u` along zero or more arcs.
    pub open spec fn reach(self, u: int, v: int) -> bool {
        graph_reach(self.adj(), u, v)
    }

    /// Some arc of the graph leads to a vertex that can reach the arc's own
    /// source back: the graph holds a cycle (a self-loop counts).
    pub open spec fn cyclic(self) -> bool {
        graph_cyclic(self.adj())
    }

    /// Structural soundness: every vertex records its own index as its id,
    /// and every arc, outgoing or incoming, stays inside the graph.
    pub open spec fn wf(self) -> bool {
        &&& forall|i: int|
            0 <= i < self.vertices@.len() ==> (#[trigger] self.vertices@[i]).id.value == i
        &&& adj_wf(self.adj())
        &&& adj_wf(self.radj())
    }

    /// Constructs a new empty directed graph.
    pub fn new() -> (graph: DirectedGraph<A>)
        ensures
            graph.vertex_count() == 0,
            graph.wf(),
    {
        DirectedGraph { vertices: Vec::new() }
    }

    /// True iff the graph holds no vertices.
    pub fn is_empty(&self) -> (r: bool)
        ensures
            r <==> self.vertex_count() == 0,
    {
        self.vertices.len() == 0
    }

    /// Retrieves the vertex at the given id, or `None` if the id is out of
    /// range.
    pub fn vertex(&self, id: VertexId) -> (r: Option<&Vertex<A>>)
        ensures
            match r {
                Some(vx) => self.valid(id.value as int) && *vx == self.vertices@[id.value as int],
                None => !self.valid(id.value as int),
            },
    {
        if id.value < self.vertices.len() {
            Some(&self.vertices[id.value])
        } else {
            None
        }
    }

    /// Retrieves a vertex payload, or `None` if the id is out of range.
    pub fn vertex_value(&self, id: VertexId) -> (r: Option<&A>)
        ensures
            match r {
                Some(value) => self.valid(id.value as int) && *value == self.payloads()[id.value as int],
                None => !self.valid(id.value as int),
            },
    {
        match self.vertex(id) {
            Some(vx) => Some(&vx.value),
            None => None,
        }
    }

    /// Retrieves the vertex at the given id for mutation, or `None` if the
    /// id is out of range. Mutating the arc lists or the stored id through
    /// the returned reference can break [`DirectedGraph::wf`]; payload
    /// mutation is always safe.
    pub fn vertex_mut(&mut self, id: VertexId) -> (r: Option<&mut Vertex<A>>)
        ensures
            match r {
                Some(vx) => {
                    &&& old(self).valid(id.value as int)
                    &&& *vx == old(self).vertices@[id.value as int]
                    &&& final(self).vertices@ == old(self).vertices@.update(
                        id.value as int,
                        *final(vx),
                    )
                },
                None => {
                    &&& !old(self).valid(id.value as int)
                    &&& *final(self) == *old(self)
                },
            },
    {
        if id.value < self.vertices.len() {
            Some(&mut self.vertices[id.value])
        } else {
            None
        }
    }

    /// Retrieves a vertex payload for mutation, or `None` if the id is out
    /// of range. Payloads can only change through this access path; the
    /// graph structure stays as it was.
    #[verifier::rlimit(50)]
    pub fn vertex_value_mut(&mut self, id: VertexId) -> (r: Option<&mut A>)
        ensures
            r is Some <==> old(self).valid(id.value as int),
            r is None ==> *final(self) == *old(self),
            (match r {
                Some(value) => *value == old(self).payloads()[id.value as int],
                None => true,
            }),
            (match r {
                Some(value) => final(self).vertices@ == old(self).vertices@.update(
                    id.value as int,
                    (Vertex { value: *final(value), ..old(self).vertices@[id.value as int] }),
                ),
                None => true,
            }),
            (match r {
                Some(value) => final(self).payloads() =~= old(self).payloads().update(
                    id.value as int,
                    *final(value),
                ),
                None => true,
            }),
            r is Some ==> final(self).adj() =~= old(self).adj(),
            r is Some ==> final(self).radj() =~= old(self).radj(),
            r is Some && old(self).wf() ==> final(self).wf(),
    {
        if id.value < self.vertices.len() {
            let vx = &mut self.vertices[id.value];
            Some(&mut vx.value)
        } else {
            None
        }
    }

    /// Appends a vertex with the given payload and empty arc lists, and
    /// returns its new, never-before-used id.
    pub fn add_vertex(&mut self, value: A) -> (id: VertexId)
        ensures
            id.value == old(self).vertex_count(),
            final(self).vertex_count() == old(self).vertex_count() + 1,
            final(self).payloads() =~= old(self).payloads().push(value),
            final(self).adj() =~= old(self).adj().push(Seq::empty()),
            final(self).radj() =~= old(self).radj().push(Seq::empty()),
            old(self).wf() ==> final(self).wf(),
    {
        let id = VertexId { value: self.vertices.len() };
        self.vertices.push(Vertex { value, arcs_out: Vec::new(), arcs_in: Vec::new(), id });
        proof {
            assert(final(self).adj() =~= old(self).adj().push(Seq::empty()));
            assert(final(self).radj() =~= old(self).radj().push(Seq::empty()));
            assert(final(self).payloads() =~= old(self).payloads().push(value));
        }
        id
    }

    /// Connects two existing vertices with a directed, weighted arc: an
    /// outgoing arc is appended on `from` and a mirrored incoming record on
    /// `to`. Both endpoints are checked before either arc list is touched,
    /// so a failed call leaves the graph exactly as it was; the error names
    /// the first missing endpoint.
    pub fn connect(&mut self, from: VertexId, to: VertexId, weight: i64) -> (r: Result<
        (),
        GraphError,
    >)
        ensures
            match r {
                Ok(()) => {
                    &&& old(self).valid(from.value as int)
                    &&& old(self).valid(to.value as int)
                    &&& final(self).vertex_count() == old(self).vertex_count()
                    &&& final(self).payloads() =~= old(self).payloads()
                    &&& final(self).adj() =~= old(self).adj().update(
                        from.value as int,
                        old(self).adj()[from.value as int].push(Arc { other: to, weight }),
                    )
                    &&& final(self).radj() =~= old(self).radj().update(
                        to.value as int,
                        old(self).radj()[to.value as int].push(Arc { other: from, weight }),
                    )
                    &&& old(self).wf() ==> final(self).wf()
                },
                Err(GraphError::VertexNotFound(missing)) => {
                    &&& *final(self) == *old(self)
                    &&& !old(self).valid(missing.value as int)
                    &&& missing == if !old(self).valid(from.value as int) {
                        from
                    } else {
                        to
                    }
                },
            },
    {
        if from.value >= self.vertices.len() {
            Err(GraphError::VertexNotFound(from))
        } else if to.value >= self.vertices.len() {
            Err(GraphError::VertexNotFound(to))
        } else {
            let arc_out = Arc { other: to, weight };
            self.vertices[from.value].arcs_out.push(arc_out);
            let arc_in = Arc { other: from, weight };
            self.vertices[to.value].arcs_in.push(arc_in);
            proof {
                let ga = self.adj();
                let ra = self.radj();
                assert(ga =~= old(self).adj().update(
                    from.value as int,
                    old(self).adj()[from.value as int].push(arc_out),
                ));
                assert(ra =~= old(self).radj().update(
                    to.value as int,
                    old(self).radj()[to.value as int].push(arc_in),
                ));
                assert(self.payloads() =~= old(self).payloads());
                if old(self).wf() {
                    assert forall|u: int, k: int|
                        0 <= u < ga.len() && 0 <= k < ga[u].len() implies (#[trigger] ga[u][k]).other.value
                        < ga.len() by {
                        if !(u == from.value as int && k == ga[u].len() - 1) {
                            assert(ga[u][k] == old(self).adj()[u][k]);
                        }
                    }
                    assert forall|u: int, k: int|
                        0 <= u < ra.len() && 0 <= k < ra[u].len() implies (#[trigger] ra[u][k]).other.value
                        < ra.len() by {
                        if !(u == to.value as int && k == ra[u].len() - 1) {
                            assert(ra[u][k] == old(self).radj()[u][k]);
                        }
                    }
                    assert(self.wf());
                }
            }
            Ok(())
        }
    }

    /// The number of outgoing arcs of a vertex, or `None` if the id is out
    /// of range.
    pub fn out_degree(&self, vertex_id: VertexId) -> (r: Option<usize>)
        ensures
            match r {
                Some(d) => self.valid(vertex_id.value as int) && d == self.adj()[vertex_id.value as int].len(),
                None => !self.valid(vertex_id.value as int),
            },
    {
        match self.vertex(vertex_id) {
            Some(vx) => Some(vx.arcs_out.len()),
            None => None,
        }
    }

    /// The number of incoming arcs of a vertex, or `None` if the id is out
    /// of range.
    pub fn in_degree(&self, vertex_id: VertexId) -> (r: Option<usize>)
        ensures
            match r {
                Some(d) => self.valid(vertex_id.value as int) && d == self.radj()[vertex_id.value as int].len(),
                None => !self.valid(vertex_id.value as int),
            },
    {
        match self.vertex(vertex_id) {
            Some(vx) => Some(vx.arcs_in.len()),
            None => None,
        }
    }
}

} // verus!
