//! The undirected view: every logical edge is a mirrored pair of arcs.
//!
//! An [`UndirectedGraph`] owns one [`DirectedGraph`] and never hands it
//! out. Connecting two vertices inserts both directed arcs with the same
//! weight; because both endpoints are checked before either arc list is
//! touched, the pair is inserted atomically — a failed connect leaves the
//! graph exactly as it was, never with a one-directional arc masquerading
//! as an undirected edge.

use vstd::prelude::*;

use crate::graph::Arc;
use crate::graph::DirectedGraph;
use crate::graph::GraphError;
use crate::graph::VertexId;

verus! {

/// An undirected graph over payloads of type `A`.
pub struct UndirectedGraph<A> {
    directed: DirectedGraph<A>,
}

impl<A> UndirectedGraph<A> {
    /// The underlying mirrored directed graph, as a specification-level
    /// view: the wrapper never exposes it to callers.
    pub closed spec fn dg(self) -> DirectedGraph<A> {
        self.directed
    }

    /// The number of vertices.
    pub open spec fn vertex_count(self) -> nat {
        self.dg().vertex_count()
    }

    /// Whether `v` is the index of a stored vertex.
    pub open spec fn valid(self, v: int) -> bool {
        self.dg().valid(v)
    }

    /// Structural soundness of the mirrored directed graph.
    pub open spec fn wf(self) -> bool {
        self.dg().wf()
    }

    /// Constructs a new empty undirected graph.
    pub fn new() -> (graph: UndirectedGraph<A>)
        ensures
            graph.vertex_count() == 0,
            graph.wf(),
    {
        UndirectedGraph { directed: DirectedGraph::new() }
    }

    /// True iff the graph holds no vertices.
    pub fn is_empty(&self) -> (r: bool)
        ensures
            r <==> self.vertex_count() == 0,
    {
        self.directed.is_empty()
    }

    /// Retrieves a vertex payload, or `None` if the id is out of range.
    pub fn vertex_value(&self, id: VertexId) -> (r: Option<&A>)
        ensures
            match r {
                Some(value) => self.valid(id.value as int) && *value == self.dg().payloads()[id.value as int],
                None => !self.valid(id.value as int),
            },
    {
        self.directed.vertex_value(id)
    }

    /// Retrieves a vertex payload for mutation, or `None` if the id is out
    /// of range. The arc structure stays as it was.
    pub fn vertex_value_mut(&mut self, id: VertexId) -> (r: Option<&mut A>)
        ensures
            r is Some <==> old(self).valid(id.value as int),
            r is None ==> *final(self) == *old(self),
            (match r {
                Some(value) => {
                    &&& *value == old(self).dg().payloads()[id.value as int]
                    &&& final(self).dg().payloads() =~= old(self).dg().payloads().update(
                        id.value as int,
                        *final(value),
                    )
                    &&& final(self).dg().adj() =~= old(self).dg().adj()
                    &&& final(self).dg().radj() =~= old(self).dg().radj()
                    &&& old(self).wf() ==> final(self).wf()
                },
                None => true,
            }),
    {
        self.directed.vertex_value_mut(id)
    }

    /// Appends a vertex with the given payload and no edges, and returns
    /// its new, never-before-used id.
    pub fn add_vertex(&mut self, value: A) -> (id: VertexId)
        ensures
            id.value == old(self).vertex_count(),
            final(self).vertex_count() == old(self).vertex_count() + 1,
            final(self).dg().payloads() =~= old(self).dg().payloads().push(value),
            final(self).dg().adj() =~= old(self).dg().adj().push(Seq::empty()),
            final(self).dg().radj() =~= old(self).dg().radj().push(Seq::empty()),
            old(self).wf() ==> final(self).wf(),
    {
        self.directed.add_vertex(value)
    }

    /// Connects two existing vertices with an undirected, weighted edge by
    /// inserting both directed arcs. Success means both underlying
    /// insertions happened; on failure the error names the first missing
    /// endpoint and the graph is left exactly as it was — no half-inserted
    /// edge can remain.
    pub fn connect_undirected(&mut self, one: VertexId, other: VertexId, weight: i64) -> (r:
        Result<(), GraphError>)
        ensures
            match r {
                Ok(()) => ({
                    let adj0 = old(self).dg().adj();
                    let radj0 = old(self).dg().radj();
                    let adj1 = adj0.update(
                        one.value as int,
                        adj0[one.value as int].push(Arc { other, weight }),
                    );
                    let radj1 = radj0.update(
                        other.value as int,
                        radj0[other.value as int].push(Arc { other: one, weight }),
                    );
                    &&& old(self).valid(one.value as int)
                    &&& old(self).valid(other.value as int)
                    &&& final(self).vertex_count() == old(self).vertex_count()
                    &&& final(self).dg().payloads() =~= old(self).dg().payloads()
                    &&& final(self).dg().adj() =~= adj1.update(
                        other.value as int,
                        adj1[other.value as int].push(Arc { other: one, weight }),
                    )
                    &&& final(self).dg().radj() =~= radj1.update(
                        one.value as int,
                        radj1[one.value as int].push(Arc { other, weight }),
                    )
                    &&& old(self).wf() ==> final(self).wf()
                }),
                Err(GraphError::VertexNotFound(missing)) => {
                    &&& *final(self) == *old(self)
                    &&& !old(self).valid(missing.value as int)
                    &&& missing == if !old(self).valid(one.value as int) {
                        one
                    } else {
                        other
                    }
                },
            },
    {
        match self.directed.connect(one, other, weight) {
            Ok(()) => {
                let second = self.directed.connect(other, one, weight);
                match second {
                    Ok(()) => Ok(()),
                    Err(e) => {
                        proof {
                            assert(false);
                        }
                        Err(e)
                    },
                }
            },
            Err(e) => Err(e),
        }
    }
}

} // verus!
