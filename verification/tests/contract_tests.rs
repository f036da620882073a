use graphlib::DirectedGraph;
use graphlib::GraphError;
use graphlib::UndirectedGraph;
use graphlib::VertexId;

#[test]
fn connect_reports_missing_from() {
    let mut graph: DirectedGraph<u32> = DirectedGraph::new();
    let a = graph.add_vertex(10);
    let bad = VertexId { value: 7 };

    assert_eq!(graph.connect(bad, a, 1), Err(GraphError::VertexNotFound(bad)));
    assert_eq!(graph.out_degree(a), Some(0));
    assert_eq!(graph.in_degree(a), Some(0));
}

#[test]
fn connect_reports_missing_to() {
    let mut graph: DirectedGraph<u32> = DirectedGraph::new();
    let a = graph.add_vertex(10);
    let bad = VertexId { value: 3 };

    assert_eq!(graph.connect(a, bad, 1), Err(GraphError::VertexNotFound(bad)));
    assert_eq!(graph.out_degree(a), Some(0));
    assert_eq!(graph.in_degree(a), Some(0));
}

#[test]
fn degrees_count_every_inserted_arc() {
    let mut graph: DirectedGraph<u32> = DirectedGraph::new();
    let a = graph.add_vertex(1);
    let b = graph.add_vertex(2);

    graph.connect(a, b, 5).unwrap();
    graph.connect(a, b, 5).unwrap();
    graph.connect(a, a, 0).unwrap();

    assert_eq!(graph.out_degree(a), Some(3));
    assert_eq!(graph.in_degree(a), Some(1));
    assert_eq!(graph.out_degree(b), Some(0));
    assert_eq!(graph.in_degree(b), Some(2));
    assert_eq!(graph.out_degree(VertexId { value: 9 }), None);
    assert_eq!(graph.in_degree(VertexId { value: 9 }), None);
}

#[test]
fn vertex_lookup_out_of_range_is_absent() {
    let mut graph: DirectedGraph<u32> = DirectedGraph::new();
    let a = graph.add_vertex(42);

    assert_eq!(graph.vertex_value(a), Some(&42));
    assert!(graph.vertex(VertexId { value: 1 }).is_none());
    assert!(graph.vertex_value(VertexId { value: 1 }).is_none());
    let vx = graph.vertex(a).unwrap();
    assert_eq!(vx.id, a);
    assert_eq!(vx.value, 42);
}

#[test]
fn payload_mutation_through_the_graph() {
    let mut graph: DirectedGraph<String> = DirectedGraph::new();
    let a = graph.add_vertex("before".to_string());

    *graph.vertex_value_mut(a).unwrap() = "after".to_string();
    assert_eq!(graph.vertex_value(a), Some(&"after".to_string()));
    assert!(graph.vertex_value_mut(VertexId { value: 5 }).is_none());

    graph.vertex_mut(a).unwrap().value = "again".to_string();
    assert_eq!(graph.vertex_value(a), Some(&"again".to_string()));
}

#[test]
fn traversal_skips_unreachable_vertices() {
    let mut graph: DirectedGraph<u32> = DirectedGraph::new();
    let a = graph.add_vertex(0);
    let b = graph.add_vertex(1);
    let lonely = graph.add_vertex(2);

    graph.connect(a, b, 1).unwrap();

    let mut it = graph.breadth_first_iter(a);
    let mut seen = Vec::new();
    while let Some(id) = it.next() {
        seen.push(id);
    }
    assert_eq!(seen, vec![a, b]);
    assert!(!seen.contains(&lonely));

    let mut it = graph.depth_first_iter(a);
    let mut seen = Vec::new();
    while let Some(id) = it.next() {
        seen.push(id);
    }
    assert_eq!(seen, vec![a, b]);
}

#[test]
fn self_loop_is_a_cycle() {
    let mut graph: DirectedGraph<u32> = DirectedGraph::new();
    let a = graph.add_vertex(0);
    assert!(!graph.is_cyclic());

    graph.connect(a, a, 0).unwrap();
    assert!(graph.is_cyclic());
    assert!(graph.topologically_ordered_iter().is_none());
    assert!(graph.longest_distance_from(a).is_none());
}

#[test]
fn long_cycle_is_detected_in_any_component() {
    let mut graph: DirectedGraph<u32> = DirectedGraph::new();
    let root = graph.add_vertex(0);
    let a = graph.add_vertex(1);
    let b = graph.add_vertex(2);
    let c = graph.add_vertex(3);

    // a three-step loop in a component that the first vertex cannot reach
    graph.connect(a, b, 0).unwrap();
    graph.connect(b, c, 0).unwrap();
    graph.connect(c, a, 0).unwrap();
    let _ = root;

    assert!(graph.is_cyclic());
    assert!(graph.topologically_ordered_iter().is_none());
}

#[test]
fn empty_graph_analyses() {
    let graph: DirectedGraph<u32> = DirectedGraph::new();
    assert!(!graph.is_cyclic());
    let mut it = graph.topologically_ordered_iter().unwrap();
    assert!(it.next().is_none());
}

#[test]
fn longest_distances_saturate_instead_of_overflowing() {
    let mut graph: DirectedGraph<u32> = DirectedGraph::new();
    let a = graph.add_vertex(0);
    let b = graph.add_vertex(1);
    let c = graph.add_vertex(2);

    graph.connect(a, b, i64::MAX).unwrap();
    graph.connect(b, c, i64::MAX).unwrap();

    let d = graph.longest_distance_from(a).unwrap();
    assert_eq!(d[a.value], Some(0));
    assert_eq!(d[b.value], Some(i64::MAX));
    assert_eq!(d[c.value], Some(i64::MAX));
}

#[test]
fn longest_distances_mark_reachable_exactly() {
    let mut graph: DirectedGraph<u32> = DirectedGraph::new();
    let a = graph.add_vertex(0);
    let b = graph.add_vertex(1);
    let lonely = graph.add_vertex(2);
    let upstream = graph.add_vertex(3);

    graph.connect(a, b, -4).unwrap();
    graph.connect(upstream, a, 100).unwrap();

    let d = graph.longest_distance_from(a).unwrap();
    assert_eq!(d[a.value], Some(0));
    assert_eq!(d[b.value], Some(-4));
    assert_eq!(d[lonely.value], None);
    assert_eq!(d[upstream.value], None);
}

#[test]
fn undirected_graph_basics() {
    let mut graph: UndirectedGraph<u32> = UndirectedGraph::new();
    assert!(graph.is_empty());
    let a = graph.add_vertex(0);
    let b = graph.add_vertex(1);
    assert!(!graph.is_empty());

    graph.connect_undirected(a, b, 7).unwrap();

    assert_eq!(graph.vertex_value(a), Some(&0));
    *graph.vertex_value_mut(b).unwrap() = 9;
    assert_eq!(graph.vertex_value(b), Some(&9));
}

#[test]
fn undirected_connect_fails_atomically() {
    let mut graph: UndirectedGraph<u32> = UndirectedGraph::new();
    let a = graph.add_vertex(0);
    let bad = VertexId { value: 4 };

    assert_eq!(
        graph.connect_undirected(a, bad, 7),
        Err(GraphError::VertexNotFound(bad))
    );
    assert_eq!(
        graph.connect_undirected(bad, a, 7),
        Err(GraphError::VertexNotFound(bad))
    );
}
