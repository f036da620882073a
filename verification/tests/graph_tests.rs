use graphlib::DirectedGraph;
use graphlib::VertexId;

fn names(graph: &DirectedGraph<String>, ids: Vec<VertexId>) -> Vec<String> {
    ids.iter().map(|id| graph.vertex_value(*id).unwrap().clone()).collect()
}

#[test]
fn bf_iter() {
    let mut graph = DirectedGraph::new();

    let zero = graph.add_vertex("zero".to_string());
    let one = graph.add_vertex("one".to_string());
    let two = graph.add_vertex("two".to_string());
    let three = graph.add_vertex("three".to_string());

    let _ = graph.connect(zero, one, 1);
    let _ = graph.connect(zero, two, 1);
    let _ = graph.connect(one, two, 1);
    let _ = graph.connect(two, zero, 1);
    let _ = graph.connect(two, three, 1);
    let _ = graph.connect(three, three, 1);

    let mut it = graph.breadth_first_iter(two);
    let mut visited = Vec::new();
    while let Some(id) = it.next() {
        visited.push(id);
    }

    assert_eq!(
        names(&graph, visited),
        vec![
            "two".to_string(),
            "zero".to_string(),
            "three".to_string(),
            "one".to_string()
        ]
    )
}

#[test]
fn df_iter() {
    let mut graph = DirectedGraph::new();

    let zero = graph.add_vertex("zero".to_string());
    let one = graph.add_vertex("one".to_string());
    let two = graph.add_vertex("two".to_string());
    let three = graph.add_vertex("three".to_string());

    let _ = graph.connect(zero, one, 0);
    let _ = graph.connect(zero, two, 0);
    let _ = graph.connect(one, two, 0);
    let _ = graph.connect(two, zero, 1);
    let _ = graph.connect(two, three, 0);
    let _ = graph.connect(three, three, 0);

    let mut it = graph.depth_first_iter(two);
    let mut visited = Vec::new();
    while let Some(id) = it.next() {
        visited.push(id);
    }

    assert_eq!(
        names(&graph, visited),
        vec![
            "two".to_string(),
            "zero".to_string(),
            "one".to_string(),
            "three".to_string()
        ]
    )
}

#[test]
fn is_empty() {
    let mut graph = DirectedGraph::new();

    assert!(graph.is_empty());

    let _ = graph.add_vertex("three".to_string());

    assert!(!graph.is_empty())
}

#[test]
fn is_cyclic() {
    let mut graph = DirectedGraph::new();

    let zero = graph.add_vertex("zero".to_string());
    let one = graph.add_vertex("one".to_string());
    let two = graph.add_vertex("two".to_string());
    let three = graph.add_vertex("three".to_string());

    graph.connect(zero, one, 0).unwrap();
    graph.connect(zero, two, 0).unwrap();
    graph.connect(one, two, 0).unwrap();
    graph.connect(two, three, 0).unwrap();

    assert!(!graph.is_cyclic());

    let _ = graph.connect(two, zero, 0);

    assert!(graph.is_cyclic())
}

#[test]
fn out_and_in_degrees() {
    let mut graph = DirectedGraph::new();

    let zero = graph.add_vertex("zero".to_string());
    let one = graph.add_vertex("one".to_string());
    let two = graph.add_vertex("two".to_string());
    let three = graph.add_vertex("three".to_string());

    graph.connect(zero, one, 0).unwrap();
    graph.connect(zero, two, 0).unwrap();
    graph.connect(one, two, 0).unwrap();
    graph.connect(two, zero, 1).unwrap();
    graph.connect(two, three, 0).unwrap();
    graph.connect(three, three, 0).unwrap();

    assert_eq!(graph.in_degree(two), Some(2));
    assert_eq!(graph.out_degree(two), Some(2));
    assert_eq!(graph.in_degree(one), Some(1));
    assert_eq!(graph.out_degree(one), Some(1));
    assert_eq!(graph.in_degree(three), Some(2));
    assert_eq!(graph.out_degree(three), Some(1));
}

#[test]
fn topological_order() {
    let mut graph = DirectedGraph::new();

    let zero = graph.add_vertex("zero".to_string());
    let one = graph.add_vertex("one".to_string());
    let two = graph.add_vertex("two".to_string());
    let three = graph.add_vertex("three".to_string());
    let four = graph.add_vertex("four".to_string());
    let five = graph.add_vertex("five".to_string());

    graph.connect(five, two, 0).unwrap();
    graph.connect(five, zero, 0).unwrap();
    graph.connect(four, zero, 0).unwrap();
    graph.connect(four, one, 0).unwrap();
    graph.connect(two, three, 0).unwrap();
    graph.connect(three, one, 0).unwrap();

    let mut it = graph.topologically_ordered_iter().expect("Turns out acyclic");
    let mut visited = Vec::new();
    while let Some(id) = it.next() {
        visited.push(id);
    }

    assert_eq!(
        names(&graph, visited),
        vec![
            "five".to_string(),
            "four".to_string(),
            "two".to_string(),
            "three".to_string(),
            "one".to_string(),
            "zero".to_string()
        ]
    )
}

#[test]
fn longest_path() {
    let mut graph = DirectedGraph::new();

    let zero = graph.add_vertex("zero".to_string());
    let one = graph.add_vertex("one".to_string());
    let two = graph.add_vertex("two".to_string());
    let three = graph.add_vertex("three".to_string());
    let four = graph.add_vertex("four".to_string());
    let five = graph.add_vertex("five".to_string());

    graph.connect(zero, one, 5).unwrap();
    graph.connect(zero, two, 3).unwrap();
    graph.connect(one, three, 6).unwrap();
    graph.connect(one, two, 2).unwrap();
    graph.connect(two, four, 4).unwrap();
    graph.connect(two, five, 2).unwrap();
    graph.connect(two, three, 7).unwrap();
    graph.connect(three, five, 1).unwrap();
    graph.connect(three, four, -1).unwrap();
    graph.connect(four, five, -2).unwrap();

    assert_eq!(graph.longest_distance_from(one).unwrap()[zero.value], None);
    assert_eq!(graph.longest_distance_from(one).unwrap()[one.value], Some(0));
    assert_eq!(graph.longest_distance_from(one).unwrap()[two.value], Some(2));
    assert_eq!(graph.longest_distance_from(one).unwrap()[three.value], Some(9));
    assert_eq!(graph.longest_distance_from(one).unwrap()[four.value], Some(8));
    assert_eq!(graph.longest_distance_from(one).unwrap()[five.value], Some(10));
}
