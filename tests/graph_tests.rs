use graph::{Graph, GraphError};

fn sample() -> (Graph<String, String, String>, usize, usize) {
    let mut graph = Graph::new();
    let v1 = graph.add_vertex("1".to_string(), Some("vertex 1".to_string()));
    let v2 = graph.add_vertex("2".to_string(), Some("vertex 2".to_string()));
    graph.add_edge(Some("edge between v1 and v2".to_string()), v1, v2);
    (graph, v1, v2)
}

#[test]
fn add_vertex() {
    let mut graph: Graph<&str, u32, &str> = Graph::new();
    graph.add_vertex(1, Some("vertex 1"));
    graph.add_vertex(2, Some("vertex 2"));

    assert!(graph.vertex_handles().len() == 2);
}

#[test]
fn add_edge() {
    let mut graph = Graph::new();
    let v1 = graph.add_vertex(1, Some("vertex 1"));
    let v2 = graph.add_vertex(2, Some("vertex 2"));
    graph.add_edge(Some("edge between v1 and v2"), v1, v2);
    assert!(graph.edges(v1).len() == 1);
    assert!(graph.edges(v2).len() == 1);
}

#[test]
fn write_graph_to_file() {
    let (graph, _, _) = sample();
    let text = graph.to_text();
    assert_eq!(text, "1 vertex 1\n2 vertex 2\n#\n1 2 edge between v1 and v2\n");
}

#[test]
fn delete_edge() {
    let mut graph = Graph::new();
    let v1 = graph.add_vertex(1, Some("vertex 1"));
    let v2 = graph.add_vertex(2, Some("vertex 2"));
    graph.add_edge(Some("edge between v1 and v2"), v1, v2);
    let _ = graph.delete_edge(v1, v2);
}

#[test]
fn add_vertex_returns_handles_in_order() {
    let mut graph: Graph<&str, u32, &str> = Graph::new();
    let a = graph.add_vertex(7, None);
    let b = graph.add_vertex(7, Some("again"));
    assert_eq!((a, b), (0, 1));
    assert_eq!(*graph.id(b), 7);
    assert_eq!(*graph.value(b), Some("again"));
    assert_eq!(*graph.value(a), None);
    assert_eq!(graph.num_vertices(), 2);
}

#[test]
fn delete_vertex_leaves_edges() {
    let mut graph: Graph<&str, u32, &str> = Graph::new();
    let a = graph.add_vertex(1, None);
    let b = graph.add_vertex(2, None);
    graph.add_edge(None, a, b);
    assert!(graph.delete_vertex(a));
    assert_eq!(graph.vertex_handles().clone(), vec![b]);
    assert!(!graph.delete_vertex(a));
    assert_eq!(graph.edges(b).len(), 1);
    assert_eq!(graph.edges(b)[0].neighbor, a);
}

#[test]
fn delete_then_delete_again_fails() {
    let mut graph: Graph<&str, u32, &str> = Graph::new();
    let a = graph.add_vertex(1, None);
    let b = graph.add_vertex(2, None);
    let c = graph.add_vertex(3, None);
    graph.add_edge(Some("x"), a, c);
    graph.add_edge(Some("y"), a, b);
    assert_eq!(graph.delete_edge(a, b), Ok(()));
    assert_eq!(graph.edges(a).len(), 1);
    assert_eq!(graph.edges(b).len(), 0);
    assert_eq!(graph.delete_edge(a, b), Err(GraphError::NotFound));
    assert_eq!(graph.edges(a).len(), 1);
    assert_eq!(graph.edges(a)[0].neighbor, c);
}

#[test]
fn self_loop_adds_two_halves() {
    let mut graph: Graph<&str, u32, &str> = Graph::new();
    let a = graph.add_vertex(3, None);
    graph.add_edge(Some("loop"), a, a);
    assert_eq!(graph.edges(a).len(), 2);
    assert_eq!(graph.delete_edge(a, a), Ok(()));
    assert_eq!(graph.edges(a).len(), 0);
    assert_eq!(graph.delete_edge(a, a), Err(GraphError::NotFound));
}

#[test]
fn check_edge_finds_first_position() {
    let mut graph: Graph<&str, u32, &str> = Graph::new();
    let a = graph.add_vertex(1, None);
    let b = graph.add_vertex(2, None);
    let c = graph.add_vertex(3, None);
    graph.add_edge(None, a, c);
    graph.add_edge(None, a, b);
    graph.add_edge(None, a, b);
    assert_eq!(graph.check_edge(a, b), Ok(1));
    assert_eq!(graph.check_edge(b, c), Err(GraphError::NotFound));
    assert_eq!(*graph.label(0), None);
    assert_eq!(graph.num_labels(), 3);
}

#[test]
fn bfs_visits_each_reachable_vertex_once() {
    let mut graph: Graph<String, u32, String> = Graph::new();
    let v: Vec<usize> = (1..=5).map(|i| graph.add_vertex(i, None)).collect();
    let isolated = graph.add_vertex(6, None);
    graph.add_edge(Some("edge 1".to_string()), v[0], v[1]);
    graph.add_edge(Some("edge 2".to_string()), v[0], v[2]);
    graph.add_edge(Some("edge 3".to_string()), v[1], v[4]);
    graph.add_edge(Some("edge 4".to_string()), v[2], v[2]);
    graph.add_edge(Some("edge 5".to_string()), v[2], v[3]);
    graph.add_edge(Some("edge 6".to_string()), v[3], v[4]);
    graph.add_edge(Some("edge 7".to_string()), v[0], v[3]);
    let order = graph.bfs(Some(v[0])).unwrap();
    let ids: Vec<u32> = order.iter().map(|h| *graph.id(*h)).collect();
    assert_eq!(ids, vec![1, 2, 3, 4, 5]);
    assert!(!order.contains(&isolated));
}

#[test]
fn bfs_starts_at_first_vertex_or_fails_on_empty_graph() {
    let mut graph: Graph<&str, u32, &str> = Graph::new();
    assert_eq!(graph.bfs(None), Err(GraphError::EmptyGraph));
    let a = graph.add_vertex(1, None);
    let b = graph.add_vertex(2, None);
    assert_eq!(graph.bfs(None), Ok(vec![a]));
    assert_eq!(graph.bfs(Some(b)), Ok(vec![b]));
}

#[test]
fn text_round_trip_keeps_vertices_and_edges() {
    let mut graph = Graph::new();
    let a = graph.add_vertex("a".to_string(), Some("first".to_string()));
    let b = graph.add_vertex("b".to_string(), None);
    let c = graph.add_vertex("c".to_string(), Some("third one".to_string()));
    graph.add_edge(Some("ab".to_string()), a, b);
    graph.add_edge(None, b, c);
    graph.add_edge(Some("loop".to_string()), c, c);
    let text = graph.to_text();
    assert_eq!(text, "a first\nb \nc third one\n#\na b ab\nb c \nc c loop\n");
    let back = Graph::from_text(&text).unwrap();
    assert_eq!(back.num_vertices(), 3);
    assert_eq!(back.id(2), "c");
    assert_eq!(*back.value(1), None);
    assert_eq!(*back.value(2), Some("third one".to_string()));
    assert_eq!(back.to_text(), text);
}

#[test]
fn value_with_spaces_survives_round_trip() {
    let (graph, _, _) = sample();
    let back = Graph::from_text(&graph.to_text()).unwrap();
    assert_eq!(*back.label(0), Some("edge between v1 and v2".to_string()));
    assert_eq!(*back.value(0), Some("vertex 1".to_string()));
}

#[test]
fn from_text_normalises_spaces_and_skips_blank_lines() {
    let g = Graph::from_text("\n x   one\ttwo \n\n#  ignored\n\n x x   a  b \n").unwrap();
    assert_eq!(g.num_vertices(), 1);
    assert_eq!(g.id(0), "x");
    assert_eq!(*g.value(0), Some("one two".to_string()));
    assert_eq!(*g.label(0), Some("a b".to_string()));
    assert_eq!(g.edges(0).len(), 2);
}

#[test]
fn from_text_uses_last_vertex_with_an_identifier() {
    let g = Graph::from_text("k 1\nk 2\n#\nk k\n").unwrap();
    assert_eq!(g.edges(0).len(), 0);
    assert_eq!(g.edges(1).len(), 2);
}

#[test]
fn from_text_errors() {
    assert_eq!(
        Graph::from_text("a\nb\n").err(),
        Some(GraphError::MissingSeparator)
    );
    assert_eq!(
        Graph::from_text("a\nb\n#\na\n").err(),
        Some(GraphError::MalformedEdge)
    );
    assert_eq!(
        Graph::from_text("a\nb\n#\na c\n").err(),
        Some(GraphError::UnknownVertex)
    );
    assert_eq!(
        Graph::from_text("a\n#\na c\nb\n").err(),
        Some(GraphError::UnknownVertex)
    );
}

#[test]
fn check_edge_matches_equal_vertices() {
    let mut graph: Graph<&str, u32, &str> = Graph::new();
    let a = graph.add_vertex(1, None);
    let b = graph.add_vertex(2, Some("same"));
    let twin = graph.add_vertex(2, Some("same"));
    let other = graph.add_vertex(2, Some("different"));
    graph.add_edge(None, a, other);
    graph.add_edge(Some("to twin"), a, twin);
    assert_eq!(graph.check_edge(a, b), Ok(1));
    assert_eq!(graph.check_edge(a, other), Ok(0));
    assert_eq!(graph.check_edge(b, a), Err(GraphError::NotFound));
}

#[test]
fn delete_edge_removes_halves_found_by_equality() {
    let mut graph: Graph<&str, u32, &str> = Graph::new();
    let a = graph.add_vertex(1, None);
    let b = graph.add_vertex(2, Some("same"));
    let twin = graph.add_vertex(2, Some("same"));
    graph.add_edge(Some("to twin"), a, twin);
    assert_eq!(graph.delete_edge(a, b), Err(GraphError::NotFound));
    graph.add_edge(Some("to b"), b, a);
    assert_eq!(graph.delete_edge(a, b), Ok(()));
    assert_eq!(graph.edges(a).len(), 1);
    assert_eq!(graph.edges(a)[0].neighbor, b);
    assert_eq!(graph.edges(b).len(), 0);
    assert_eq!(graph.edges(twin).len(), 1);
}

#[test]
fn bfs_appends_neighbours_in_edge_list_order() {
    let mut graph: Graph<&str, u32, &str> = Graph::new();
    let v: Vec<usize> = (1..=4).map(|i| graph.add_vertex(i, None)).collect();
    graph.add_edge(None, v[0], v[3]);
    graph.add_edge(None, v[0], v[1]);
    graph.add_edge(None, v[3], v[2]);
    graph.add_edge(None, v[1], v[2]);
    let order = graph.bfs(None).unwrap();
    assert_eq!(order, vec![v[0], v[3], v[1], v[2]]);
    assert_eq!(graph.bfs(Some(v[0])).unwrap(), order);
}
