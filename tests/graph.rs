use algorithms::graph::{Graph, NodeNotInGraph, UndirectedGraph};

fn edge(a: &str, b: &str, w: i32) -> (String, String, i32) {
    (String::from(a), String::from(b), w)
}

#[test]
fn test_add_edge() {
    let mut graph = UndirectedGraph::new();
    graph.add_edge(("a", "b", 5));
    graph.add_edge(("b", "c", 10));
    graph.add_edge(("c", "a", 7));
    let expected_edges = [
        edge("a", "b", 5),
        edge("b", "a", 5),
        edge("c", "a", 7),
        edge("a", "c", 7),
        edge("b", "c", 10),
        edge("c", "b", 10),
    ];
    for edge in expected_edges.iter() {
        assert_eq!(graph.edges().contains(edge), true);
    }
}

#[test]
fn edges_are_listed_row_by_row() {
    let mut graph = UndirectedGraph::new();
    graph.add_edge(("a", "b", 5));
    graph.add_edge(("b", "c", 10));
    assert_eq!(
        graph.edges(),
        vec![edge("a", "b", 5), edge("b", "a", 5), edge("b", "c", 10), edge("c", "b", 10)]
    );
}

#[test]
fn add_node_reports_whether_it_was_new() {
    let mut graph = UndirectedGraph::new();
    assert!(!graph.contains("x"));
    assert!(graph.add_node("x"));
    assert!(graph.contains("x"));
    assert!(!graph.add_node("x"));
    assert_eq!(graph.nodes(), vec![String::from("x")]);
    assert!(graph.edges().is_empty());
}

#[test]
fn nodes_keep_insertion_order() {
    let mut graph = UndirectedGraph::new();
    graph.add_edge(("q", "p", 1));
    graph.add_node("r");
    graph.add_node("p");
    assert_eq!(graph.nodes(), vec![String::from("q"), String::from("p"), String::from("r")]);
    assert!(!graph.contains("s"));
}

#[test]
fn self_loop_is_listed_twice() {
    let mut graph = UndirectedGraph::new();
    graph.add_edge(("a", "a", 3));
    assert_eq!(graph.nodes(), vec![String::from("a")]);
    assert_eq!(graph.edges(), vec![edge("a", "a", 3), edge("a", "a", 3)]);
}

#[test]
fn missing_node_error_message() {
    assert_eq!(NodeNotInGraph.message(), "accessing a node that is not in the graph");
}

#[test]
fn adjacency_table_lists_rows() {
    let mut graph = UndirectedGraph::new();
    graph.add_edge(("a", "b", 2));
    let table = graph.adjacency_table();
    assert_eq!(table.len(), 2);
    assert_eq!(table[0], (String::from("a"), vec![(String::from("b"), 2)]));
    assert_eq!(table[1], (String::from("b"), vec![(String::from("a"), 2)]));
}
