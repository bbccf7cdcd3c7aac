use linked_collections::graph::Graph;
use linked_collections::graph::GraphNode;
use linked_collections::vector_based::VectorBasedDataStructure;

#[test]
fn graph_new() {
    let graph: Graph<i32> = Graph::new();
    assert_eq!(graph.len(), 0);
    assert_eq!(graph.capacity(), 0);
}

#[test]
fn with_capacity() {
    let graph: Graph<i32> = Graph::with_capacity(10);
    assert_eq!(graph.len(), 0);
    assert_eq!(graph.capacity(), 10);
}

#[test]
fn get_and_set_value() {
    let mut graph_node = GraphNode::new(5);
    assert_eq!(graph_node.get_value(), &5);
    graph_node.set_value(10);
    assert_eq!(graph_node.get_value(), &10);
}

#[test]
fn new_with_lines_and_get_lines() {
    let mut graph: Graph<i32> = Graph::new();
    let first = graph.add_node(1);
    let second = graph.add_node(2);
    let third = graph.add_node(3);
    let lines = vec![first, second, third];
    let graph_node = GraphNode::new_with_lines(0, lines);
    assert_eq!(graph_node.get_lines(), &vec![first, second, third]);
}

#[test]
fn add_line() {
    let mut graph_node = GraphNode::new(0);
    assert!(graph_node.get_lines().is_empty());
    let mut graph: Graph<i32> = Graph::new();
    let _origin = graph.add_node(0);
    let another = graph.add_node(1);
    graph_node.add_line(another);
    assert_eq!(graph_node.get_lines(), &vec![another]);
}

#[test]
fn remove_line() {
    let mut graph: Graph<i32> = Graph::new();
    let zero = graph.add_node(0);
    let first = graph.add_node(1);
    let second = graph.add_node(2);
    let third = graph.add_node(3);
    graph.add_line(zero, first).unwrap();
    graph.add_line(zero, second).unwrap();
    graph.add_line(zero, third).unwrap();
    assert_eq!(
        graph.get_node(zero).unwrap().get_lines(),
        &vec![first, second, third]
    );
    graph.remove_line(zero, second).unwrap();
    assert_eq!(graph.get_node(zero).unwrap().get_lines(), &vec![first, third]);
    graph.remove_line(zero, third).unwrap();
    assert_eq!(graph.get_node(zero).unwrap().get_lines(), &vec![first]);
    graph.remove_line(zero, first).unwrap();
    assert!(graph.get_node(zero).unwrap().get_lines().is_empty());
}
