use dependency_graph::{AddNodeError, DependencyGraph, Node};

#[test]
fn test_dep_graph() {
    let mut graph = DependencyGraph::new();
    let node1 = graph.get_or_add_node(1);
    let node2 = graph.get_or_add_node(2);
    let node3 = graph.get_or_add_node(3);
    let node4 = graph.get_or_add_node(4);

    assert!(graph.add_edge(node1, node2).is_ok());
    assert!(graph.add_edge(node1, node3).is_ok());
    assert!(graph.add_edge(node2, node4).is_ok());
    assert!(graph.add_edge(node3, node4).is_ok());

    let node1 = graph.get_node(node1);
    assert_eq!(node1.get_childs().len(), 2);
    assert_eq!(node1.get_parents().len(), 0);

    let node2 = graph.get_node(node2);
    assert_eq!(node2.get_childs().len(), 1);
    assert_eq!(node2.get_parents().len(), 1);

    let node3 = graph.get_node(node3);
    assert_eq!(node3.get_childs().len(), 1);
    assert_eq!(node3.get_parents().len(), 1);

    let node4 = graph.get_node(node4);
    assert_eq!(node4.get_childs().len(), 0);
    assert_eq!(node4.get_parents().len(), 2);
}

#[test]
fn test_cyclic_graph_error() {
    let mut graph = DependencyGraph::new();
    let node1 = graph.get_or_add_node(1);
    let node2 = graph.get_or_add_node(2);
    let node3 = graph.get_or_add_node(3);

    let _ = graph.add_edge(node1, node2);
    let _ = graph.add_edge(node2, node3);

    assert!(graph.add_edge(node3, node1).is_err());
}

#[test]
fn test_find_same_node() {
    let mut graph = DependencyGraph::new();
    let node1 = graph.get_or_add_node(1);
    let node1bis = graph.get_or_add_node(1);

    assert_eq!(node1, node1bis);
}

#[test]
fn test_no_duplication() {
    let mut graph = DependencyGraph::new();
    for value in [5, 3, 5, 7, 3, 5] {
        graph.get_or_add_node(value);
    }
    assert_eq!(graph.node_count(), 3);

    // repeated insertions keep handing out the handles of the first run
    let h5 = graph.get_or_add_node(5);
    let h3 = graph.get_or_add_node(3);
    let h7 = graph.get_or_add_node(7);
    assert_eq!(graph.node_count(), 3);
    assert_eq!(*graph.get_node(h5).get_value(), 5);
    assert_eq!(*graph.get_node(h3).get_value(), 3);
    assert_eq!(*graph.get_node(h7).get_value(), 7);
}

#[test]
fn test_self_edge_rejected() {
    let mut graph = DependencyGraph::new();
    let handle = graph.get_or_add_node("only");
    let other = graph.get_or_add_node("other");
    assert!(graph.add_edge(handle, other).is_ok());

    let result = graph.add_edge(handle, handle);
    assert_eq!(result, Err(AddNodeError::SameNode(handle)));

    // the failed call left the adjacency lists exactly as they were
    assert_eq!(graph.get_node(handle).get_childs().len(), 1);
    assert_eq!(graph.get_node(handle).get_parents().len(), 0);
}

#[test]
fn test_cycle_rejection_keeps_graph() {
    let mut graph = DependencyGraph::new();
    let a = graph.get_or_add_node("a");
    let b = graph.get_or_add_node("b");
    let c = graph.get_or_add_node("c");

    assert!(graph.add_edge(a, b).is_ok());
    assert!(graph.add_edge(b, c).is_ok());

    let result = graph.add_edge(c, a);
    assert_eq!(result, Err(AddNodeError::CyclicRelation(a)));

    // c gained no child and a gained no parent
    assert!(!graph.get_node(c).get_childs().contains(&a));
    assert!(graph.get_node(c).get_childs().is_empty());
    assert!(!graph.get_node(a).get_parents().contains(&c));
    assert!(graph.get_node(a).get_parents().is_empty());
}

#[test]
fn test_edge_accounting() {
    let mut graph = DependencyGraph::new();
    let n1 = graph.get_or_add_node(1);
    let n2 = graph.get_or_add_node(2);
    let n3 = graph.get_or_add_node(3);
    let n4 = graph.get_or_add_node(4);

    assert!(graph.add_edge(n1, n2).is_ok());
    assert!(graph.add_edge(n1, n3).is_ok());
    assert!(graph.add_edge(n2, n4).is_ok());
    assert!(graph.add_edge(n3, n4).is_ok());

    assert_eq!(graph.get_node(n1).get_childs(), &vec![n2, n3]);
    assert_eq!(graph.get_node(n2).get_childs(), &vec![n4]);
    assert_eq!(graph.get_node(n3).get_childs(), &vec![n4]);
    assert_eq!(graph.get_node(n4).get_parents(), &vec![n2, n3]);
    assert_eq!(graph.get_node(n2).get_parents(), &vec![n1]);
    assert_eq!(graph.get_node(n3).get_parents(), &vec![n1]);
}

#[test]
fn test_diamond_then_cycle() {
    let mut graph = DependencyGraph::new();
    let n1 = graph.get_or_add_node(1);
    let n2 = graph.get_or_add_node(2);
    let n3 = graph.get_or_add_node(3);
    let n4 = graph.get_or_add_node(4);

    assert!(graph.add_edge(n1, n2).is_ok());
    assert!(graph.add_edge(n1, n3).is_ok());
    assert!(graph.add_edge(n2, n4).is_ok());
    assert!(graph.add_edge(n3, n4).is_ok());

    // 1 reaches 4 through both arms of the diamond, so 4 -> 1 must close a cycle
    assert_eq!(graph.add_edge(n4, n1), Err(AddNodeError::CyclicRelation(n1)));
}

#[test]
fn test_deep_ancestry_cycle() {
    let mut graph = DependencyGraph::new();
    let handles: Vec<usize> = (0..6).map(|v| graph.get_or_add_node(v)).collect();
    for pair in handles.windows(2) {
        assert!(graph.add_edge(pair[0], pair[1]).is_ok());
    }
    // the cycle check walks the whole ancestry, not only the immediate parents
    let first = handles[0];
    let last = handles[5];
    assert_eq!(graph.add_edge(last, first), Err(AddNodeError::CyclicRelation(first)));
}

#[test]
fn test_mutual_edges_never_both() {
    let mut graph = DependencyGraph::new();
    let a = graph.get_or_add_node("left");
    let b = graph.get_or_add_node("right");

    assert!(graph.add_edge(a, b).is_ok());
    assert_eq!(graph.add_edge(b, a), Err(AddNodeError::CyclicRelation(a)));

    // exactly one of the two edges is present afterward
    assert!(graph.get_node(a).get_childs().contains(&b));
    assert!(!graph.get_node(b).get_childs().contains(&a));
}

#[test]
fn test_duplicate_edge_appends_again() {
    let mut graph = DependencyGraph::new();
    let parent = graph.get_or_add_node(10);
    let child = graph.get_or_add_node(20);

    assert!(graph.add_edge(parent, child).is_ok());
    assert!(graph.add_edge(parent, child).is_ok());

    // an already-present edge is no cycle, so it is simply recorded again
    assert_eq!(graph.get_node(parent).get_childs(), &vec![child, child]);
    assert_eq!(graph.get_node(child).get_parents(), &vec![parent, parent]);
}

#[test]
fn test_lookup_after_edges() {
    let mut graph = DependencyGraph::new();
    let a = graph.get_or_add_node(String::from("base"));
    let b = graph.get_or_add_node(String::from("dependent"));
    assert!(graph.add_edge(b, a).is_ok());

    // a lookup of a value that already has edges returns the same node untouched
    let a_again = graph.get_or_add_node(String::from("base"));
    assert_eq!(a, a_again);
    assert_eq!(graph.node_count(), 2);
    assert_eq!(graph.get_node(a).get_parents(), &vec![b]);
}

#[test]
fn test_new_graph_is_empty() {
    let graph: DependencyGraph<i32> = DependencyGraph::new();
    assert_eq!(graph.node_count(), 0);
    let graph: DependencyGraph<i32> = DependencyGraph::default();
    assert_eq!(graph.node_count(), 0);
}

#[test]
fn test_node_accessors() {
    let node: Node<i32> = Node::new(42);
    assert_eq!(*node.get_value(), 42);
    assert!(node.get_childs().is_empty());
    assert!(node.get_parents().is_empty());

    let other: Node<i32> = Node::new(42);
    assert!(node == other);
    let different: Node<i32> = Node::new(43);
    assert!(node != different);
}
