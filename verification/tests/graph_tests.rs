use terrashin::terrain::graph::Graph;
use terrashin::terrain::node::Node;
use terrashin::terrain::NodeId;

fn test_node() -> Node {
    let mut node = Node::new();
    node.set_clean();
    node
}

#[test]
fn test_connect_sets_adjacency_and_port() {
    let mut graph = Graph::new();
    let a = graph.add_node(test_node());
    let b = graph.add_node(test_node().with_input("In"));

    graph.connect(a, "Out".to_string(), b, "In".to_string());

    assert!(graph.children_of(a).unwrap().contains(&b));
    assert!(graph.parents_of(b).unwrap().contains(&a));
    assert_eq!(graph.get_node(b).unwrap().input("In").unwrap().connection.as_ref().unwrap().node_id, a);
}

#[test]
fn test_disconnect_clears_adjacency_and_port() {
    let mut graph = Graph::new();
    let a = graph.add_node(test_node());
    let b = graph.add_node(test_node().with_input("In"));

    graph.connect(a, "Out".to_string(), b, "In".to_string());
    graph.disconnect(a, "Out".to_string(), b, "In".to_string());

    assert!(graph.children_of(a).map_or(true, |v| !v.contains(&b)));
    assert!(graph.parents_of(b).map_or(true, |v| !v.contains(&a)));
    assert!(graph.get_node(b).unwrap().input("In").unwrap().connection.is_none());
}

#[test]
fn test_mark_dirty_recursive() {
    let mut graph = Graph::new();
    let a = graph.add_node(test_node());
    let b = graph.add_node(test_node().with_input("In"));
    let c = graph.add_node(test_node().with_input("In"));

    graph.connect(a, "Out".to_string(), b, "In".to_string());
    graph.connect(b, "Out".to_string(), c, "In".to_string());

    graph.get_node_mut(a).unwrap().set_clean();
    graph.get_node_mut(b).unwrap().set_clean();
    graph.get_node_mut(c).unwrap().set_clean();

    graph.mark_dirty_recursive(a);

    assert!(graph.get_node(a).unwrap().is_dirty());
    assert!(graph.get_node(b).unwrap().is_dirty());
    assert!(graph.get_node(c).unwrap().is_dirty());
}

#[test]
fn add_node_hands_out_ids_in_order() {
    let mut graph = Graph::new();
    assert_eq!(graph.add_node(Node::new()), NodeId(0));
    assert_eq!(graph.add_node(Node::new()), NodeId(1));
    assert_eq!(graph.add_node(Node::new()), NodeId(2));
    assert!(graph.get_node(NodeId(2)).is_some());
    assert!(graph.get_node(NodeId(3)).is_none());
    assert!(graph.get_node_mut(NodeId(3)).is_none());
}

#[test]
fn mark_dirty_leaves_upstream_and_unrelated_nodes_clean() {
    let mut graph = Graph::new();
    let a = graph.add_node(test_node());
    let b = graph.add_node(test_node().with_input("In"));
    let c = graph.add_node(test_node().with_input("In"));
    let d = graph.add_node(test_node());
    graph.connect(a, "Out".to_string(), b, "In".to_string());
    graph.connect(b, "Out".to_string(), c, "In".to_string());

    graph.mark_dirty_recursive(b);

    assert!(!graph.get_node(a).unwrap().is_dirty());
    assert!(graph.get_node(b).unwrap().is_dirty());
    assert!(graph.get_node(c).unwrap().is_dirty());
    assert!(!graph.get_node(d).unwrap().is_dirty());
}

#[test]
fn mark_dirty_follows_children_of_missing_nodes() {
    let mut graph = Graph::new();
    let a = graph.add_node(test_node().with_input("In"));
    graph.connect(NodeId(7), "Out".to_string(), a, "In".to_string());
    graph.mark_dirty_recursive(NodeId(7));
    assert!(graph.get_node(a).unwrap().is_dirty());
}

#[test]
fn connect_to_missing_port_only_records_adjacency() {
    let mut graph = Graph::new();
    let a = graph.add_node(test_node());
    let b = graph.add_node(test_node().with_input("In"));
    graph.connect(a, "Out".to_string(), b, "Other".to_string());
    assert_eq!(graph.children_of(a).unwrap(), &vec![b]);
    assert_eq!(graph.parents_of(b).unwrap(), &vec![a]);
    assert!(graph.get_node(b).unwrap().input("In").unwrap().connection.is_none());
    assert!(graph.get_node(b).unwrap().input("Other").is_none());
}

#[test]
fn connecting_twice_records_the_child_twice_and_disconnect_removes_both() {
    let mut graph = Graph::new();
    let a = graph.add_node(test_node());
    let b = graph.add_node(test_node().with_input("In"));
    graph.connect(a, "Out".to_string(), b, "In".to_string());
    graph.connect(a, "Out".to_string(), b, "In".to_string());
    assert_eq!(graph.children_of(a).unwrap(), &vec![b, b]);
    graph.disconnect(a, "Out".to_string(), b, "In".to_string());
    assert_eq!(graph.children_of(a).unwrap(), &Vec::<NodeId>::new());
    assert_eq!(graph.parents_of(b).unwrap(), &Vec::<NodeId>::new());
}

#[test]
fn disconnect_without_connection_changes_nothing_visible() {
    let mut graph = Graph::new();
    let a = graph.add_node(test_node());
    let b = graph.add_node(test_node().with_input("In"));
    graph.disconnect(a, "Out".to_string(), b, "In".to_string());
    assert!(graph.children_of(a).is_none());
    assert!(graph.parents_of(b).is_none());
}

#[test]
fn with_input_replaces_a_port_of_the_same_name() {
    let node = Node::new().with_input("In").with_input("Scale").with_input("In");
    let names: Vec<&str> = node.inputs().iter().map(|p| p.name.as_str()).collect();
    assert_eq!(names, vec!["In", "Scale"]);
    let node = Node::new().with_output("Output").with_output("Output");
    assert_eq!(node.outputs().len(), 1);
    assert_eq!(node.outputs()[0].name, "Output");
}

#[test]
fn disconnect_after_connect_matches_disconnect_alone() {
    let build = || {
        let mut graph = Graph::new();
        let a = graph.add_node(test_node());
        let b = graph.add_node(test_node().with_input("In"));
        let c = graph.add_node(test_node());
        graph.connect(c, "Out".to_string(), b, "In".to_string());
        graph.connect(a, "Out".to_string(), c, "In".to_string());
        (graph, a, b, c)
    };
    let (mut both, a, b, c) = build();
    both.connect(a, "Out".to_string(), b, "In".to_string());
    both.disconnect(a, "Out".to_string(), b, "In".to_string());
    let (mut alone, _, _, _) = build();
    alone.disconnect(a, "Out".to_string(), b, "In".to_string());
    for id in [a, b, c] {
        let members = |g: &Graph, id: NodeId| g.children_of(id).cloned().unwrap_or_default();
        assert_eq!(members(&both, id), members(&alone, id));
    }
    assert!(both.get_node(b).unwrap().input("In").unwrap().connection.is_none());
    assert!(alone.get_node(b).unwrap().input("In").unwrap().connection.is_none());
    assert_eq!(both.parents_of(b).unwrap(), alone.parents_of(b).unwrap());
    assert_eq!(both.parents_of(b).unwrap(), &vec![c]);
}

#[test]
fn marking_twice_is_marking_once() {
    let mut graph = Graph::new();
    let a = graph.add_node(test_node());
    let b = graph.add_node(test_node().with_input("In"));
    let c = graph.add_node(test_node());
    graph.connect(a, "Out".to_string(), b, "In".to_string());
    graph.mark_dirty_recursive(a);
    graph.mark_dirty_recursive(a);
    assert!(graph.get_node(a).unwrap().is_dirty());
    assert!(graph.get_node(b).unwrap().is_dirty());
    assert!(!graph.get_node(c).unwrap().is_dirty());
}
