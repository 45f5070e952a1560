use terrashin::terrain::executor::{EvalStep, Executor};
use terrashin::terrain::graph::Graph;
use terrashin::terrain::node::Node;
use terrashin::terrain::resource_registry::{ResourceKey, ResourceKind};
use terrashin::terrain::{NodeId, TerrainSystem};

fn bridge(from: NodeId, from_port: &str, to: NodeId, to_port: &str) -> EvalStep {
    EvalStep::Bridge {
        from: ResourceKey::output(from, from_port.to_string()),
        to: ResourceKey::input(to, to_port.to_string()),
    }
}

/// a -> b -> c, all dirty.
fn chain() -> (Graph, NodeId, NodeId, NodeId) {
    let mut graph = Graph::new();
    let a = graph.add_node(Node::new().with_output("Output"));
    let b = graph.add_node(Node::new().with_input("In").with_output("Output"));
    let c = graph.add_node(Node::new().with_input("In").with_output("Output"));
    graph.connect(a, "Output".to_string(), b, "In".to_string());
    graph.connect(b, "Output".to_string(), c, "In".to_string());
    (graph, a, b, c)
}

#[test]
fn evaluation_encodes_dependencies_before_dependents() {
    let (mut graph, a, b, c) = chain();
    let steps = Executor::new().evaluate(c, &mut graph);
    assert_eq!(
        steps,
        vec![
            EvalStep::Encode(a),
            bridge(a, "Output", b, "In"),
            EvalStep::Encode(b),
            bridge(b, "Output", c, "In"),
            EvalStep::Encode(c),
        ]
    );
    assert!(!graph.get_node(a).unwrap().is_dirty());
    assert!(!graph.get_node(b).unwrap().is_dirty());
    assert!(!graph.get_node(c).unwrap().is_dirty());
}

#[test]
fn evaluation_skips_clean_nodes_but_still_bridges() {
    let (mut graph, a, b, c) = chain();
    graph.get_node_mut(a).unwrap().set_clean();
    let steps = Executor::new().evaluate(c, &mut graph);
    assert_eq!(
        steps,
        vec![
            bridge(a, "Output", b, "In"),
            EvalStep::Encode(b),
            bridge(b, "Output", c, "In"),
            EvalStep::Encode(c),
        ]
    );
}

#[test]
fn evaluation_leaves_nodes_outside_the_dependencies_alone() {
    let (mut graph, a, b, c) = chain();
    let steps = Executor::new().evaluate(b, &mut graph);
    assert_eq!(steps, vec![EvalStep::Encode(a), bridge(a, "Output", b, "In"), EvalStep::Encode(b)]);
    assert!(graph.get_node(c).unwrap().is_dirty());
}

#[test]
fn shared_dependency_is_encoded_once() {
    // d takes a on two inputs; b and c both take a; e takes b and c.
    let mut graph = Graph::new();
    let a = graph.add_node(Node::new().with_output("Output"));
    let b = graph.add_node(Node::new().with_input("In").with_output("Output"));
    let c = graph.add_node(Node::new().with_input("In").with_output("Output"));
    let e = graph.add_node(Node::new().with_input("Left").with_input("Right"));
    graph.connect(a, "Output".to_string(), b, "In".to_string());
    graph.connect(a, "Output".to_string(), c, "In".to_string());
    graph.connect(b, "Output".to_string(), e, "Left".to_string());
    graph.connect(c, "Output".to_string(), e, "Right".to_string());
    let steps = Executor::new().evaluate(e, &mut graph);
    assert_eq!(
        steps,
        vec![
            EvalStep::Encode(a),
            bridge(a, "Output", b, "In"),
            EvalStep::Encode(b),
            bridge(b, "Output", e, "Left"),
            bridge(a, "Output", c, "In"),
            EvalStep::Encode(c),
            bridge(c, "Output", e, "Right"),
            EvalStep::Encode(e),
        ]
    );
}

#[test]
fn second_evaluation_encodes_nothing() {
    let (mut graph, a, b, c) = chain();
    Executor::new().evaluate(c, &mut graph);
    let steps = Executor::new().evaluate(c, &mut graph);
    assert_eq!(steps, vec![bridge(a, "Output", b, "In"), bridge(b, "Output", c, "In")]);
}

#[test]
fn unconnected_inputs_are_not_bridged() {
    let mut graph = Graph::new();
    let a = graph.add_node(Node::new().with_input("Scale").with_output("Output"));
    let steps = Executor::new().evaluate(a, &mut graph);
    assert_eq!(steps, vec![EvalStep::Encode(a)]);
}

#[test]
fn terrain_system_does_nothing_for_a_clean_node() {
    let mut terrain = TerrainSystem::new();
    let a = terrain.graph.add_node(Node::new().with_output("Output"));
    let b = terrain.graph.add_node(Node::new().with_input("In"));
    terrain.graph.connect(a, "Output".to_string(), b, "In".to_string());
    terrain.graph.get_node_mut(b).unwrap().set_clean();
    assert!(terrain.evaluate_node(b).is_empty());
    assert!(terrain.graph.get_node(a).unwrap().is_dirty());
}

#[test]
fn terrain_system_evaluates_a_dirty_node() {
    let mut terrain = TerrainSystem::new();
    let a = terrain.graph.add_node(Node::new().with_output("Output"));
    let b = terrain.graph.add_node(Node::new().with_input("In"));
    terrain.graph.connect(a, "Output".to_string(), b, "In".to_string());
    let steps = terrain.evaluate_node(b);
    assert_eq!(steps, vec![EvalStep::Encode(a), bridge(a, "Output", b, "In"), EvalStep::Encode(b)]);
    assert!(terrain.get_output(ResourceKey::output(a, "Output".to_string())).is_none());
}

#[test]
fn resource_keys_carry_their_kind() {
    let id = NodeId(3);
    let out = ResourceKey::output(id, "Output".to_string());
    let inp = ResourceKey::input(id, "In".to_string());
    let internal = ResourceKey::internal(id, "Scratch".to_string());
    assert_eq!(out.kind, ResourceKind::Output);
    assert_eq!(inp.kind, ResourceKind::Input);
    assert_eq!(internal.kind, ResourceKind::Internal);
    assert_eq!(out.node_id, id);
    assert_eq!(internal.port_name, "Scratch");
    assert_ne!(out, ResourceKey::output(id, "Other".to_string()));
    assert_ne!(out, ResourceKey::input(id, "Output".to_string()));
    assert_eq!(out, ResourceKey::output(NodeId(3), "Output".to_string()));
}

#[test]
fn evaluation_is_possible_along_a_chain() {
    let (graph, a, _b, c) = chain();
    let executor = Executor::new();
    assert!(executor.can_evaluate(c, &graph));
    assert!(executor.can_evaluate(a, &graph));
    assert!(!executor.can_evaluate(NodeId(3), &graph));
}

#[test]
fn a_cycle_of_connections_rules_out_evaluation() {
    let mut graph = Graph::new();
    let x = graph.add_node(Node::new().with_input("In").with_output("Output"));
    let y = graph.add_node(Node::new().with_input("In").with_output("Output"));
    let z = graph.add_node(Node::new().with_input("In"));
    let w = graph.add_node(Node::new().with_output("Output"));
    graph.connect(x, "Output".to_string(), y, "In".to_string());
    graph.connect(y, "Output".to_string(), x, "In".to_string());
    graph.connect(y, "Output".to_string(), z, "In".to_string());
    let executor = Executor::new();
    assert!(!executor.can_evaluate(x, &graph));
    assert!(!executor.can_evaluate(y, &graph));
    assert!(!executor.can_evaluate(z, &graph));
    assert!(executor.can_evaluate(w, &graph));
}

#[test]
fn a_missing_source_rules_out_evaluation() {
    let mut graph = Graph::new();
    let a = graph.add_node(Node::new().with_input("In"));
    let b = graph.add_node(Node::new());
    graph.connect(NodeId(9), "Output".to_string(), a, "In".to_string());
    let executor = Executor::new();
    assert!(!executor.can_evaluate(a, &graph));
    assert!(executor.can_evaluate(b, &graph));
    let terrain = TerrainSystem::new();
    assert!(!terrain.can_evaluate(NodeId(0)));
}

#[test]
fn a_self_loop_rules_out_evaluation() {
    let mut graph = Graph::new();
    let a = graph.add_node(Node::new().with_input("In").with_output("Output"));
    graph.connect(a, "Output".to_string(), a, "In".to_string());
    assert!(!Executor::new().can_evaluate(a, &graph));
}
