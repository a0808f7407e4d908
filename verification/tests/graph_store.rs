use graph_edit::graph::{Graph, GraphError, InputParamKind};
use graph_edit::id::{AnyParameterId, InputId, NodeId, OutputId};
use graph_edit::simple::{DummyDataType, DummyNodeData, DummyValueType};

type G = Graph<DummyNodeData, DummyDataType, DummyValueType>;

fn two_port_node(g: &mut G, label: &str) -> (NodeId, InputId, InputId, OutputId) {
    let n = g.add_node(label.to_string(), DummyNodeData);
    let i1 = g.add_input_param(
        n,
        "in1".to_string(),
        DummyDataType,
        DummyValueType,
        InputParamKind::ConnectionOnly,
        true,
    );
    let i2 = g.add_input_param(
        n,
        "in2".to_string(),
        DummyDataType,
        DummyValueType,
        InputParamKind::ConnectionOnly,
        true,
    );
    let o = g.add_output_param(n, "out".to_string(), DummyDataType);
    (n, i1, i2, o)
}

#[test]
fn fresh_ids_and_port_lists() {
    let mut g = G::new();
    let (a, a1, a2, ao) = two_port_node(&mut g, "A");
    let (b, b1, _b2, _bo) = two_port_node(&mut g, "B");
    assert_ne!(a, b);
    assert_ne!(a1, a2);
    assert_ne!(a1, b1);
    let node_a = g.get_node(a);
    assert_eq!(node_a.inputs.len(), 2);
    assert_eq!(node_a.outputs.len(), 1);
    assert_eq!(node_a.inputs[0].1, a1);
    assert_eq!(node_a.outputs[0].1, ao);
    assert_eq!(g.get_input(a1).node, a);
    assert_eq!(g.get_output(ao).node, a);
}

#[test]
fn connection_round_trip_restores_state() {
    let mut g = G::new();
    let (_a, _a1, _a2, ao) = two_port_node(&mut g, "A");
    let (_b, b1, _b2, _bo) = two_port_node(&mut g, "B");
    assert!(g.connection(b1).is_none());
    g.add_connection(ao, b1);
    assert_eq!(g.connection(b1), Some(ao));
    let freed = g.remove_connection(b1);
    assert_eq!(freed, Some(ao));
    assert!(g.connection(b1).is_none());
    assert_eq!(g.iter_connections().len(), 0);
    assert!(g.any_param_type(AnyParameterId::Input(b1)).is_ok());
    assert!(g.any_param_type(AnyParameterId::Output(ao)).is_ok());
}

#[test]
fn each_input_has_at_most_one_connection() {
    let mut g = G::new();
    let (_a, _a1, _a2, ao) = two_port_node(&mut g, "A");
    let (_c, _c1, _c2, co) = two_port_node(&mut g, "C");
    let (_b, b1, b2, _bo) = two_port_node(&mut g, "B");
    g.add_connection(ao, b1);
    g.add_connection(co, b1);
    // last write wins, no duplicate entry for the input
    assert_eq!(g.connection(b1), Some(co));
    assert_eq!(g.iter_connections().len(), 1);
    // fan-out from one output is unconstrained
    g.add_connection(co, b2);
    assert_eq!(g.iter_connections().len(), 2);
    assert_eq!(g.connection(b2), Some(co));
}

#[test]
fn remove_absent_connection_is_a_no_op() {
    let mut g = G::new();
    let (_a, _a1, _a2, ao) = two_port_node(&mut g, "A");
    let (_b, b1, b2, _bo) = two_port_node(&mut g, "B");
    g.add_connection(ao, b1);
    let before = g.iter_connections();
    assert_eq!(g.remove_connection(b2), None);
    assert_eq!(g.iter_connections(), before);
}

#[test]
fn remove_node_cascades_over_incoming_and_outgoing() {
    let mut g = G::new();
    let (a, _a1, _a2, ao) = two_port_node(&mut g, "A");
    let (_b, b1, b2, bo) = two_port_node(&mut g, "B");
    let (_c, c1, _c2, _co) = two_port_node(&mut g, "C");
    // two outgoing links from A's output, one incoming link into A
    g.add_connection(ao, b1);
    g.add_connection(ao, b2);
    g.add_connection(bo, c1);
    let (node, severed) = g.remove_node(a);
    assert_eq!(node.label, "A");
    assert_eq!(severed.len(), 2);
    assert!(severed.contains(&(b1, ao)));
    assert!(severed.contains(&(b2, ao)));
    // the unrelated link survives; nothing references A's ports
    let remaining = g.iter_connections();
    assert_eq!(remaining, vec![(c1, bo)]);
    assert!(g.any_param_type(AnyParameterId::Output(ao)).is_err());
    assert_eq!(
        g.any_param_type(AnyParameterId::Output(ao)),
        Err(GraphError::StaleIdentifier(AnyParameterId::Output(ao)))
    );
}

#[test]
fn stale_ids_stay_stale_after_reuse() {
    let mut g = G::new();
    let (a, _a1, _a2, _ao) = two_port_node(&mut g, "A");
    let (_node, _severed) = g.remove_node(a);
    assert!(!g.iter_nodes().contains(&a));
    // the slot may be reused, but the old id never resolves again
    let (b, _b1, _b2, _bo) = two_port_node(&mut g, "B");
    assert_ne!(a, b);
    assert!(g.iter_nodes().contains(&b));
    assert!(!g.iter_nodes().contains(&a));
}

#[test]
fn set_input_value_replaces_only_the_value() {
    let mut g = G::new();
    let (a, a1, _a2, _ao) = two_port_node(&mut g, "A");
    let _prev = g.set_input_value(a1, DummyValueType);
    assert_eq!(g.get_input(a1).node, a);
    assert_eq!(g.get_input(a1).kind, InputParamKind::ConnectionOnly);
}
