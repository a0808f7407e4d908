use graph_edit::response::NodeResponse;
use graph_edit::simple::{DummyNodeData, DummyResponse, NodeGraphExampleSimple};

type Resp = NodeResponse<DummyResponse, DummyNodeData>;

#[test]
fn one_node_renders_as_one_group() {
    let mut app = NodeGraphExampleSimple::new();
    assert_eq!(app.calculate_result(), "");
    let _a = app.create_node();
    assert_eq!(app.cached_text_graph_description, "(node ) ");
}

#[test]
fn a_feeding_b_renders_nested() {
    let mut app = NodeGraphExampleSimple::new();
    let a = app.create_node();
    let b = app.create_node();
    let ao = app.state.graph.get_node(a).outputs[0].1;
    let b1 = app.state.graph.get_node(b).inputs[0].1;
    app.state
        .apply_response(&Resp::ConnectEventEnded { output: ao, input: b1 })
        .unwrap();
    // only B feeds nothing, so only B is printed, around its feeder A
    assert_eq!(app.calculate_result(), "(node (node ) ) ");
}

#[test]
fn two_unconnected_nodes_render_side_by_side() {
    let mut app = NodeGraphExampleSimple::new();
    let _a = app.create_node();
    let _b = app.create_node();
    assert_eq!(app.calculate_result(), "(node ) (node ) ");
}

#[test]
fn a_cycle_renders_finitely() {
    let mut app = NodeGraphExampleSimple::new();
    let a = app.create_node();
    let b = app.create_node();
    let ao = app.state.graph.get_node(a).outputs[0].1;
    let bo = app.state.graph.get_node(b).outputs[0].1;
    let a1 = app.state.graph.get_node(a).inputs[0].1;
    let b1 = app.state.graph.get_node(b).inputs[0].1;
    app.state
        .apply_response(&Resp::ConnectEventEnded { output: ao, input: b1 })
        .unwrap();
    app.state
        .apply_response(&Resp::ConnectEventEnded { output: bo, input: a1 })
        .unwrap();
    // neither node is a sink, so nothing is printed; the walk stays finite
    assert_eq!(app.calculate_result(), "");
}
