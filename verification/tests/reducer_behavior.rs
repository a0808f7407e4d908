use graph_edit::geom::{Delta2, Point2, Rect2};
use graph_edit::graph::{GraphError, InputParamKind};
use graph_edit::id::{AnyParameterId, InputId, NodeId, OutputId};
use graph_edit::response::{FrameInput, NodeResponse};
use graph_edit::simple::{
    AllMyNodeTemplates, DummyDataType, DummyNodeData, DummyResponse, DummyValueType, MyEditorState,
};

type Resp = NodeResponse<DummyResponse, DummyNodeData>;

fn add_node(state: &mut MyEditorState, label: &str) -> (NodeId, InputId, InputId, OutputId) {
    let n = state.graph.add_node(label.to_string(), DummyNodeData);
    let i1 = state.graph.add_input_param(
        n,
        "in1".to_string(),
        DummyDataType,
        DummyValueType,
        InputParamKind::ConnectionOnly,
        true,
    );
    let i2 = state.graph.add_input_param(
        n,
        "in2".to_string(),
        DummyDataType,
        DummyValueType,
        InputParamKind::ConnectionOnly,
        true,
    );
    let o = state.graph.add_output_param(n, "out".to_string(), DummyDataType);
    state.node_order.push(n);
    state
        .node_positions
        .insert(n, Point2 { x: 0, y: 0 });
    state
        .node_orientations
        .insert(n, graph_edit::editor::NodeOrientation::LeftToRight);
    (n, i1, i2, o)
}

fn idle_input() -> FrameInput {
    FrameInput {
        cursor_pos: Point2 { x: 0, y: 0 },
        editor_rect: Rect2 { min: Point2 { x: 0, y: 0 }, max: Point2 { x: 1000, y: 1000 } },
        finder_rect: None,
        finder_choice: None,
        node_rects: Vec::new(),
        any_pressed: false,
        any_released: false,
        primary_down: false,
        primary_released: false,
        secondary_released: false,
        escape_pressed: false,
        middle_down: false,
        background_dragged: false,
        drag_started_on_background: false,
        drag_released_on_background: false,
        pointer_delta: Delta2 { x: 0, y: 0 },
    }
}

#[test]
fn node_order_tracks_live_nodes() {
    let mut state = MyEditorState::new();
    let (a, _, _, _) = add_node(&mut state, "A");
    let (b, _, _, _) = add_node(&mut state, "B");
    let mut order = state.node_order.clone();
    let mut live = state.graph.iter_nodes();
    order.sort_by_key(|n| (n.slot, n.version));
    live.sort_by_key(|n| (n.slot, n.version));
    assert_eq!(order, live);
    state.apply_response(&Resp::DeleteNodeUi(a)).unwrap();
    assert_eq!(state.node_order, vec![b]);
    assert_eq!(state.graph.iter_nodes(), vec![b]);
}

#[test]
fn scenario_connect_and_delete_reports_each_link() {
    let mut state = MyEditorState::new();
    let (a, _a1, _a2, ao) = add_node(&mut state, "A");
    let (_b, b1, _b2, _bo) = add_node(&mut state, "B");
    state
        .apply_response(&Resp::ConnectEventEnded { output: ao, input: b1 })
        .unwrap();
    assert_eq!(state.graph.iter_connections(), vec![(b1, ao)]);
    let extras = state.apply_response(&Resp::DeleteNodeUi(a)).unwrap();
    assert_eq!(extras.len(), 2);
    match &extras[0] {
        Resp::DisconnectEvent { input, output } => {
            assert_eq!(*input, b1);
            assert_eq!(*output, ao);
        }
        other => panic!("expected a disconnect event, got {:?}", kind_of(other)),
    }
    match &extras[1] {
        Resp::DeleteNodeFull { node_id, node } => {
            assert_eq!(*node_id, a);
            assert_eq!(node.label, "A");
        }
        other => panic!("expected the full deletion event, got {:?}", kind_of(other)),
    }
    assert_eq!(state.graph.iter_connections(), vec![]);
}

fn kind_of(r: &Resp) -> &'static str {
    match r {
        Resp::ConnectEventStarted(..) => "ConnectEventStarted",
        Resp::ConnectEventEnded { .. } => "ConnectEventEnded",
        Resp::CreatedNode(..) => "CreatedNode",
        Resp::SelectNode(..) => "SelectNode",
        Resp::DeleteNodeUi(..) => "DeleteNodeUi",
        Resp::DeleteNodeFull { .. } => "DeleteNodeFull",
        Resp::DisconnectEvent { .. } => "DisconnectEvent",
        Resp::RaiseNode(..) => "RaiseNode",
        Resp::MoveNode { .. } => "MoveNode",
        Resp::User(..) => "User",
    }
}

#[test]
fn scenario_box_selection_replaces_selection() {
    let mut state = MyEditorState::new();
    let (a, _, _, _) = add_node(&mut state, "A");
    let (b, _, _, _) = add_node(&mut state, "B");
    state.apply_response(&Resp::SelectNode(a)).unwrap();
    assert_eq!(state.selected_nodes, vec![a]);
    state.ongoing_box_selection = Some(Point2 { x: 100, y: 100 });
    let mut input = idle_input();
    input.cursor_pos = Point2 { x: 140, y: 140 };
    input.node_rects = vec![
        (a, Rect2 { min: Point2 { x: 0, y: 0 }, max: Point2 { x: 50, y: 50 } }),
        (b, Rect2 { min: Point2 { x: 110, y: 110 }, max: Point2 { x: 130, y: 130 } }),
    ];
    let out = state
        .draw_graph_editor(&input, &AllMyNodeTemplates, &mut (), Vec::<Resp>::new())
        .unwrap();
    assert!(out.cursor_in_editor);
    assert!(!out.cursor_in_finder);
    // the rectangle covers only B: the selection is replaced, not unioned
    assert_eq!(state.selected_nodes, vec![b]);
}

#[test]
fn scenario_unplug_connected_input_rearms_drag() {
    let mut state = MyEditorState::new();
    let (a, _a1, _a2, ao) = add_node(&mut state, "A");
    let (_b, b1, _b2, _bo) = add_node(&mut state, "B");
    state
        .apply_response(&Resp::ConnectEventEnded { output: ao, input: b1 })
        .unwrap();
    let extras = state
        .apply_response(&Resp::DisconnectEvent { input: b1, output: ao })
        .unwrap();
    assert!(extras.is_empty());
    assert!(state.graph.connection(b1).is_none());
    assert_eq!(
        state.connection_in_progress,
        Some((a, AnyParameterId::Output(ao)))
    );
}

#[test]
fn scenario_raising_moves_to_top() {
    let mut state = MyEditorState::new();
    let (a, _, _, _) = add_node(&mut state, "A");
    let (b, _, _, _) = add_node(&mut state, "B");
    let (c, _, _, _) = add_node(&mut state, "C");
    state.apply_response(&Resp::RaiseNode(b)).unwrap();
    state.apply_response(&Resp::RaiseNode(a)).unwrap();
    assert_eq!(state.node_order, vec![c, b, a]);
    state.apply_response(&Resp::RaiseNode(b)).unwrap();
    assert_eq!(state.node_order, vec![c, a, b]);
}

#[test]
fn scenario_group_move_shifts_whole_selection() {
    let mut state = MyEditorState::new();
    let (a, _, _, _) = add_node(&mut state, "A");
    let (b, _, _, _) = add_node(&mut state, "B");
    let (c, _, _, _) = add_node(&mut state, "C");
    state.selected_nodes = vec![a, b];
    let d = Delta2 { x: 7, y: -3 };
    state
        .apply_response(&Resp::MoveNode { node: a, drag_delta: d })
        .unwrap();
    assert_eq!(*state.node_positions.get(a).unwrap(), Point2 { x: 7, y: -3 });
    assert_eq!(*state.node_positions.get(b).unwrap(), Point2 { x: 7, y: -3 });
    assert_eq!(*state.node_positions.get(c).unwrap(), Point2 { x: 0, y: 0 });
}

#[test]
fn move_outside_selection_moves_one_node() {
    let mut state = MyEditorState::new();
    let (a, _, _, _) = add_node(&mut state, "A");
    let (b, _, _, _) = add_node(&mut state, "B");
    state.selected_nodes = vec![b];
    let d = Delta2 { x: 5, y: 5 };
    state
        .apply_response(&Resp::MoveNode { node: a, drag_delta: d })
        .unwrap();
    assert_eq!(*state.node_positions.get(a).unwrap(), Point2 { x: 5, y: 5 });
    assert_eq!(*state.node_positions.get(b).unwrap(), Point2 { x: 0, y: 0 });
}

#[test]
fn inapplicable_events_fail_fast() {
    let mut state = MyEditorState::new();
    let (a, _a1, _a2, ao) = add_node(&mut state, "A");
    let (node, _severed) = state.graph.remove_node(a);
    state.node_order.clear();
    state.node_positions.remove(a);
    assert!(matches!(
        state.apply_response(&Resp::RaiseNode(a)),
        Err(GraphError::PreconditionViolation)
    ));
    let stale_output = state.apply_response(&Resp::DisconnectEvent {
        input: InputId { slot: 9, version: 0 },
        output: ao,
    });
    match stale_output {
        Err(GraphError::StaleIdentifier(AnyParameterId::Output(o))) => assert_eq!(o, ao),
        _ => panic!("expected a stale-identifier error"),
    }
    assert!(matches!(
        state.apply_response(&Resp::DeleteNodeFull { node_id: a, node }),
        Err(GraphError::PreconditionViolation)
    ));
}

#[test]
fn pointer_release_cancels_connection_in_progress() {
    let mut state = MyEditorState::new();
    let (a, _a1, _a2, ao) = add_node(&mut state, "A");
    state.connection_in_progress = Some((a, AnyParameterId::Output(ao)));
    let mut input = idle_input();
    input.any_released = true;
    state
        .draw_graph_editor(&input, &AllMyNodeTemplates, &mut (), Vec::<Resp>::new())
        .unwrap();
    assert_eq!(state.connection_in_progress, None);
}

#[test]
fn menu_confirmation_creates_a_node() {
    let mut state = MyEditorState::new();
    state.node_finder = Some(graph_edit::editor::NodeFinder::new_at(Point2 { x: 5, y: 5 }));
    let mut input = idle_input();
    input.cursor_pos = Point2 { x: 300, y: 200 };
    input.finder_choice = Some(0);
    let out = state
        .draw_graph_editor(&input, &AllMyNodeTemplates, &mut (), Vec::<Resp>::new())
        .unwrap();
    assert_eq!(out.node_responses.len(), 1);
    let id = match out.node_responses[0] {
        Resp::CreatedNode(id) => id,
        _ => panic!("expected a creation event"),
    };
    assert!(state.node_finder.is_none());
    assert_eq!(state.node_order, vec![id]);
    let node = state.graph.get_node(id);
    assert_eq!(node.label, "Node");
    assert_eq!(node.inputs.len(), 2);
    assert_eq!(node.outputs.len(), 1);
    assert_eq!(
        *state.node_positions.get(id).unwrap(),
        Point2 { x: 300, y: 200 }
    );
}

#[test]
fn secondary_release_opens_menu_and_escape_closes_it() {
    let mut state = MyEditorState::new();
    let mut input = idle_input();
    input.cursor_pos = Point2 { x: 40, y: 60 };
    input.secondary_released = true;
    state
        .draw_graph_editor(&input, &AllMyNodeTemplates, &mut (), Vec::<Resp>::new())
        .unwrap();
    assert_eq!(
        state.node_finder,
        Some(graph_edit::editor::NodeFinder { position: Some(Point2 { x: 40, y: 60 }) })
    );
    let mut input2 = idle_input();
    input2.escape_pressed = true;
    state
        .draw_graph_editor(&input2, &AllMyNodeTemplates, &mut (), Vec::<Resp>::new())
        .unwrap();
    assert_eq!(state.node_finder, None);
}

#[test]
fn background_press_clears_selection_and_drag_starts_box_selection() {
    let mut state = MyEditorState::new();
    let (a, _, _, _) = add_node(&mut state, "A");
    state.apply_response(&Resp::SelectNode(a)).unwrap();
    let mut input = idle_input();
    input.cursor_pos = Point2 { x: 10, y: 10 };
    input.any_pressed = true;
    input.primary_down = true;
    input.drag_started_on_background = true;
    state
        .draw_graph_editor(&input, &AllMyNodeTemplates, &mut (), Vec::<Resp>::new())
        .unwrap();
    assert!(state.selected_nodes.is_empty());
    assert_eq!(state.ongoing_box_selection, Some(Point2 { x: 10, y: 10 }));
    let mut input2 = idle_input();
    input2.primary_released = true;
    state
        .draw_graph_editor(&input2, &AllMyNodeTemplates, &mut (), Vec::<Resp>::new())
        .unwrap();
    assert_eq!(state.ongoing_box_selection, None);
}

#[test]
fn middle_drag_pans_the_view() {
    let mut state = MyEditorState::new();
    let mut input = idle_input();
    input.background_dragged = true;
    input.middle_down = true;
    input.pointer_delta = Delta2 { x: 11, y: -4 };
    state
        .draw_graph_editor(&input, &AllMyNodeTemplates, &mut (), Vec::<Resp>::new())
        .unwrap();
    assert_eq!(state.pan_zoom.pan, Delta2 { x: 11, y: -4 });
}
