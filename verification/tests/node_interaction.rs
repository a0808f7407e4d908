use graph_edit::editor::NodeOrientation;
use graph_edit::geom::{sat_add, Delta2, Point2, Rect2};
use graph_edit::graph::{Graph, InputParamKind};
use graph_edit::id::{AnyParameterId, InputId, NodeId, OutputId};
use graph_edit::node_ui::{resolve_snap_target, GraphNodeWidget, NodeHits, PortHit};
use graph_edit::response::NodeResponse;
use graph_edit::simple::{DummyDataType, DummyNodeData, DummyResponse, DummyValueType};

type G = Graph<DummyNodeData, DummyDataType, DummyValueType>;
type Resp = NodeResponse<DummyResponse, DummyNodeData>;

fn two_port_node(g: &mut G, label: &str) -> (NodeId, InputId, InputId, OutputId) {
    let n = g.add_node(label.to_string(), DummyNodeData);
    let i1 = g.add_input_param(
        n,
        "in1".to_string(),
        DummyDataType,
        DummyValueType,
        InputParamKind::ConnectionOnly,
        true,
    );
    let i2 = g.add_input_param(
        n,
        "in2".to_string(),
        DummyDataType,
        DummyValueType,
        InputParamKind::ConnectionOnly,
        true,
    );
    let o = g.add_output_param(n, "out".to_string(), DummyDataType);
    (n, i1, i2, o)
}

fn quiet_hits() -> NodeHits<DummyResponse> {
    NodeHits {
        user_events: Vec::new(),
        input_hits: vec![
            PortHit { drag_started: false, close_enough: false },
            PortHit { drag_started: false, close_enough: false },
        ],
        output_hits: vec![PortHit { drag_started: false, close_enough: false }],
        pointer_released: false,
        drag_delta: None,
        clicked: false,
        flip_clicked: false,
        close_clicked: false,
    }
}

#[test]
fn drag_start_on_connected_input_unplugs_it() {
    let mut g = G::new();
    let (_a, _a1, _a2, ao) = two_port_node(&mut g, "A");
    let (b, b1, _b2, _bo) = two_port_node(&mut g, "B");
    g.add_connection(ao, b1);
    let widget = GraphNodeWidget {
        node_id: b,
        ongoing_drag: None,
        selected: false,
        pan: Delta2 { x: 0, y: 0 },
    };
    let mut orientation = NodeOrientation::LeftToRight;
    let mut hits = quiet_hits();
    hits.input_hits[0].drag_started = true;
    let responses = widget.show(&g, &mut orientation, &mut (), hits);
    assert_eq!(responses.len(), 1);
    match responses[0] {
        Resp::DisconnectEvent { input, output } => {
            assert_eq!(input, b1);
            assert_eq!(output, ao);
        }
        _ => panic!("expected a disconnect event"),
    }
}

#[test]
fn drag_start_on_free_port_starts_a_connection() {
    let mut g = G::new();
    let (b, b1, _b2, _bo) = two_port_node(&mut g, "B");
    let widget = GraphNodeWidget {
        node_id: b,
        ongoing_drag: None,
        selected: false,
        pan: Delta2 { x: 0, y: 0 },
    };
    let mut orientation = NodeOrientation::LeftToRight;
    let mut hits = quiet_hits();
    hits.input_hits[0].drag_started = true;
    let responses = widget.show(&g, &mut orientation, &mut (), hits);
    assert_eq!(responses.len(), 1);
    match responses[0] {
        Resp::ConnectEventStarted(n, p) => {
            assert_eq!(n, b);
            assert_eq!(p, AnyParameterId::Input(b1));
        }
        _ => panic!("expected a connect-start event"),
    }
}

#[test]
fn release_near_compatible_port_completes_the_connection() {
    let mut g = G::new();
    let (a, _a1, _a2, ao) = two_port_node(&mut g, "A");
    let (b, b1, _b2, _bo) = two_port_node(&mut g, "B");
    let widget = GraphNodeWidget {
        node_id: b,
        ongoing_drag: Some((a, AnyParameterId::Output(ao))),
        selected: false,
        pan: Delta2 { x: 0, y: 0 },
    };
    let mut orientation = NodeOrientation::LeftToRight;
    let mut hits = quiet_hits();
    hits.input_hits[0].close_enough = true;
    hits.pointer_released = true;
    let responses = widget.show(&g, &mut orientation, &mut (), hits);
    assert_eq!(responses.len(), 1);
    match responses[0] {
        Resp::ConnectEventEnded { output, input } => {
            assert_eq!(output, ao);
            assert_eq!(input, b1);
        }
        _ => panic!("expected a connect-end event"),
    }
}

#[test]
fn same_node_release_is_ignored() {
    let mut g = G::new();
    let (b, _b1, _b2, bo) = two_port_node(&mut g, "B");
    let widget = GraphNodeWidget {
        node_id: b,
        ongoing_drag: Some((b, AnyParameterId::Output(bo))),
        selected: false,
        pan: Delta2 { x: 0, y: 0 },
    };
    let mut orientation = NodeOrientation::LeftToRight;
    let mut hits = quiet_hits();
    hits.input_hits[0].close_enough = true;
    hits.pointer_released = true;
    let responses = widget.show(&g, &mut orientation, &mut (), hits);
    assert!(responses.is_empty());
}

#[test]
fn title_drag_moves_and_raises() {
    let mut g = G::new();
    let (b, _b1, _b2, _bo) = two_port_node(&mut g, "B");
    let widget = GraphNodeWidget {
        node_id: b,
        ongoing_drag: None,
        selected: false,
        pan: Delta2 { x: 0, y: 0 },
    };
    let mut orientation = NodeOrientation::LeftToRight;
    let mut hits = quiet_hits();
    hits.drag_delta = Some(Delta2 { x: 3, y: 4 });
    let responses = widget.show(&g, &mut orientation, &mut (), hits);
    assert_eq!(responses.len(), 2);
    assert!(matches!(responses[0], Resp::MoveNode { .. }));
    assert!(matches!(responses[1], Resp::RaiseNode(_)));
}

#[test]
fn plain_click_selects_but_is_shadowed_by_other_events() {
    let mut g = G::new();
    let (b, _b1, _b2, _bo) = two_port_node(&mut g, "B");
    let widget = GraphNodeWidget {
        node_id: b,
        ongoing_drag: None,
        selected: false,
        pan: Delta2 { x: 0, y: 0 },
    };
    let mut orientation = NodeOrientation::LeftToRight;
    let mut hits = quiet_hits();
    hits.clicked = true;
    let responses = widget.show(&g, &mut orientation, &mut (), hits);
    assert_eq!(responses.len(), 2);
    assert!(matches!(responses[0], Resp::SelectNode(_)));
    assert!(matches!(responses[1], Resp::RaiseNode(_)));
    // a click together with a close click is shadowed
    let mut hits2 = quiet_hits();
    hits2.clicked = true;
    hits2.close_clicked = true;
    let responses2 = widget.show(&g, &mut orientation, &mut (), hits2);
    assert_eq!(responses2.len(), 1);
    assert!(matches!(responses2[0], Resp::DeleteNodeUi(_)));
}

#[test]
fn flip_control_toggles_orientation() {
    let mut g = G::new();
    let (b, _b1, _b2, _bo) = two_port_node(&mut g, "B");
    let widget = GraphNodeWidget {
        node_id: b,
        ongoing_drag: None,
        selected: false,
        pan: Delta2 { x: 0, y: 0 },
    };
    let mut orientation = NodeOrientation::LeftToRight;
    let mut hits = quiet_hits();
    hits.flip_clicked = true;
    let responses = widget.show(&g, &mut orientation, &mut (), hits);
    assert!(responses.is_empty());
    assert_eq!(orientation, NodeOrientation::RightToLeft);
}

#[test]
fn snap_picks_the_near_compatible_port() {
    let mut g = G::new();
    let (_a, _a1, _a2, ao) = two_port_node(&mut g, "A");
    let (_b, b1, b2, _bo) = two_port_node(&mut g, "B");
    let locations = vec![
        (AnyParameterId::Input(b1), Point2 { x: 500, y: 500 }),
        (AnyParameterId::Input(b2), Point2 { x: 103, y: 104 }),
    ];
    let cursor = Point2 { x: 100, y: 100 };
    let hit = resolve_snap_target(&g, AnyParameterId::Output(ao), &locations, cursor, 10);
    assert_eq!(hit, Some((AnyParameterId::Input(b2), Point2 { x: 103, y: 104 })));
    let far = Point2 { x: 700, y: 700 };
    assert_eq!(
        resolve_snap_target(&g, AnyParameterId::Output(ao), &locations, far, 10),
        None
    );
}

#[test]
fn geometry_helpers_behave() {
    assert_eq!(sat_add(i64::MAX, 5), i64::MAX);
    assert_eq!(sat_add(i64::MIN, -5), i64::MIN);
    assert_eq!(sat_add(3, 4), 7);
    let r1 = Rect2 { min: Point2 { x: 0, y: 0 }, max: Point2 { x: 10, y: 10 } };
    let r2 = Rect2 { min: Point2 { x: 10, y: 10 }, max: Point2 { x: 20, y: 20 } };
    let r3 = Rect2 { min: Point2 { x: 11, y: 11 }, max: Point2 { x: 20, y: 20 } };
    assert!(r1.intersects(&r2));
    assert!(!r1.intersects(&r3));
    let p = Point2 { x: -5, y: 3 };
    let q = p.translated(Delta2 { x: 6, y: -6 });
    assert_eq!(q, Point2 { x: 1, y: -3 });
}

#[test]
fn snap_from_an_input_finds_outputs() {
    let mut g = G::new();
    let (_a, a1, _a2, _ao) = two_port_node(&mut g, "A");
    let (_b, _b1, _b2, bo) = two_port_node(&mut g, "B");
    let locations = vec![(AnyParameterId::Output(bo), Point2 { x: 8, y: 6 })];
    let cursor = Point2 { x: 0, y: 0 };
    let hit = resolve_snap_target(&g, AnyParameterId::Input(a1), &locations, cursor, 11);
    assert_eq!(hit, Some((AnyParameterId::Output(bo), Point2 { x: 8, y: 6 })));
    // the boundary is strict: distance 10 does not snap at radius 10
    let hit10 = resolve_snap_target(&g, AnyParameterId::Input(a1), &locations, cursor, 10);
    assert_eq!(hit10, None);
}

#[test]
fn empty_graph_response_by_default() {
    let r: graph_edit::response::GraphResponse<DummyResponse, DummyNodeData> = Default::default();
    assert!(r.node_responses.is_empty());
    assert!(!r.cursor_in_editor);
    assert!(!r.cursor_in_finder);
}
