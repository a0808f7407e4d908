//! Per-node interaction: the render surface hit-tests one node's title bar,
//! ports, and controls, and this module turns those hit results into typed
//! response events, in a fixed order.

use crate::editor::NodeOrientation;
use crate::geom::{Delta2, Point2};
use crate::graph::{Graph, GraphModel, InputParamKind, NodeModel};
use crate::id::{AnyParameterId, InputId, NodeId, OutputId};
use crate::response::{views_of, NodeResponse, RespView};
use crate::traits::NodeDataTrait;
use vstd::prelude::*;
use vstd::std_specs::cmp::PartialEqSpec;

verus! {

/// Hit-test result for one port's circular target.
#[derive(Clone, Copy, Debug, PartialEq, Eq, Structural)]
pub struct PortHit {
    /// A drag started on the port this frame.
    pub drag_started: bool,
    /// The pointer is within the connect radius of the port.
    pub close_enough: bool,
}

/// Everything the render surface observed about one node this frame.
pub struct NodeHits<UserResponse> {
    /// Events the payload hooks emitted while drawing, in hook order.
    pub user_events: Vec<UserResponse>,
    /// One hit record per input port, aligned with the node's input list.
    pub input_hits: Vec<PortHit>,
    /// One hit record per output port, aligned with the node's output list.
    pub output_hits: Vec<PortHit>,
    /// Any pointer button was released this frame.
    pub pointer_released: bool,
    /// The title-bar drag movement, if the title was dragged.
    pub drag_delta: Option<Delta2>,
    /// The node body was clicked with the primary button.
    pub clicked: bool,
    /// The orientation-flip control was clicked.
    pub flip_clicked: bool,
    /// The close control was clicked.
    pub close_clicked: bool,
}

/// One node's interaction pass: which node, the drag in progress, whether
/// the node is selected, and the view offset it was drawn under.
pub struct GraphNodeWidget {
    pub node_id: NodeId,
    pub ongoing_drag: Option<(NodeId, AnyParameterId)>,
    pub selected: bool,
    pub pan: Delta2,
}

/// The id resolves to a live port.
pub open spec fn param_is_live<N, D, V>(g: GraphModel<N, D, V>, p: AnyParameterId) -> bool {
    match p {
        AnyParameterId::Input(i) => g.inputs.dom().contains(i),
        AnyParameterId::Output(o) => g.outputs.dom().contains(o),
    }
}

/// The declared data type of a live port.
pub open spec fn param_typ<N, D, V>(g: GraphModel<N, D, V>, p: AnyParameterId) -> D {
    match p {
        AnyParameterId::Input(i) => g.inputs[i].typ,
        AnyParameterId::Output(o) => g.outputs[o].typ,
    }
}

/// The events one input port emits: a drag start unplugs a connected input
/// (reseeding the drag from the freed output) or starts a connection; a
/// release close to the port while a compatible drag from another node is
/// active completes the connection, with in-in pairings ignored.
pub open spec fn input_port_events<U, N, D: PartialEq, V>(
    g: GraphModel<N, D, V>,
    w: GraphNodeWidget,
    released: bool,
    iid: InputId,
    hit: PortHit,
) -> Seq<RespView<U, N>> {
    let started: Seq<RespView<U, N>> = if hit.drag_started {
        match g.connection_of(iid) {
            Some(o) => seq![RespView::Disconnect(iid, o)],
            None => seq![RespView::ConnectStarted(w.node_id, AnyParameterId::Input(iid))],
        }
    } else {
        Seq::empty()
    };
    let ended: Seq<RespView<U, N>> = match w.ongoing_drag {
        Some(od) => if od.0 != w.node_id && param_typ(g, od.1).eq_spec(&g.inputs[iid].typ)
            && hit.close_enough && released {
            match od.1 {
                AnyParameterId::Output(o) => seq![RespView::ConnectEnded(iid, o)],
                AnyParameterId::Input(_) => Seq::empty(),
            }
        } else {
            Seq::empty()
        },
        None => Seq::empty(),
    };
    started + ended
}

/// The events one output port emits, the mirror image of
/// [`input_port_events`]; out-out pairings are ignored.
pub open spec fn output_port_events<U, N, D: PartialEq, V>(
    g: GraphModel<N, D, V>,
    w: GraphNodeWidget,
    released: bool,
    oid: OutputId,
    hit: PortHit,
) -> Seq<RespView<U, N>> {
    let started: Seq<RespView<U, N>> = if hit.drag_started {
        seq![RespView::ConnectStarted(w.node_id, AnyParameterId::Output(oid))]
    } else {
        Seq::empty()
    };
    let ended: Seq<RespView<U, N>> = match w.ongoing_drag {
        Some(od) => if od.0 != w.node_id && param_typ(g, od.1).eq_spec(&g.outputs[oid].typ)
            && hit.close_enough && released {
            match od.1 {
                AnyParameterId::Input(i) => seq![RespView::ConnectEnded(i, oid)],
                AnyParameterId::Output(_) => Seq::empty(),
            }
        } else {
            Seq::empty()
        },
        None => Seq::empty(),
    };
    started + ended
}

/// The events of the first `upto` input ports, in list order; a
/// constant-only input has no port target and emits nothing.
pub open spec fn inputs_events_upto<U, N, D: PartialEq, V>(
    g: GraphModel<N, D, V>,
    w: GraphNodeWidget,
    nm: NodeModel<N>,
    hits: Seq<PortHit>,
    released: bool,
    upto: int,
) -> Seq<RespView<U, N>>
    decreases upto,
{
    if upto <= 0 {
        Seq::empty()
    } else {
        let iid = nm.inputs[upto - 1].1;
        inputs_events_upto(g, w, nm, hits, released, upto - 1) + (if g.inputs[iid].kind
            != InputParamKind::ConstantOnly {
            input_port_events(g, w, released, iid, hits[upto - 1])
        } else {
            Seq::empty()
        })
    }
}

/// The events of the first `upto` output ports, in list order.
pub open spec fn outputs_events_upto<U, N, D: PartialEq, V>(
    g: GraphModel<N, D, V>,
    w: GraphNodeWidget,
    nm: NodeModel<N>,
    hits: Seq<PortHit>,
    released: bool,
    upto: int,
) -> Seq<RespView<U, N>>
    decreases upto,
{
    if upto <= 0 {
        Seq::empty()
    } else {
        let oid = nm.outputs[upto - 1].1;
        outputs_events_upto(g, w, nm, hits, released, upto - 1) + output_port_events(
            g,
            w,
            released,
            oid,
            hits[upto - 1],
        )
    }
}

/// Pass-through user events, wrapped.
pub open spec fn user_views<U, N>(us: Seq<U>) -> Seq<RespView<U, N>> {
    us.map_values(|u: U| RespView::User(u))
}

/// Everything one node's interaction pass emits, in order: the payload
/// hooks' events, then each input port's, then each output port's events,
/// then a deletion request if the close control was clicked (and the
/// payload permits deletion), then a move-and-raise for a title drag. A
/// plain click that produced no other event in the same pass emits
/// select-and-raise instead; any other event shadows the click.
pub open spec fn node_ui_events<U, N, D: PartialEq, V>(
    g: GraphModel<N, D, V>,
    w: GraphNodeWidget,
    nm: NodeModel<N>,
    hits: NodeHits<U>,
    can_delete: bool,
) -> Seq<RespView<U, N>> {
    let base = node_ui_events_base::<U, N, D, V>(g, w, nm, hits, can_delete);
    if base.len() == 0 && hits.clicked {
        seq![RespView::Select(w.node_id), RespView::Raise(w.node_id)]
    } else {
        base
    }
}

impl GraphNodeWidget {
    /// Turn one node's hit results into its response events, flipping the
    /// node's orientation if its flip control was clicked.
    pub fn show<U, N, D, V, US>(
        &self,
        graph: &Graph<N, D, V>,
        orientation: &mut NodeOrientation,
        user_state: &mut US,
        hits: NodeHits<U>,
    ) -> (r: Vec<NodeResponse<U, N>>)
        where
            D: PartialEq,
            N: NodeDataTrait<DataType = D, ValueType = V, UserState = US, Response = U>,
        requires
            graph.wf(),
            D::obeys_eq_spec(),
            graph@.nodes.dom().contains(self.node_id),
            hits.input_hits@.len() == graph@.nodes[self.node_id].inputs.len(),
            hits.output_hits@.len() == graph@.nodes[self.node_id].outputs.len(),
            match self.ongoing_drag {
                Some(od) => param_is_live(graph@, od.1),
                None => true,
            },
        ensures
            views_of(r@) == node_ui_events::<U, N, D, V>(
                graph@,
                *self,
                graph@.nodes[self.node_id],
                hits,
                graph@.nodes[self.node_id].user_data.can_delete_spec(self.node_id, graph@),
            ),
            *final(orientation) == if hits.flip_clicked {
                old(orientation).spec_flip()
            } else {
                *old(orientation)
            },
    {
        let ghost g = graph@;
        let ghost w = *self;
        let ghost nm = g.nodes[self.node_id];
        let mut responses: Vec<NodeResponse<U, N>> = Vec::new();
        let NodeHits {
            user_events,
            input_hits,
            output_hits,
            pointer_released,
            drag_delta,
            clicked,
            flip_clicked,
            close_clicked,
        } = hits;
        let ghost all_users = user_events@;
        let mut ue = user_events;
        while ue.len() > 0
            invariant
                ue@.len() <= all_users.len(),
                ue@ == all_users.skip(all_users.len() - ue@.len()),
                views_of(responses@) == user_views::<U, N>(
                    all_users.take(all_users.len() - ue@.len()),
                ),
            decreases ue@.len(),
        {
            let ghost consumed = all_users.len() - ue@.len();
            let u = ue.remove(0);
            proof {
                assert(u == all_users[consumed]);
                assert(ue@ =~= all_users.skip(consumed + 1));
            }
            let ghost resp_before = responses@;
            responses.push(NodeResponse::User(u));
            proof {
                crate::response::lemma_views_of_push(resp_before, NodeResponse::<U, N>::User(u));
                assert(views_of(responses@) =~= user_views::<U, N>(all_users.take(consumed + 1)));
            }
        }
        proof {
            assert(all_users.take(all_users.len() as int) =~= all_users);
        }
        let node = graph.get_node(self.node_id);
        let ghost base0 = user_views::<U, N>(all_users);
        let mut i: usize = 0;
        while i < node.inputs.len()
            invariant
                graph.wf(),
                D::obeys_eq_spec(),
                g == graph@,
                w == *self,
                nm == g.nodes[self.node_id],
                g.nodes.dom().contains(self.node_id),
                node@ == nm,
                input_hits@.len() == nm.inputs.len(),
                0 <= i <= nm.inputs.len(),
                match self.ongoing_drag {
                    Some(od) => param_is_live(g, od.1),
                    None => true,
                },
                views_of(responses@) == base0 + inputs_events_upto::<U, N, D, V>(
                    g,
                    w,
                    nm,
                    input_hits@,
                    pointer_released,
                    i as int,
                ),
            decreases nm.inputs.len() - i,
        {
            let iid = node.inputs[i].1;
            proof {
                assert(nm.inputs[i as int] == node.inputs@[i as int]);
                assert(g.inputs.dom().contains(iid) && g.inputs[iid].node == self.node_id);
            }
            let param = graph.get_input(iid);
            let eligible = match param.kind {
                InputParamKind::ConstantOnly => false,
                InputParamKind::ConnectionOnly => true,
                InputParamKind::ConnectionOrConstant => true,
            };
            let ghost resp_at_start = responses@;
            if eligible {
                let hit = input_hits[i];
                if hit.drag_started {
                    let ghost rb = responses@;
                    match graph.connection(iid) {
                        Some(o) => {
                            responses.push(
                                NodeResponse::DisconnectEvent { input: iid, output: o },
                            );
                        },
                        None => {
                            responses.push(
                                NodeResponse::ConnectEventStarted(
                                    self.node_id,
                                    AnyParameterId::Input(iid),
                                ),
                            );
                        },
                    }
                    proof {
                        crate::response::lemma_views_of_push(rb, responses@.last());
                    }
                }
                if let Some(od) = self.ongoing_drag {
                    if od.0 != self.node_id {
                        let origin_typ: &D = match od.1 {
                            AnyParameterId::Input(i2) => &graph.get_input(i2).typ,
                            AnyParameterId::Output(o2) => &graph.get_output(o2).typ,
                        };
                        if origin_typ.eq(&param.typ) && hit.close_enough && pointer_released {
                            match od.1 {
                                AnyParameterId::Output(o2) => {
                                    let ghost rb = responses@;
                                    responses.push(
                                        NodeResponse::ConnectEventEnded {
                                            output: o2,
                                            input: iid,
                                        },
                                    );
                                    proof {
                                        crate::response::lemma_views_of_push(
                                            rb,
                                            responses@.last(),
                                        );
                                    }
                                },
                                AnyParameterId::Input(_) => {},
                            }
                        }
                    }
                }
            }
            proof {
                assert(views_of(responses@) =~= base0 + inputs_events_upto::<U, N, D, V>(
                    g,
                    w,
                    nm,
                    input_hits@,
                    pointer_released,
                    i as int + 1,
                ));
            }
            i = i + 1;
        }
        let ghost base1 = base0 + inputs_events_upto::<U, N, D, V>(
            g,
            w,
            nm,
            input_hits@,
            pointer_released,
            nm.inputs.len() as int,
        );
        let mut oi: usize = 0;
        while oi < node.outputs.len()
            invariant
                graph.wf(),
                D::obeys_eq_spec(),
                g == graph@,
                w == *self,
                nm == g.nodes[self.node_id],
                g.nodes.dom().contains(self.node_id),
                node@ == nm,
                output_hits@.len() == nm.outputs.len(),
                0 <= oi <= nm.outputs.len(),
                match self.ongoing_drag {
                    Some(od) => param_is_live(g, od.1),
                    None => true,
                },
                views_of(responses@) == base1 + outputs_events_upto::<U, N, D, V>(
                    g,
                    w,
                    nm,
                    output_hits@,
                    pointer_released,
                    oi as int,
                ),
            decreases nm.outputs.len() - oi,
        {
            let oid = node.outputs[oi].1;
            proof {
                assert(nm.outputs[oi as int] == node.outputs@[oi as int]);
                assert(g.outputs.dom().contains(oid) && g.outputs[oid].node == self.node_id);
            }
            let out_param = graph.get_output(oid);
            let hit = output_hits[oi];
            if hit.drag_started {
                let ghost rb = responses@;
                responses.push(
                    NodeResponse::ConnectEventStarted(self.node_id, AnyParameterId::Output(oid)),
                );
                proof {
                    crate::response::lemma_views_of_push(rb, responses@.last());
                }
            }
            if let Some(od) = self.ongoing_drag {
                if od.0 != self.node_id {
                    let origin_typ: &D = match od.1 {
                        AnyParameterId::Input(i2) => &graph.get_input(i2).typ,
                        AnyParameterId::Output(o2) => &graph.get_output(o2).typ,
                    };
                    if origin_typ.eq(&out_param.typ) && hit.close_enough && pointer_released {
                        match od.1 {
                            AnyParameterId::Input(i2) => {
                                let ghost rb = responses@;
                                responses.push(
                                    NodeResponse::ConnectEventEnded { output: oid, input: i2 },
                                );
                                proof {
                                    crate::response::lemma_views_of_push(rb, responses@.last());
                                }
                            },
                            AnyParameterId::Output(_) => {},
                        }
                    }
                }
            }
            proof {
                assert(views_of(responses@) =~= base1 + outputs_events_upto::<U, N, D, V>(
                    g,
                    w,
                    nm,
                    output_hits@,
                    pointer_released,
                    oi as int + 1,
                ));
            }
            oi = oi + 1;
        }
        if flip_clicked {
            *orientation = orientation.flip();
        }
        let can_del = node.user_data.can_delete(self.node_id, graph, user_state);
        if can_del && close_clicked {
            let ghost rb = responses@;
            responses.push(NodeResponse::DeleteNodeUi(self.node_id));
            proof {
                crate::response::lemma_views_of_push(rb, responses@.last());
            }
        }
        if let Some(d) = drag_delta {
            let ghost rb = responses@;
            responses.push(NodeResponse::MoveNode { node: self.node_id, drag_delta: d });
            responses.push(NodeResponse::RaiseNode(self.node_id));
            proof {
                crate::response::lemma_views_of_push(rb, NodeResponse::<U, N>::MoveNode {
                    node: self.node_id,
                    drag_delta: d,
                });
                crate::response::lemma_views_of_push(
                    rb.push(NodeResponse::MoveNode { node: self.node_id, drag_delta: d }),
                    NodeResponse::<U, N>::RaiseNode(self.node_id),
                );
            }
        }
        proof {
            assert(views_of(responses@) =~= node_ui_events_base::<U, N, D, V>(
                g,
                w,
                nm,
                hits,
                nm.user_data.can_delete_spec(self.node_id, g),
            ));
        }
        if responses.len() == 0 && clicked {
            let ghost rb = responses@;
            responses.push(NodeResponse::SelectNode(self.node_id));
            responses.push(NodeResponse::RaiseNode(self.node_id));
            proof {
                crate::response::lemma_views_of_push(
                    rb,
                    NodeResponse::<U, N>::SelectNode(self.node_id),
                );
                crate::response::lemma_views_of_push(
                    rb.push(NodeResponse::SelectNode(self.node_id)),
                    NodeResponse::<U, N>::RaiseNode(self.node_id),
                );
                assert(views_of(responses@) =~= seq![
                    RespView::<U, N>::Select(self.node_id),
                    RespView::<U, N>::Raise(self.node_id),
                ]);
            }
        }
        responses
    }
}

/// The position a port was last drawn at: the first record for it, if any.
pub open spec fn rec_pos(locs: Seq<(AnyParameterId, Point2)>, p: AnyParameterId) -> Option<
    Point2,
>
    decreases locs.len(),
{
    if locs.len() == 0 {
        None
    } else if locs[0].0 == p {
        Some(locs[0].1)
    } else {
        rec_pos(locs.drop_first(), p)
    }
}

/// Look up a port's last-recorded position.
pub fn lookup_port_pos(locs: &Vec<(AnyParameterId, Point2)>, p: AnyParameterId) -> (r: Option<
    Point2,
>)
    ensures
        r == rec_pos(locs@, p),
{
    proof {
        assert(locs@.skip(0) =~= locs@);
    }
    let mut i: usize = 0;
    while i < locs.len()
        invariant
            0 <= i <= locs@.len(),
            rec_pos(locs@, p) == rec_pos(locs@.skip(i as int), p),
        decreases locs@.len() - i,
    {
        proof {
            assert(locs@.skip(i as int)[0] == locs@[i as int]);
            assert(locs@.skip(i as int).drop_first() =~= locs@.skip(i as int + 1));
        }
        if locs[i].0 == p {
            return Some(locs[i].1);
        }
        i = i + 1;
    }
    proof {
        assert(locs@.skip(locs@.len() as int).len() == 0);
    }
    None
}

/// `q` qualifies as the snap target of a drag from `locator`: it is a live
/// input (the drag came from an output), its declared type equals the
/// source's, and its last-recorded position lies within `radius` of the
/// pointer.
pub open spec fn input_snap_candidate<N, D: PartialEq, V>(
    g: GraphModel<N, D, V>,
    locator: AnyParameterId,
    locs: Seq<(AnyParameterId, Point2)>,
    cursor: Point2,
    radius: int,
    q: InputId,
) -> bool {
    &&& g.inputs.dom().contains(q)
    &&& g.inputs[q].typ.eq_spec(&param_typ(g, locator))
    &&& match rec_pos(locs, AnyParameterId::Input(q)) {
        Some(pos) => pos.spec_within_radius(cursor, radius),
        None => false,
    }
}

/// The mirror of [`input_snap_candidate`] for a drag from an input.
pub open spec fn output_snap_candidate<N, D: PartialEq, V>(
    g: GraphModel<N, D, V>,
    locator: AnyParameterId,
    locs: Seq<(AnyParameterId, Point2)>,
    cursor: Point2,
    radius: int,
    q: OutputId,
) -> bool {
    &&& g.outputs.dom().contains(q)
    &&& g.outputs[q].typ.eq_spec(&param_typ(g, locator))
    &&& match rec_pos(locs, AnyParameterId::Output(q)) {
        Some(pos) => pos.spec_within_radius(cursor, radius),
        None => false,
    }
}

/// Resolve the implicit endpoint of an in-progress connection drag: among
/// the ports of the opposite role whose declared type equals the source's
/// and whose last-recorded position lies within `radius` of the pointer,
/// the one in the lowest arena slot; `None` — meaning the raw pointer
/// position is the target — when no port qualifies. The position read is
/// the previous frame's layout.
pub fn resolve_snap_target<N, D, V>(
    graph: &Graph<N, D, V>,
    locator: AnyParameterId,
    port_locations: &Vec<(AnyParameterId, Point2)>,
    cursor: Point2,
    radius: i64,
) -> (r: Option<(AnyParameterId, Point2)>)
    where
        D: PartialEq,
    requires
        graph.wf(),
        D::obeys_eq_spec(),
        param_is_live(graph@, locator),
        0 < radius <= 1_000_000,
    ensures
        ({
            let g = graph@;
            let locs = port_locations@;
            match locator {
                AnyParameterId::Output(_) => match r {
                    Some((p, pos)) => p is Input && input_snap_candidate(
                        g,
                        locator,
                        locs,
                        cursor,
                        radius as int,
                        p->Input_0,
                    ) && Some(pos) == rec_pos(locs, p) && forall|q: InputId|
                        input_snap_candidate(g, locator, locs, cursor, radius as int, q)
                            ==> (p->Input_0).slot <= q.slot,
                    None => forall|q: InputId|
                        !input_snap_candidate(g, locator, locs, cursor, radius as int, q),
                },
                AnyParameterId::Input(_) => match r {
                    Some((p, pos)) => p is Output && output_snap_candidate(
                        g,
                        locator,
                        locs,
                        cursor,
                        radius as int,
                        p->Output_0,
                    ) && Some(pos) == rec_pos(locs, p) && forall|q: OutputId|
                        output_snap_candidate(g, locator, locs, cursor, radius as int, q)
                            ==> (p->Output_0).slot <= q.slot,
                    None => forall|q: OutputId|
                        !output_snap_candidate(g, locator, locs, cursor, radius as int, q),
                },
            }
        }),
{
    let ghost g = graph@;
    let ghost locs = port_locations@;
    let source_typ: &D = match locator {
        AnyParameterId::Input(i2) => &graph.get_input(i2).typ,
        AnyParameterId::Output(o2) => &graph.get_output(o2).typ,
    };
    match locator {
        AnyParameterId::Output(_) => {
            let keys = graph.inputs.keys();
            let mut k: usize = 0;
            while k < keys.len()
                invariant
                    graph.wf(),
                    D::obeys_eq_spec(),
                    g == graph@,
                    locs == port_locations@,
                    param_is_live(g, locator),
                    locator is Output,
                    *source_typ == param_typ(g, locator),
                    0 < radius <= 1_000_000,
                    0 <= k <= keys@.len(),
                    forall|i2: int|
                        0 <= i2 < keys@.len() ==> g.inputs.dom().contains(#[trigger] keys@[i2]),
                    forall|q: InputId| g.inputs.dom().contains(q) ==> keys@.contains(q),
                    forall|i2: int, j2: int|
                        0 <= i2 < j2 < keys@.len() ==> keys@[i2].slot < keys@[j2].slot,
                    forall|i2: int|
                        0 <= i2 < k ==> !input_snap_candidate(
                            g,
                            locator,
                            locs,
                            cursor,
                            radius as int,
                            #[trigger] keys@[i2],
                        ),
                decreases keys@.len() - k,
            {
                let q = keys[k];
                if graph.get_input(q).typ.eq(source_typ) {
                    if let Some(pos) = lookup_port_pos(port_locations, AnyParameterId::Input(q)) {
                        if pos.within_radius(cursor, radius) {
                            proof {
                                assert(input_snap_candidate(
                                    g,
                                    locator,
                                    locs,
                                    cursor,
                                    radius as int,
                                    q,
                                ));
                                assert forall|q2: InputId|
                                    input_snap_candidate(
                                        g,
                                        locator,
                                        locs,
                                        cursor,
                                        radius as int,
                                        q2,
                                    ) implies q.slot <= q2.slot by {
                                    assert(keys@.contains(q2));
                                    let j2 = choose|j2: int|
                                        0 <= j2 < keys@.len() && keys@[j2] == q2;
                                    if j2 < k as int {
                                        assert(!input_snap_candidate(
                                            g,
                                            locator,
                                            locs,
                                            cursor,
                                            radius as int,
                                            keys@[j2],
                                        ));
                                    } else if j2 > k as int {
                                        assert(keys@[k as int].slot < keys@[j2].slot);
                                    }
                                }
                            }
                            return Some((AnyParameterId::Input(q), pos));
                        }
                    }
                }
                proof {
                    assert(keys@[k as int] == q);
                    assert(!input_snap_candidate(g, locator, locs, cursor, radius as int, q));
                }
                k = k + 1;
            }
            proof {
                assert forall|q: InputId|
                    !input_snap_candidate(g, locator, locs, cursor, radius as int, q) by {
                    if g.inputs.dom().contains(q) {
                        assert(keys@.contains(q));
                        let j2 = choose|j2: int| 0 <= j2 < keys@.len() && keys@[j2] == q;
                        assert(!input_snap_candidate(
                            g,
                            locator,
                            locs,
                            cursor,
                            radius as int,
                            keys@[j2],
                        ));
                    }
                }
            }
            None
        },
        AnyParameterId::Input(_) => {
            let keys = graph.outputs.keys();
            let mut k: usize = 0;
            while k < keys.len()
                invariant
                    graph.wf(),
                    D::obeys_eq_spec(),
                    g == graph@,
                    locs == port_locations@,
                    param_is_live(g, locator),
                    locator is Input,
                    *source_typ == param_typ(g, locator),
                    0 < radius <= 1_000_000,
                    0 <= k <= keys@.len(),
                    forall|i2: int|
                        0 <= i2 < keys@.len() ==> g.outputs.dom().contains(#[trigger] keys@[i2]),
                    forall|q: OutputId| g.outputs.dom().contains(q) ==> keys@.contains(q),
                    forall|i2: int, j2: int|
                        0 <= i2 < j2 < keys@.len() ==> keys@[i2].slot < keys@[j2].slot,
                    forall|i2: int|
                        0 <= i2 < k ==> !output_snap_candidate(
                            g,
                            locator,
                            locs,
                            cursor,
                            radius as int,
                            #[trigger] keys@[i2],
                        ),
                decreases keys@.len() - k,
            {
                let q = keys[k];
                if graph.get_output(q).typ.eq(source_typ) {
                    if let Some(pos) = lookup_port_pos(port_locations, AnyParameterId::Output(q)) {
                        if pos.within_radius(cursor, radius) {
                            proof {
                                assert(output_snap_candidate(
                                    g,
                                    locator,
                                    locs,
                                    cursor,
                                    radius as int,
                                    q,
                                ));
                                assert forall|q2: OutputId|
                                    output_snap_candidate(
                                        g,
                                        locator,
                                        locs,
                                        cursor,
                                        radius as int,
                                        q2,
                                    ) implies q.slot <= q2.slot by {
                                    assert(keys@.contains(q2));
                                    let j2 = choose|j2: int|
                                        0 <= j2 < keys@.len() && keys@[j2] == q2;
                                    if j2 < k as int {
                                        assert(!output_snap_candidate(
                                            g,
                                            locator,
                                            locs,
                                            cursor,
                                            radius as int,
                                            keys@[j2],
                                        ));
                                    } else if j2 > k as int {
                                        assert(keys@[k as int].slot < keys@[j2].slot);
                                    }
                                }
                            }
                            return Some((AnyParameterId::Output(q), pos));
                        }
                    }
                }
                proof {
                    assert(keys@[k as int] == q);
                    assert(!output_snap_candidate(g, locator, locs, cursor, radius as int, q));
                }
                k = k + 1;
            }
            proof {
                assert forall|q: OutputId|
                    !output_snap_candidate(g, locator, locs, cursor, radius as int, q) by {
                    if g.outputs.dom().contains(q) {
                        assert(keys@.contains(q));
                        let j2 = choose|j2: int| 0 <= j2 < keys@.len() && keys@[j2] == q;
                        assert(!output_snap_candidate(
                            g,
                            locator,
                            locs,
                            cursor,
                            radius as int,
                            keys@[j2],
                        ));
                    }
                }
            }
            None
        },
    }
}

/// The event sequence before the click-shadowing rule is applied.
pub open spec fn node_ui_events_base<U, N, D: PartialEq, V>(
    g: GraphModel<N, D, V>,
    w: GraphNodeWidget,
    nm: NodeModel<N>,
    hits: NodeHits<U>,
    can_delete: bool,
) -> Seq<RespView<U, N>> {
    user_views::<U, N>(hits.user_events@) + inputs_events_upto::<U, N, D, V>(
        g,
        w,
        nm,
        hits.input_hits@,
        hits.pointer_released,
        nm.inputs.len() as int,
    ) + outputs_events_upto::<U, N, D, V>(
        g,
        w,
        nm,
        hits.output_hits@,
        hits.pointer_released,
        nm.outputs.len() as int,
    ) + (if can_delete && hits.close_clicked {
        seq![RespView::DeleteUi(w.node_id)]
    } else {
        Seq::empty()
    }) + (match hits.drag_delta {
        Some(d) => seq![RespView::Move(w.node_id, d), RespView::Raise(w.node_id)],
        None => Seq::empty(),
    })
}

} // verus!
