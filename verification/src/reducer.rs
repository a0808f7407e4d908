//! The per-frame interaction reducer: applies typed interaction events to
//! the graph and editor state in order, synthesizes follow-up events, and
//! resolves global pointer transitions.

use crate::editor::{EditorModel, GraphEditorState, NodeFinder, NodeOrientation};
use crate::geom::{sat_sub, sat_sub_spec, Delta2, Point2, Rect2};
use crate::graph::{conns_without, GraphError, GraphModel};
use crate::id::{AnyParameterId, InputId, NodeId, OutputId};
use crate::response::{resp_view, views_of, FrameInput, GraphResponse, NodeResponse, RespView};
use crate::traits::{build_extends, NodeTemplateIter, NodeTemplateTrait};
use vstd::map::*;
use vstd::prelude::*;

verus! {

/// An id sequence with every occurrence of one id dropped.
pub open spec fn ids_without(s: Seq<NodeId>, nid: NodeId) -> Seq<NodeId> {
    s.filter(|x: NodeId| x != nid)
}

/// Dropping an id commutes with walking the sequence one element further.
pub proof fn lemma_ids_without_step(s: Seq<NodeId>, nid: NodeId, i: int)
    requires
        0 <= i < s.len(),
    ensures
        ids_without(s.take(i + 1), nid) == if s[i] != nid {
            ids_without(s.take(i), nid).push(s[i])
        } else {
            ids_without(s.take(i), nid)
        },
{
    reveal(Seq::filter);
    assert(s.take(i + 1).drop_last() =~= s.take(i));
    assert(s.take(i + 1).last() == s[i]);
}

/// Linear membership test on an id list.
pub fn ids_contain(v: &Vec<NodeId>, nid: NodeId) -> (r: bool)
    ensures
        r == v@.contains(nid),
{
    let mut i: usize = 0;
    while i < v.len()
        invariant
            0 <= i <= v@.len(),
            forall|j: int| 0 <= j < i ==> v@[j] != nid,
        decreases v@.len() - i,
    {
        if v[i] == nid {
            proof {
                assert(v@[i as int] == nid);
            }
            return true;
        }
        i = i + 1;
    }
    false
}

/// Drop every occurrence of an id from a list, keeping the order of the
/// rest. Membership and pairwise distinctness carry over.
pub fn remove_id(v: &mut Vec<NodeId>, nid: NodeId)
    ensures
        final(v)@ == ids_without(old(v)@, nid),
        forall|q: NodeId| final(v)@.contains(q) <==> (old(v)@.contains(q) && q != nid),
        (forall|i: int, j: int| 0 <= i < j < old(v)@.len() ==> old(v)@[i] != old(v)@[j])
            ==> (forall|i: int, j: int|
            0 <= i < j < final(v)@.len() ==> final(v)@[i] != final(v)@[j]),
{
    let ghost pre = v@;
    let mut out: Vec<NodeId> = Vec::new();
    let mut i: usize = 0;
    while i < v.len()
        invariant
            0 <= i <= pre.len(),
            v@ == pre,
            out@ == ids_without(pre.take(i as int), nid),
            forall|q: NodeId|
                out@.contains(q) <==> (exists|j: int| 0 <= j < i && pre[j] == q && q != nid),
            forall|a: int|
                0 <= a < out@.len() ==> exists|j: int| 0 <= j < i && #[trigger] out@[a] == pre[j],
            (forall|i2: int, j2: int| 0 <= i2 < j2 < pre.len() ==> pre[i2] != pre[j2]) ==> (
            forall|a: int, b: int| 0 <= a < b < out@.len() ==> out@[a] != out@[b]),
        decreases pre.len() - i,
    {
        let x = v[i];
        proof {
            lemma_ids_without_step(pre, nid, i as int);
            assert(pre[i as int] == x);
        }
        if x != nid {
            let ghost out_before = out@;
            out.push(x);
            proof {
                assert forall|q: NodeId| out@.contains(q) implies (exists|j: int|
                    0 <= j < i + 1 && pre[j] == q && q != nid) by {
                    if q == x {
                        assert(pre[i as int] == q);
                    } else {
                        assert(out_before.contains(q)) by {
                            let a = choose|a: int| 0 <= a < out@.len() && out@[a] == q;
                            assert(a < out_before.len());
                            assert(out_before[a] == q);
                        }
                    }
                }
                assert forall|q: NodeId|
                    (exists|j: int| 0 <= j < i + 1 && pre[j] == q && q != nid) implies
                    out@.contains(q) by {
                    let j = choose|j: int| 0 <= j < i + 1 && pre[j] == q && q != nid;
                    if j < i {
                        assert(out_before.contains(q));
                        let a = choose|a: int| 0 <= a < out_before.len() && out_before[a] == q;
                        assert(out@[a] == q);
                    } else {
                        assert(out@[out@.len() - 1] == q);
                    }
                }
                assert forall|a: int| 0 <= a < out@.len() implies exists|j: int|
                    0 <= j < i + 1 && #[trigger] out@[a] == pre[j] by {
                    if a < out_before.len() {
                        let j = choose|j: int| 0 <= j < i && #[trigger] out_before[a] == pre[j];
                        assert(out@[a] == pre[j]);
                    } else {
                        assert(out@[a] == pre[i as int]);
                    }
                }
                if forall|i2: int, j2: int| 0 <= i2 < j2 < pre.len() ==> pre[i2] != pre[j2] {
                    assert forall|a: int, b: int| 0 <= a < b < out@.len() implies out@[a]
                        != out@[b] by {
                        if b == out@.len() - 1 {
                            assert(out@[a] == out_before[a]);
                            let j = choose|j: int| 0 <= j < i && #[trigger] out_before[a] == pre[j];
                            assert(pre[j] != pre[i as int]);
                        } else {
                            assert(out@[a] == out_before[a]);
                            assert(out@[b] == out_before[b]);
                        }
                    }
                }
            }
        }
        i = i + 1;
    }
    proof {
        assert(pre.take(pre.len() as int) =~= pre);
    }
    *v = out;
}

/// The connection list after connecting `output` to `input`: the entry for
/// `input` is overwritten in place if one exists, else appended.
pub open spec fn conn_insert(
    conns: Seq<(InputId, OutputId)>,
    input: InputId,
    output: OutputId,
) -> Seq<(InputId, OutputId)> {
    if exists|j: int| 0 <= j < conns.len() && conns[j].0 == input {
        let j = choose|j: int| 0 <= j < conns.len() && conns[j].0 == input;
        conns.update(j, (input, output))
    } else {
        conns.push((input, output))
    }
}

/// The severed pairs of a node removal as disconnect events, in order.
pub open spec fn disconnect_views<U, N>(s: Seq<(InputId, OutputId)>) -> Seq<RespView<U, N>> {
    s.map_values(|c: (InputId, OutputId)| RespView::Disconnect(c.0, c.1))
}

/// Positions midway through a group move: `node` and the first `j` selected
/// nodes have shifted.
pub open spec fn moved_partial(
    positions: Map<NodeId, Point2>,
    selected: Seq<NodeId>,
    node: NodeId,
    delta: Delta2,
    j: int,
) -> Map<NodeId, Point2> {
    Map::new(
        |k: NodeId| positions.dom().contains(k),
        |k: NodeId|
            if k == node || (exists|a: int| 0 <= a < j && selected[a] == k && k != node) {
                positions[k].spec_translated(delta)
            } else {
                positions[k]
            },
    )
}

/// Positions after a move of `node` by `delta`: the node shifts, and — when
/// it is part of a multi-node selection — so does every other selected node.
pub open spec fn moved_positions(
    positions: Map<NodeId, Point2>,
    selected: Seq<NodeId>,
    node: NodeId,
    delta: Delta2,
) -> Map<NodeId, Point2> {
    let group = selected.contains(node) && selected.len() > 1;
    Map::new(
        |k: NodeId| positions.dom().contains(k),
        |k: NodeId|
            if k == node || (group && selected.contains(k)) {
                positions[k].spec_translated(delta)
            } else {
                positions[k]
            },
    )
}

/// Is the event applicable in this state? The reducer treats an event that
/// is not as misuse: a stale id or an event only the reducer itself may
/// synthesize.
pub open spec fn resp_valid<U, N, D, V>(m: EditorModel<N, D, V>, r: NodeResponse<U, N>) -> bool {
    match r {
        NodeResponse::ConnectEventStarted(_, _) => true,
        NodeResponse::ConnectEventEnded { output, input } => m.graph.inputs.dom().contains(input)
            && m.graph.outputs.dom().contains(output),
        NodeResponse::CreatedNode(_) => true,
        NodeResponse::SelectNode(nid) => m.graph.nodes.dom().contains(nid),
        NodeResponse::DeleteNodeUi(nid) => m.graph.nodes.dom().contains(nid),
        NodeResponse::DeleteNodeFull { .. } => false,
        NodeResponse::DisconnectEvent { output, input: _ } => m.graph.outputs.dom().contains(
            output,
        ),
        NodeResponse::RaiseNode(nid) => m.order.contains(nid),
        NodeResponse::MoveNode { node, drag_delta: _ } => m.graph.nodes.dom().contains(node),
        NodeResponse::User(_) => true,
    }
}

/// The error an inapplicable event provokes: `StaleIdentifier` where a port
/// id fails to resolve, `PreconditionViolation` for reducer misuse.
pub open spec fn resp_error<U, N, D, V>(
    m: EditorModel<N, D, V>,
    r: NodeResponse<U, N>,
) -> GraphError {
    match r {
        NodeResponse::ConnectEventEnded { output, input } => if !m.graph.inputs.dom().contains(
            input,
        ) {
            GraphError::StaleIdentifier(AnyParameterId::Input(input))
        } else {
            GraphError::StaleIdentifier(AnyParameterId::Output(output))
        },
        NodeResponse::DisconnectEvent { output, input: _ } => GraphError::StaleIdentifier(
            AnyParameterId::Output(output),
        ),
        NodeResponse::ConnectEventStarted(_, _) => GraphError::PreconditionViolation,
        NodeResponse::CreatedNode(_) => GraphError::PreconditionViolation,
        NodeResponse::SelectNode(_) => GraphError::PreconditionViolation,
        NodeResponse::DeleteNodeUi(_) => GraphError::PreconditionViolation,
        NodeResponse::DeleteNodeFull { .. } => GraphError::PreconditionViolation,
        NodeResponse::RaiseNode(_) => GraphError::PreconditionViolation,
        NodeResponse::MoveNode { .. } => GraphError::PreconditionViolation,
        NodeResponse::User(_) => GraphError::PreconditionViolation,
    }
}

/// The successor state and the synthesized events of one applicable event.
pub open spec fn step_resp<U, N, D, V>(m: EditorModel<N, D, V>, r: NodeResponse<U, N>) -> (
    EditorModel<N, D, V>,
    Seq<RespView<U, N>>,
) {
    match r {
        NodeResponse::ConnectEventStarted(nid, p) => (
            EditorModel { conn_in_progress: Some((nid, p)), ..m },
            Seq::empty(),
        ),
        NodeResponse::ConnectEventEnded { output, input } => (
            EditorModel {
                graph: GraphModel {
                    connections: conn_insert(m.graph.connections, input, output),
                    ..m.graph
                },
                ..m
            },
            Seq::empty(),
        ),
        NodeResponse::CreatedNode(_) => (m, Seq::empty()),
        NodeResponse::SelectNode(nid) => (
            EditorModel { selected: seq![nid], ..m },
            Seq::empty(),
        ),
        NodeResponse::DeleteNodeUi(nid) => (
            EditorModel {
                graph: GraphModel {
                    nodes: m.graph.nodes.remove(nid),
                    inputs: m.graph.inputs.remove_keys(
                        GraphModel::<N, D, V>::input_ids_of(m.graph.nodes[nid]),
                    ),
                    outputs: m.graph.outputs.remove_keys(
                        GraphModel::<N, D, V>::output_ids_of(m.graph.nodes[nid]),
                    ),
                    connections: m.graph.surviving_connections(nid),
                },
                order: ids_without(m.order, nid),
                selected: ids_without(m.selected, nid),
                positions: m.positions.remove(nid),
                ..m
            },
            disconnect_views(m.graph.severed_connections(nid)).push(
                RespView::DeleteFull(nid, m.graph.nodes[nid]),
            ),
        ),
        NodeResponse::DisconnectEvent { output, input } => (
            EditorModel {
                graph: GraphModel {
                    connections: conns_without(m.graph.connections, input),
                    ..m.graph
                },
                conn_in_progress: Some(
                    (m.graph.outputs[output].node, AnyParameterId::Output(output)),
                ),
                ..m
            },
            Seq::empty(),
        ),
        NodeResponse::RaiseNode(nid) => (
            EditorModel { order: ids_without(m.order, nid).push(nid), ..m },
            Seq::empty(),
        ),
        NodeResponse::MoveNode { node, drag_delta } => (
            EditorModel {
                positions: moved_positions(m.positions, m.selected, node, drag_delta),
                ..m
            },
            Seq::empty(),
        ),
        NodeResponse::User(_) => (m, Seq::empty()),
        NodeResponse::DeleteNodeFull { .. } => (m, Seq::empty()),
    }
}

/// What a whole response list does: the final state, the synthesized events
/// in order, and — on the first inapplicable event — the error, with the
/// valid prefix applied.
pub ghost struct RunOutcome<U, N, D, V> {
    pub state: EditorModel<N, D, V>,
    pub emitted: Seq<RespView<U, N>>,
    pub err: Option<GraphError>,
}

/// Fold the events over the state, front to back, stopping at the first
/// inapplicable one.
pub open spec fn run_resps<U, N, D, V>(
    m: EditorModel<N, D, V>,
    rs: Seq<NodeResponse<U, N>>,
) -> RunOutcome<U, N, D, V>
    decreases rs.len(),
{
    if rs.len() == 0 {
        RunOutcome { state: m, emitted: Seq::empty(), err: None }
    } else if !resp_valid(m, rs[0]) {
        RunOutcome { state: m, emitted: Seq::empty(), err: Some(resp_error(m, rs[0])) }
    } else {
        let (m1, e1) = step_resp(m, rs[0]);
        let rest = run_resps(m1, rs.drop_first());
        RunOutcome { state: rest.state, emitted: e1 + rest.emitted, err: rest.err }
    }
}

impl<N, D, V, NodeTemplate, UserState> GraphEditorState<N, D, V, NodeTemplate, UserState> {
    /// Apply one interaction event, per the mutation rules, and return the
    /// events it synthesizes. An inapplicable event (a stale id, or an event
    /// only the reducer itself may synthesize) yields an error and leaves
    /// the state untouched.
    pub fn apply_response<U>(&mut self, r: &NodeResponse<U, N>) -> (res: Result<
        Vec<NodeResponse<U, N>>,
        GraphError,
    >)
        requires
            old(self).wf(),
        ensures
            final(self).wf(),
            ({
                let stepped = step_resp(old(self)@, *r);
                match res {
                    Ok(extras) => resp_valid(old(self)@, *r) && final(self)@ == stepped.0
                        && views_of(extras@) == stepped.1,
                    Err(e) => !resp_valid(old(self)@, *r) && e == resp_error(old(self)@, *r)
                        && final(self)@ == old(self)@,
                }
            }),
    {
        let ghost pre = self@;
        match r {
            NodeResponse::ConnectEventStarted(nid, p) => {
                self.connection_in_progress = Some((*nid, *p));
                let extras: Vec<NodeResponse<U, N>> = Vec::new();
                proof {
                    assert(self.node_orientations == old(self).node_orientations);
                    assert(self@ =~= step_resp(pre, *r).0);
                    assert(views_of(extras@) =~= step_resp(pre, *r).1);
                }
                Ok(extras)
            },
            NodeResponse::ConnectEventEnded { output, input } => {
                if !self.graph.contains_input(*input) {
                    return Err(GraphError::StaleIdentifier(AnyParameterId::Input(*input)));
                }
                if !self.graph.contains_output(*output) {
                    return Err(GraphError::StaleIdentifier(AnyParameterId::Output(*output)));
                }
                self.graph.add_connection(*output, *input);
                let extras: Vec<NodeResponse<U, N>> = Vec::new();
                proof {
                    let conns = pre.graph.connections;
                    if exists|j: int| 0 <= j < conns.len() && conns[j].0 == *input {
                        let j = choose|j: int| 0 <= j < conns.len() && conns[j].0 == *input;
                        assert(self@.graph.connections == conns.update(j, (*input, *output)));
                        assert(conn_insert(conns, *input, *output) == conns.update(
                            j,
                            (*input, *output),
                        ));
                    } else {
                        assert(self@.graph.connections == conns.push((*input, *output)));
                    }
                    assert(self@.graph =~= step_resp(pre, *r).0.graph);
                    assert(self.node_orientations == old(self).node_orientations);
                    assert(self@ =~= step_resp(pre, *r).0);
                    assert(views_of(extras@) =~= step_resp(pre, *r).1);
                }
                Ok(extras)
            },
            NodeResponse::CreatedNode(_) => {
                let extras: Vec<NodeResponse<U, N>> = Vec::new();
                proof {
                    assert(self.node_orientations == old(self).node_orientations);
                    assert(self@ =~= step_resp(pre, *r).0);
                    assert(views_of(extras@) =~= step_resp(pre, *r).1);
                }
                Ok(extras)
            },
            NodeResponse::SelectNode(nid) => {
                if !self.graph.contains_node(*nid) {
                    return Err(GraphError::PreconditionViolation);
                }
                let mut sel: Vec<NodeId> = Vec::new();
                sel.push(*nid);
                self.selected_nodes = sel;
                let extras: Vec<NodeResponse<U, N>> = Vec::new();
                proof {
                    assert(self@.selected =~= seq![*nid]);
                    assert(self.node_orientations == old(self).node_orientations);
                    assert(self@ =~= step_resp(pre, *r).0);
                    assert(views_of(extras@) =~= step_resp(pre, *r).1);
                }
                Ok(extras)
            },
            NodeResponse::DeleteNodeUi(nid) => {
                if !self.graph.contains_node(*nid) {
                    return Err(GraphError::PreconditionViolation);
                }
                let (node, severed) = self.graph.remove_node(*nid);
                let mut extras: Vec<NodeResponse<U, N>> = Vec::new();
                let mut j: usize = 0;
                while j < severed.len()
                    invariant
                        0 <= j <= severed@.len(),
                        views_of(extras@) == disconnect_views::<U, N>(severed@.take(j as int)),
                    decreases severed@.len() - j,
                {
                    let c = severed[j];
                    let ghost extras_before = extras@;
                    extras.push(NodeResponse::DisconnectEvent { input: c.0, output: c.1 });
                    proof {
                        assert(severed@[j as int] == c);
                        crate::response::lemma_views_of_push(
                            extras_before,
                            NodeResponse::DisconnectEvent { input: c.0, output: c.1 },
                        );
                        assert(resp_view(NodeResponse::<U, N>::DisconnectEvent {
                            input: c.0,
                            output: c.1,
                        }) == RespView::<U, N>::Disconnect(c.0, c.1));
                        assert(severed@.take(j as int + 1).drop_last() =~= severed@.take(j as int));
                        assert(views_of(extras@) =~= disconnect_views::<U, N>(
                            severed@.take(j as int + 1),
                        ));
                    }
                    j = j + 1;
                }
                proof {
                    assert(severed@.take(severed@.len() as int) =~= severed@);
                }
                extras.push(NodeResponse::DeleteNodeFull { node_id: *nid, node });
                self.node_positions.remove(*nid);
                remove_id(&mut self.selected_nodes, *nid);
                remove_id(&mut self.node_order, *nid);
                proof {
                    assert(self.node_orientations == old(self).node_orientations);
                    let post = self@;
                    let target = step_resp(pre, *r).0;
                    assert(post.graph =~= target.graph);
                    assert(post =~= target);
                    assert(views_of(extras@) =~= step_resp(pre, *r).1);
                    assert forall|i: int|
                        0 <= i < post.order.len() implies post.graph.nodes.dom().contains(
                        #[trigger] post.order[i],
                    ) by {
                        assert(post.order.contains(post.order[i]));
                        assert(pre.order.contains(post.order[i]) && post.order[i] != *nid);
                        let a = choose|a: int|
                            0 <= a < pre.order.len() && pre.order[a] == post.order[i];
                        assert(pre.graph.nodes.dom().contains(pre.order[a]));
                    }
                    assert forall|q: NodeId|
                        #[trigger] post.graph.nodes.dom().contains(q) implies post.order.contains(
                        q,
                    ) by {
                        assert(pre.graph.nodes.dom().contains(q) && q != *nid);
                        assert(pre.order.contains(q));
                    }
                    assert(post.order_consistent());
                    assert(post.positions.dom() =~= post.graph.nodes.dom());
                    assert forall|i: int|
                        0 <= i < post.selected.len() implies post.graph.nodes.dom().contains(
                        #[trigger] post.selected[i],
                    ) by {
                        assert(post.selected.contains(post.selected[i]));
                        assert(pre.selected.contains(post.selected[i]) && post.selected[i] != *nid);
                        let a = choose|a: int|
                            0 <= a < pre.selected.len() && pre.selected[a] == post.selected[i];
                        assert(pre.graph.nodes.dom().contains(pre.selected[a]));
                    }
                    assert(post.selection_consistent());
                    assert(post.wf());
                }
                Ok(extras)
            },
            NodeResponse::DisconnectEvent { output, input } => {
                if !self.graph.contains_output(*output) {
                    return Err(GraphError::StaleIdentifier(AnyParameterId::Output(*output)));
                }
                let owner = self.graph.get_output(*output).node;
                let _freed = self.graph.remove_connection(*input);
                self.connection_in_progress = Some((owner, AnyParameterId::Output(*output)));
                let extras: Vec<NodeResponse<U, N>> = Vec::new();
                proof {
                    assert(self@.graph =~= step_resp(pre, *r).0.graph);
                    assert(self.node_orientations == old(self).node_orientations);
                    assert(self@ =~= step_resp(pre, *r).0);
                    assert(views_of(extras@) =~= step_resp(pre, *r).1);
                }
                Ok(extras)
            },
            NodeResponse::RaiseNode(nid) => {
                if !ids_contain(&self.node_order, *nid) {
                    return Err(GraphError::PreconditionViolation);
                }
                remove_id(&mut self.node_order, *nid);
                self.node_order.push(*nid);
                let extras: Vec<NodeResponse<U, N>> = Vec::new();
                proof {
                    assert(self.node_orientations == old(self).node_orientations);
                    let post = self@;
                    let trimmed = ids_without(pre.order, *nid);
                    assert(post.order =~= trimmed.push(*nid));
                    assert(post =~= step_resp(pre, *r).0);
                    assert(views_of(extras@) =~= step_resp(pre, *r).1);
                    assert(!trimmed.contains(*nid));
                    assert forall|i: int, j: int| 0 <= i < j < post.order.len() implies post.order[i]
                        != post.order[j] by {
                        if j < post.order.len() - 1 {
                            assert(post.order[i] == trimmed[i]);
                            assert(post.order[j] == trimmed[j]);
                        } else {
                            assert(post.order[i] == trimmed[i]);
                            assert(trimmed.contains(trimmed[i]));
                        }
                    }
                    assert forall|i: int|
                        0 <= i < post.order.len() implies post.graph.nodes.dom().contains(
                        #[trigger] post.order[i],
                    ) by {
                        if i < post.order.len() - 1 {
                            assert(post.order[i] == trimmed[i]);
                            assert(trimmed.contains(trimmed[i]));
                            assert(pre.order.contains(trimmed[i]));
                            let a = choose|a: int|
                                0 <= a < pre.order.len() && pre.order[a] == trimmed[i];
                            assert(pre.graph.nodes.dom().contains(pre.order[a]));
                        } else {
                            assert(post.order[i] == *nid);
                            assert(pre.order.contains(*nid));
                            let a = choose|a: int| 0 <= a < pre.order.len() && pre.order[a] == *nid;
                            assert(pre.graph.nodes.dom().contains(pre.order[a]));
                        }
                    }
                    assert forall|q: NodeId|
                        #[trigger] post.graph.nodes.dom().contains(q) implies post.order.contains(
                        q,
                    ) by {
                        if q == *nid {
                            assert(post.order[post.order.len() - 1] == q);
                        } else {
                            assert(pre.order.contains(q));
                            assert(trimmed.contains(q));
                            let a = choose|a: int| 0 <= a < trimmed.len() && trimmed[a] == q;
                            assert(post.order[a] == q);
                        }
                    }
                    assert(post.order_consistent());
                    assert(post.wf());
                }
                Ok(extras)
            },
            NodeResponse::MoveNode { node, drag_delta } => {
                if !self.graph.contains_node(*node) {
                    return Err(GraphError::PreconditionViolation);
                }
                let delta = *drag_delta;
                proof {
                    assert(pre.positions.dom().contains(*node));
                }
                let p = *self.node_positions.get(*node).unwrap();
                self.node_positions.insert(*node, p.translated(delta));
                proof {
                    assert_maps_equal!(
                        self.node_positions@,
                        moved_partial(pre.positions, pre.selected, *node, delta, 0),
                        q => {}
                    );
                }
                let group = ids_contain(&self.selected_nodes, *node) && self.selected_nodes.len()
                    > 1;
                if group {
                    let mut j: usize = 0;
                    while j < self.selected_nodes.len()
                        invariant
                            0 <= j <= pre.selected.len(),
                            pre.wf(),
                            pre.selected.contains(*node),
                            pre.selected.len() > 1,
                            self.selected_nodes@ == pre.selected,
                            self.graph == old(self).graph,
                            self@.graph == pre.graph,
                            self.node_order@ == pre.order,
                            self.connection_in_progress == pre.conn_in_progress,
                            self.ongoing_box_selection == pre.box_sel,
                            self.node_orientations == old(self).node_orientations,
                            self.node_orientations@ == pre.orientations,
                            self.node_finder == pre.finder,
                            self.pan_zoom.pan == pre.pan,
                            self.node_positions.wf(),
                            self.node_positions@ == moved_partial(
                                pre.positions,
                                pre.selected,
                                *node,
                                delta,
                                j as int,
                            ),
                        decreases pre.selected.len() - j,
                    {
                        let s = self.selected_nodes[j];
                        proof {
                            assert(pre.selected[j as int] == s);
                            assert(pre.graph.nodes.dom().contains(s));
                            assert(pre.positions.dom().contains(s));
                        }
                        if s != *node {
                            let ps = *self.node_positions.get(s).unwrap();
                            proof {
                                assert forall|a: int| 0 <= a < j implies pre.selected[a] != s by {
                                    assert(pre.selected[a] != pre.selected[j as int]);
                                }
                                assert(ps == pre.positions[s]);
                            }
                            self.node_positions.insert(s, ps.translated(delta));
                            proof {
                                assert_maps_equal!(
                                    self.node_positions@,
                                    moved_partial(pre.positions, pre.selected, *node, delta, j as int + 1),
                                    q => {
                                        if q != s {
                                            if exists|a: int| 0 <= a < j as int + 1 && pre.selected[a] == q && q != *node {
                                                let a = choose|a: int| 0 <= a < j as int + 1 && pre.selected[a] == q && q != *node;
                                                assert(a < j as int);
                                            }
                                        } else {
                                            assert(pre.selected[j as int] == s);
                                        }
                                    }
                                );
                            }
                        } else {
                            proof {
                                assert_maps_equal!(
                                    self.node_positions@,
                                    moved_partial(pre.positions, pre.selected, *node, delta, j as int + 1),
                                    q => {
                                        if exists|a: int| 0 <= a < j as int + 1 && pre.selected[a] == q && q != *node {
                                            let a = choose|a: int| 0 <= a < j as int + 1 && pre.selected[a] == q && q != *node;
                                            assert(a < j as int);
                                        }
                                    }
                                );
                            }
                        }
                        j = j + 1;
                    }
                    proof {
                        assert_maps_equal!(
                            self.node_positions@,
                            moved_positions(pre.positions, pre.selected, *node, delta),
                            q => {
                                if exists|a: int| 0 <= a < pre.selected.len() && pre.selected[a] == q && q != *node {
                                    assert(pre.selected.contains(q));
                                }
                                if pre.selected.contains(q) && q != *node {
                                    let a = choose|a: int| 0 <= a < pre.selected.len() && pre.selected[a] == q;
                                }
                            }
                        );
                    }
                } else {
                    proof {
                        assert_maps_equal!(
                            self.node_positions@,
                            moved_positions(pre.positions, pre.selected, *node, delta),
                            q => {}
                        );
                    }
                }
                let extras: Vec<NodeResponse<U, N>> = Vec::new();
                proof {
                    assert(self.node_orientations == old(self).node_orientations);
                    assert(self@ =~= step_resp(pre, *r).0);
                    assert(views_of(extras@) =~= step_resp(pre, *r).1);
                    assert(self@.positions.dom() =~= pre.positions.dom());
                    assert(self@.wf());
                }
                Ok(extras)
            },
            NodeResponse::User(_) => {
                let extras: Vec<NodeResponse<U, N>> = Vec::new();
                proof {
                    assert(self.node_orientations == old(self).node_orientations);
                    assert(self@ =~= step_resp(pre, *r).0);
                    assert(views_of(extras@) =~= step_resp(pre, *r).1);
                }
                Ok(extras)
            },
            NodeResponse::DeleteNodeFull { .. } => Err(GraphError::PreconditionViolation),
        }
    }

    /// Apply a whole response list in order, collecting the synthesized
    /// events. The first inapplicable event stops the run with its error;
    /// the valid prefix stays applied.
    pub fn process_responses<U>(&mut self, responses: &Vec<NodeResponse<U, N>>) -> (res: Result<
        Vec<NodeResponse<U, N>>,
        GraphError,
    >)
        requires
            old(self).wf(),
        ensures
            final(self).wf(),
            ({
                let out = run_resps(old(self)@, responses@);
                match res {
                    Ok(extras) => out.err is None && final(self)@ == out.state && views_of(extras@)
                        == out.emitted,
                    Err(e) => out.err == Some(e) && final(self)@ == out.state,
                }
            }),
    {
        let ghost m0 = self@;
        let mut extras: Vec<NodeResponse<U, N>> = Vec::new();
        let mut i: usize = 0;
        while i < responses.len()
            invariant
                0 <= i <= responses@.len(),
                old(self)@ == m0,
                self.wf(),
                run_resps(m0, responses@.take(i as int)).err is None,
                self@ == run_resps(m0, responses@.take(i as int)).state,
                views_of(extras@) == run_resps(m0, responses@.take(i as int)).emitted,
            decreases responses@.len() - i,
        {
            let ghost mcur = self@;
            let r = &responses[i];
            let step_result = self.apply_response(r);
            match step_result {
                Ok(mut step_extras) => {
                    proof {
                        let x = responses@[i as int];
                        assert(responses@.take(i as int + 1) =~= responses@.take(i as int)
                            + seq![x]);
                        lemma_run_split(m0, responses@.take(i as int), seq![x]);
                        assert(seq![x].len() == 1 && seq![x][0] == x);
                        assert(seq![x].drop_first() =~= Seq::<NodeResponse<U, N>>::empty());
                        assert(resp_valid(mcur, x));
                        assert(run_resps(
                            step_resp(mcur, x).0,
                            Seq::<NodeResponse<U, N>>::empty(),
                        ).err is None);
                        assert(run_resps(mcur, seq![x]).state == step_resp(mcur, x).0);
                        assert(step_resp(mcur, x).1 + Seq::<RespView<U, N>>::empty() =~= step_resp(
                            mcur,
                            x,
                        ).1);
                        crate::response::lemma_views_of_add(extras@, step_extras@);
                    }
                    extras.append(&mut step_extras);
                    proof {
                        assert(views_of(extras@) =~= run_resps(
                            m0,
                            responses@.take(i as int + 1),
                        ).emitted);
                    }
                },
                Err(e) => {
                    proof {
                        assert(responses@ =~= responses@.take(i as int) + responses@.skip(
                            i as int,
                        ));
                        lemma_run_split(m0, responses@.take(i as int), responses@.skip(i as int));
                        assert(responses@.skip(i as int)[0] == responses@[i as int]);
                    }
                    return Err(e);
                },
            }
            i = i + 1;
        }
        proof {
            assert(responses@.take(responses@.len() as int) =~= responses@);
        }
        Ok(extras)
    }

    /// Build one node from the kind `kinds[idx]`: a fresh id, labeled and
    /// built by that kind's template, placed at the pointer (offset by
    /// negative pan), appended to the z-order with the default orientation;
    /// the menu closes. Creates exactly when the index names a kind.
    fn create_confirmed_kind(
        &mut self,
        input: &FrameInput,
        kinds: &Vec<NodeTemplate>,
        idx: usize,
        user_state: &mut UserState,
    ) -> (res: Option<NodeId>)
        where
            NodeTemplate: NodeTemplateTrait<
                NodeData = N,
                DataType = D,
                ValueType = V,
                UserState = UserState,
            >,
        requires
            old(self).wf(),
        ensures
            final(self).wf(),
            match res {
                Some(id) => (idx as int) < kinds@.len() && created_state(
                    old(self)@,
                    *input,
                    final(self)@,
                    id,
                ),
                None => (idx as int) >= kinds@.len() && final(self)@ == old(self)@,
            },
    {
        let ghost m0 = self@;
        if idx >= kinds.len() {
            return None;
        }
        let kind = &kinds[idx];
        let label = kind.node_graph_label(user_state);
        let data = kind.user_data(user_state);
        let id = self.graph.add_node(label, data);
        let pos = creation_position(input, self.pan_zoom.pan);
        self.node_positions.insert(id, pos);
        self.node_orientations.insert(id, NodeOrientation::LeftToRight);
        self.node_order.push(id);
        let ghost m_add = self@;
        kind.build_node(&mut self.graph, user_state, id);
        self.node_finder = None;
        proof {
            let m1 = self@;
            assert(build_extends(m_add.graph, m1.graph, id));
            assert(m1.graph.nodes.dom() =~= m0.graph.nodes.dom().insert(id));
            assert forall|q: NodeId|
                q != id && m0.graph.nodes.dom().contains(q) implies m1.graph.nodes[q]
                == #[trigger] m0.graph.nodes[q] by {
                assert(m_add.graph.nodes[q] == m0.graph.nodes[q]);
            }
            assert(created_state(m0, *input, m1, id));
            assert forall|i2: int, j2: int|
                0 <= i2 < j2 < m1.order.len() implies m1.order[i2] != m1.order[j2] by {
                if j2 == m1.order.len() - 1 {
                    assert(m1.order[i2] == m0.order[i2]);
                    assert(m0.graph.nodes.dom().contains(m0.order[i2]));
                } else {
                    assert(m1.order[i2] == m0.order[i2]);
                    assert(m1.order[j2] == m0.order[j2]);
                }
            }
            assert forall|i2: int|
                0 <= i2 < m1.order.len() implies m1.graph.nodes.dom().contains(
                #[trigger] m1.order[i2],
            ) by {
                if i2 < m1.order.len() - 1 {
                    assert(m1.order[i2] == m0.order[i2]);
                    assert(m0.graph.nodes.dom().contains(m0.order[i2]));
                } else {
                    assert(m1.order[i2] == id);
                }
            }
            assert forall|q: NodeId|
                #[trigger] m1.graph.nodes.dom().contains(q) implies m1.order.contains(q) by {
                if q == id {
                    assert(m1.order[m1.order.len() - 1] == q);
                } else {
                    assert(m0.order.contains(q));
                    let a = choose|a: int| 0 <= a < m0.order.len() && m0.order[a] == q;
                    assert(m1.order[a] == q);
                }
            }
            assert(m1.order_consistent());
            assert(m1.positions.dom() =~= m1.graph.nodes.dom());
            assert forall|i2: int|
                0 <= i2 < m1.selected.len() implies m1.graph.nodes.dom().contains(
                #[trigger] m1.selected[i2],
            ) by {
                assert(m0.graph.nodes.dom().contains(m0.selected[i2]));
            }
            assert(self.wf());
        }
        Some(id)
    }

    /// Confirm a pending creation-menu choice: while the menu is open and
    /// the caller confirmed a kind this frame, build a node from that kind
    /// via [`GraphEditorState::create_confirmed_kind`]. A node is created
    /// exactly when the menu is open, a choice arrived, and the confirmed
    /// index names one of the enumerated kinds.
    fn confirm_creation<Kinds>(
        &mut self,
        input: &FrameInput,
        all_kinds: &Kinds,
        user_state: &mut UserState,
    ) -> (res: Option<NodeId>)
        where
            Kinds: NodeTemplateIter<Item = NodeTemplate>,
            NodeTemplate: NodeTemplateTrait<
                NodeData = N,
                DataType = D,
                ValueType = V,
                UserState = UserState,
            >,
        requires
            old(self).wf(),
        ensures
            final(self).wf(),
            ({
                let nk = all_kinds.all_kinds_spec().len() as int;
                match res {
                    Some(id) => old(self)@.finder is Some && input.finder_choice is Some && (
                    input.finder_choice.unwrap() as int) < nk && created_state(
                        old(self)@,
                        *input,
                        final(self)@,
                        id,
                    ),
                    None => final(self)@ == old(self)@ && !(old(self)@.finder is Some
                        && input.finder_choice is Some && (input.finder_choice.unwrap() as int)
                        < nk),
                }
            }),
    {
        if self.node_finder.is_none() {
            return None;
        }
        let idx = match input.finder_choice {
            Some(idx) => idx,
            None => {
                return None;
            },
        };
        let kinds = all_kinds.all_kinds();
        self.create_confirmed_kind(input, &kinds, idx, user_state)
    }

    /// Recompute the selection from an ongoing box selection: exactly the
    /// live nodes whose recorded rectangle intersects the rectangle spanned
    /// by the drag start and the pointer. Replaces the selection; a no-op
    /// when no box selection is ongoing.
    fn apply_box_phase(&mut self, input: &FrameInput)
        requires
            old(self).wf(),
            input.wf(),
        ensures
            final(self).wf(),
            final(self)@ == box_phase(old(self)@, *input),
    {
        let ghost m2 = self@;
        let start = match self.ongoing_box_selection {
            Some(s) => s,
            None => {
                proof {
                    assert(box_phase(m2, *input) == m2);
                }
                return ;
            },
        };
        let selrect = Rect2::from_two_pos(input.cursor_pos, start);
        let mut sel: Vec<NodeId> = Vec::new();
        let mut bi: usize = 0;
        while bi < input.node_rects.len()
            invariant
                0 <= bi <= input.node_rects@.len(),
                input.wf(),
                self@ == m2,
                self.wf(),
                m2.box_sel == Some(start),
                selrect == Rect2::spec_from_two_pos(input.cursor_pos, start),
                sel@ == box_ids_of(m2, input.cursor_pos, start, input.node_rects@.take(bi as int)),
                forall|a: int|
                    0 <= a < sel@.len() ==> exists|j: int|
                        0 <= j < bi && #[trigger] sel@[a] == input.node_rects@[j].0,
                forall|a: int, b: int| 0 <= a < b < sel@.len() ==> sel@[a] != sel@[b],
                forall|a: int|
                    0 <= a < sel@.len() ==> m2.graph.nodes.dom().contains(#[trigger] sel@[a]),
            decreases input.node_rects@.len() - bi,
        {
            let entry = input.node_rects[bi];
            proof {
                lemma_box_ids_step(m2, input.cursor_pos, start, input.node_rects@, bi as int);
                assert(input.node_rects@[bi as int] == entry);
            }
            if selrect.intersects(&entry.1) && self.graph.contains_node(entry.0) {
                let ghost sel_before = sel@;
                sel.push(entry.0);
                proof {
                    assert forall|a: int| 0 <= a < sel@.len() implies exists|j: int|
                        0 <= j < bi + 1 && #[trigger] sel@[a] == input.node_rects@[j].0 by {
                        if a < sel_before.len() {
                            let j = choose|j: int|
                                0 <= j < bi && #[trigger] sel_before[a] == input.node_rects@[j].0;
                            assert(sel@[a] == input.node_rects@[j].0);
                        } else {
                            assert(sel@[a] == input.node_rects@[bi as int].0);
                        }
                    }
                    assert forall|a: int, b: int| 0 <= a < b < sel@.len() implies sel@[a]
                        != sel@[b] by {
                        if b == sel@.len() - 1 {
                            assert(sel@[a] == sel_before[a]);
                            let j = choose|j: int|
                                0 <= j < bi && #[trigger] sel_before[a] == input.node_rects@[j].0;
                            assert(input.node_rects@[j].0 != input.node_rects@[bi as int].0);
                        } else {
                            assert(sel@[a] == sel_before[a]);
                            assert(sel@[b] == sel_before[b]);
                        }
                    }
                }
            }
            bi = bi + 1;
        }
        proof {
            assert(input.node_rects@.take(input.node_rects@.len() as int) =~= input.node_rects@);
        }
        self.selected_nodes = sel;
        proof {
            assert(self@ =~= box_phase(m2, *input));
            assert(self@.selection_consistent());
            assert(self.wf());
        }
    }

    /// Apply the global pointer transitions in their fixed order.
    fn apply_pointer_phase(&mut self, input: &FrameInput, in_editor: bool, in_finder: bool)
        requires
            old(self).wf(),
        ensures
            final(self).wf(),
            final(self)@ == pointer_phase(old(self)@, *input, in_editor, in_finder),
    {
        let ghost m3 = self@;
        if input.any_released && self.connection_in_progress.is_some() {
            self.connection_in_progress = None;
        }
        if input.secondary_released && !in_finder {
            self.node_finder = Some(NodeFinder::new_at(input.cursor_pos));
        }
        if input.escape_pressed {
            self.node_finder = None;
        }
        if input.background_dragged && input.middle_down {
            self.pan_zoom.pan = self.pan_zoom.pan.plus(input.pointer_delta);
        }
        if input.any_pressed && !in_finder {
            if in_editor {
                self.selected_nodes = Vec::new();
            }
            self.node_finder = None;
        }
        if input.drag_started_on_background && input.primary_down {
            self.ongoing_box_selection = Some(input.cursor_pos);
        }
        if input.primary_released || input.drag_released_on_background {
            self.ongoing_box_selection = None;
        }
        proof {
            assert(self@.selected =~= pointer_phase(m3, *input, in_editor, in_finder).selected);
            assert(self@ =~= pointer_phase(m3, *input, in_editor, in_finder));
            assert(self.wf());
        }
    }

    /// One reducer invocation: confirm a pending creation-menu choice,
    /// apply the caller's response list (the prepended ones first, then
    /// whatever the per-node interaction collected), recompute an ongoing
    /// box selection, apply the global pointer transitions, and return the
    /// full response list plus the two cursor-location flags.
    ///
    /// An inapplicable response — a stale id or an event only the reducer
    /// may synthesize — stops the run with its error, the valid prefix
    /// applied; this is reducer misuse, not a recoverable condition.
    pub fn draw_graph_editor<U, Kinds>(
        &mut self,
        input: &FrameInput,
        all_kinds: &Kinds,
        user_state: &mut UserState,
        prepend_responses: Vec<NodeResponse<U, N>>,
    ) -> (r: Result<GraphResponse<U, N>, GraphError>)
        where
            Kinds: NodeTemplateIter<Item = NodeTemplate>,
            NodeTemplate: NodeTemplateTrait<
                NodeData = N,
                DataType = D,
                ValueType = V,
                UserState = UserState,
            >,
        requires
            old(self).wf(),
            input.wf(),
        ensures
            final(self).wf(),
            ({
                let m0 = old(self)@;
                let in_editor = spec_cursor_in_editor(m0, *input);
                let in_finder = spec_cursor_in_finder(m0, *input);
                match r {
                    Ok(gr) => gr.cursor_in_editor == in_editor && gr.cursor_in_finder == in_finder
                        && exists|m1: EditorModel<N, D, V>, crseq: Seq<NodeResponse<U, N>>|
                        {
                            &&& #[trigger] creation_rel(
                                m0,
                                *input,
                                all_kinds.all_kinds_spec().len() as int,
                                m1,
                                crseq,
                            )
                            &&& run_resps(m1, prepend_responses@ + crseq).err is None
                            &&& final(self)@ == pointer_phase(
                                box_phase(run_resps(m1, prepend_responses@ + crseq).state, *input),
                                *input,
                                in_editor,
                                in_finder,
                            )
                            &&& views_of(gr.node_responses@) == views_of(prepend_responses@ + crseq)
                                + run_resps(m1, prepend_responses@ + crseq).emitted
                        },
                    Err(e) => exists|m1: EditorModel<N, D, V>, crseq: Seq<NodeResponse<U, N>>|
                        {
                            &&& #[trigger] creation_rel(
                                m0,
                                *input,
                                all_kinds.all_kinds_spec().len() as int,
                                m1,
                                crseq,
                            )
                            &&& run_resps(m1, prepend_responses@ + crseq).err == Some(e)
                            &&& final(self)@ == run_resps(m1, prepend_responses@ + crseq).state
                        },
                }
            }),
    {
        let ghost m0 = self@;
        let mut cursor_in_editor = input.editor_rect.contains(input.cursor_pos);
        let mut cursor_in_finder = false;
        if self.node_finder.is_some() {
            if let Some(fr) = input.finder_rect {
                if fr.contains(input.cursor_pos) {
                    cursor_in_editor = true;
                    cursor_in_finder = true;
                }
            }
        }
        proof {
            assert(cursor_in_finder == spec_cursor_in_finder(m0, *input));
            assert(cursor_in_editor == spec_cursor_in_editor(m0, *input));
        }
        let mut delayed = prepend_responses;
        let created = self.confirm_creation(input, all_kinds, user_state);
        let ghost m1 = self@;
        let ghost crseq: Seq<NodeResponse<U, N>> = match created {
            Some(id) => seq![NodeResponse::<U, N>::CreatedNode(id)],
            None => Seq::empty(),
        };
        let ghost nk = all_kinds.all_kinds_spec().len() as int;
        proof {
            assert(creation_rel(m0, *input, nk, m1, crseq));
        }
        if let Some(id) = created {
            delayed.push(NodeResponse::CreatedNode(id));
        }
        proof {
            assert(delayed@ =~= prepend_responses@ + crseq);
        }
        let pres = self.process_responses(&delayed);
        let mut extras = match pres {
            Ok(e) => e,
            Err(e) => {
                proof {
                    assert(creation_rel(m0, *input, nk, m1, crseq) && run_resps(
                        m1,
                        prepend_responses@ + crseq,
                    ).err == Some(e) && self@ == run_resps(m1, prepend_responses@ + crseq).state);
                }
                return Err(e);
            },
        };
        self.apply_box_phase(input);
        self.apply_pointer_phase(input, cursor_in_editor, cursor_in_finder);
        let ghost delayed_view = delayed@;
        let ghost extras_view = extras@;
        delayed.append(&mut extras);
        proof {
            crate::response::lemma_views_of_add(delayed_view, extras_view);
        }
        let gr = GraphResponse { node_responses: delayed, cursor_in_editor, cursor_in_finder };
        proof {
            assert(creation_rel(m0, *input, nk, m1, crseq) && run_resps(
                m1,
                prepend_responses@ + crseq,
            ).err is None && self@ == pointer_phase(
                box_phase(run_resps(m1, prepend_responses@ + crseq).state, *input),
                *input,
                spec_cursor_in_editor(m0, *input),
                spec_cursor_in_finder(m0, *input),
            ) && views_of(gr.node_responses@) == views_of(prepend_responses@ + crseq) + run_resps(
                m1,
                prepend_responses@ + crseq,
            ).emitted);
        }
        Ok(gr)
    }
}

/// Severing an input that no connection feeds is a no-op: the connection
/// list is returned unchanged.
pub proof fn lemma_disconnect_absent_is_noop(conns: Seq<(InputId, OutputId)>, input: InputId)
    requires
        forall|j: int| 0 <= j < conns.len() ==> (#[trigger] conns[j]).0 != input,
    ensures
        conns_without(conns, input) == conns,
    decreases conns.len(),
{
    reveal(Seq::filter);
    if conns.len() > 0 {
        assert forall|j: int| 0 <= j < conns.drop_last().len() implies (
        #[trigger] conns.drop_last()[j]).0 != input by {
            assert(conns[j].0 != input);
        }
        lemma_disconnect_absent_is_noop(conns.drop_last(), input);
        assert(conns[conns.len() - 1].0 != input);
        assert(conns_without(conns, input) =~= conns);
    }
}

/// Round trip: connecting `output` to a previously unconnected `input` and
/// then severing that input restores the connection list exactly. (The
/// connection operations leave the node and port stores untouched, so in
/// particular both ports' declared types are unchanged throughout.)
pub proof fn lemma_connect_disconnect_round_trip(
    conns: Seq<(InputId, OutputId)>,
    output: OutputId,
    input: InputId,
)
    requires
        forall|j: int| 0 <= j < conns.len() ==> (#[trigger] conns[j]).0 != input,
    ensures
        conns_without(conn_insert(conns, input, output), input) == conns,
{
    reveal(Seq::filter);
    let pushed = conns.push((input, output));
    assert(conn_insert(conns, input, output) == pushed);
    assert(pushed.drop_last() =~= conns);
    assert(pushed.last() == (input, output));
    lemma_disconnect_absent_is_noop(conns, input);
    assert(conns_without(pushed, input) == conns_without(conns, input));
}

/// Round trip at the store level: connecting `output` to a previously
/// unconnected `input` and then severing that input restores the whole
/// store. Nodes and ports are never touched by the connection operations,
/// so in particular both ports' declared types are as before.
pub proof fn lemma_round_trip_restores_graph<N, D, V>(
    g: GraphModel<N, D, V>,
    output: OutputId,
    input: InputId,
)
    requires
        forall|j: int| 0 <= j < g.connections.len() ==> (#[trigger] g.connections[j]).0 != input,
    ensures
        (GraphModel {
            connections: conns_without(conn_insert(g.connections, input, output), input),
            ..g
        }) == g,
{
    lemma_connect_disconnect_round_trip(g.connections, output, input);
    assert((GraphModel {
        connections: conns_without(conn_insert(g.connections, input, output), input),
        ..g
    }) =~= g);
}

impl<N, D, V> GraphModel<N, D, V> {
    /// The connections feeding one of `nid`'s inputs, in storage order.
    pub open spec fn incoming_connections(self, nid: NodeId) -> Seq<(InputId, OutputId)> {
        self.connections.filter(|c: (InputId, OutputId)| self.inputs[c.0].node == nid)
    }

    /// The connections fed by one of `nid`'s outputs, in storage order.
    pub open spec fn outgoing_connections(self, nid: NodeId) -> Seq<(InputId, OutputId)> {
        self.connections.filter(|c: (InputId, OutputId)| self.outputs[c.1].node == nid)
    }

    /// Nothing in the part of a connection list that survives removing
    /// `nid` touches a port of `nid`.
    pub proof fn lemma_surviving_untouched(self, nid: NodeId, conns: Seq<(InputId, OutputId)>)
        ensures
            forall|j: int|
                0 <= j < self.surviving_of(nid, conns).len() ==> !self.touches(
                    nid,
                    #[trigger] self.surviving_of(nid, conns)[j],
                ),
        decreases conns.len(),
    {
        reveal(Seq::filter);
        if conns.len() > 0 {
            self.lemma_surviving_untouched(nid, conns.drop_last());
        }
    }

    /// Cascade count for a prefix: when no connection touches `nid` in both
    /// roles at once, the severed part of the list is exactly as long as
    /// its incoming plus its outgoing parts.
    proof fn lemma_cascade_count_prefix(self, nid: NodeId, conns: Seq<(InputId, OutputId)>)
        requires
            forall|j: int|
                0 <= j < conns.len() ==> !(self.inputs[(#[trigger] conns[j]).0].node == nid
                    && self.outputs[conns[j].1].node == nid),
        ensures
            self.severed_of(nid, conns).len() == conns.filter(
                |c: (InputId, OutputId)| self.inputs[c.0].node == nid,
            ).len() + conns.filter(|c: (InputId, OutputId)| self.outputs[c.1].node == nid).len(),
        decreases conns.len(),
    {
        reveal(Seq::filter);
        if conns.len() > 0 {
            assert forall|j: int| 0 <= j < conns.drop_last().len() implies !(self.inputs[(
            #[trigger] conns.drop_last()[j]).0].node == nid && self.outputs[conns.drop_last()[j].1].node
                == nid) by {
                assert(conns[j] == conns.drop_last()[j]);
            }
            self.lemma_cascade_count_prefix(nid, conns.drop_last());
            assert(conns[conns.len() - 1] == conns.last());
        }
    }

    /// Cascade: removing a node with `k` incoming and `m` outgoing links
    /// severs exactly `k + m` connections — each reported as one disconnect
    /// event before the final deletion event — provided no single
    /// connection touches the node in both roles; afterwards no surviving
    /// connection touches any of its ports.
    pub proof fn lemma_remove_node_cascade(self, nid: NodeId)
        requires
            forall|j: int|
                0 <= j < self.connections.len() ==> !(self.inputs[(
                #[trigger] self.connections[j]).0].node == nid && self.outputs[self.connections[j].1].node
                    == nid),
        ensures
            self.severed_connections(nid).len() == self.incoming_connections(nid).len()
                + self.outgoing_connections(nid).len(),
            forall|j: int|
                0 <= j < self.surviving_connections(nid).len() ==> !self.touches(
                    nid,
                    #[trigger] self.surviving_connections(nid)[j],
                ),
    {
        self.lemma_cascade_count_prefix(nid, self.connections);
        self.lemma_surviving_untouched(nid, self.connections);
    }
}

/// Is the pointer over the creation menu? Only meaningful while the menu is
/// open and was drawn this frame.
pub open spec fn spec_cursor_in_finder<N, D, V>(m0: EditorModel<N, D, V>, input: FrameInput) -> bool {
    m0.finder is Some && match input.finder_rect {
        Some(fr) => fr.spec_contains(input.cursor_pos),
        None => false,
    }
}

/// Is the pointer over the editing surface? The open creation menu counts
/// as inside the editor even when it floats outside the editor rectangle.
pub open spec fn spec_cursor_in_editor<N, D, V>(m0: EditorModel<N, D, V>, input: FrameInput) -> bool {
    input.editor_rect.spec_contains(input.cursor_pos) || spec_cursor_in_finder(m0, input)
}

/// Where a node confirmed in the creation menu is placed: the pointer,
/// offset by negative pan and the editor origin.
pub open spec fn spec_creation_position(input: FrameInput, pan: Delta2) -> Point2 {
    Point2 {
        x: sat_sub_spec(
            sat_sub_spec(input.cursor_pos.x as int, pan.x as int),
            input.editor_rect.min.x as int,
        ) as i64,
        y: sat_sub_spec(
            sat_sub_spec(input.cursor_pos.y as int, pan.y as int),
            input.editor_rect.min.y as int,
        ) as i64,
    }
}

/// Compute the creation position.
pub fn creation_position(input: &FrameInput, pan: Delta2) -> (r: Point2)
    ensures
        r == spec_creation_position(*input, pan),
{
    Point2 {
        x: sat_sub(sat_sub(input.cursor_pos.x, pan.x), input.editor_rect.min.x),
        y: sat_sub(sat_sub(input.cursor_pos.y, pan.y), input.editor_rect.min.y),
    }
}

/// The ids whose recorded rectangle intersects the selection rectangle and
/// which are live, in recording order.
pub open spec fn box_ids_of<N, D, V>(
    m: EditorModel<N, D, V>,
    cursor: Point2,
    start: Point2,
    rects: Seq<(NodeId, Rect2)>,
) -> Seq<NodeId> {
    rects.filter(
        |p: (NodeId, Rect2)|
            Rect2::spec_from_two_pos(cursor, start).spec_intersects(p.1)
                && m.graph.nodes.dom().contains(p.0),
    ).map_values(|p: (NodeId, Rect2)| p.0)
}

/// Box selection grows pointwise along the recorded rectangles.
pub proof fn lemma_box_ids_step<N, D, V>(
    m: EditorModel<N, D, V>,
    cursor: Point2,
    start: Point2,
    rects: Seq<(NodeId, Rect2)>,
    i: int,
)
    requires
        0 <= i < rects.len(),
    ensures
        box_ids_of(m, cursor, start, rects.take(i + 1)) == if Rect2::spec_from_two_pos(
            cursor,
            start,
        ).spec_intersects(rects[i].1) && m.graph.nodes.dom().contains(rects[i].0) {
            box_ids_of(m, cursor, start, rects.take(i)).push(rects[i].0)
        } else {
            box_ids_of(m, cursor, start, rects.take(i))
        },
{
    reveal(Seq::filter);
    assert(rects.take(i + 1).drop_last() =~= rects.take(i));
    assert(rects.take(i + 1).last() == rects[i]);
    let pred = |p: (NodeId, Rect2)|
        Rect2::spec_from_two_pos(cursor, start).spec_intersects(p.1)
            && m.graph.nodes.dom().contains(p.0);
    if pred(rects[i]) {
        assert(rects.take(i + 1).filter(pred) == rects.take(i).filter(pred).push(rects[i]));
        assert(box_ids_of(m, cursor, start, rects.take(i + 1)) =~= box_ids_of(
            m,
            cursor,
            start,
            rects.take(i),
        ).push(rects[i].0));
    } else {
        assert(rects.take(i + 1).filter(pred) == rects.take(i).filter(pred));
    }
}

/// While box-selecting, the selection is replaced — never unioned — with
/// exactly the live nodes whose rectangle meets the selection rectangle.
pub open spec fn box_phase<N, D, V>(m: EditorModel<N, D, V>, input: FrameInput) -> EditorModel<
    N,
    D,
    V,
> {
    match m.box_sel {
        Some(start) => EditorModel {
            selected: box_ids_of(m, input.cursor_pos, start, input.node_rects@),
            ..m
        },
        None => m,
    }
}

/// The global pointer transitions, applied in a fixed order after the
/// responses: releasing any button cancels an in-progress connection; a
/// secondary release outside the menu opens it at the pointer; Escape
/// closes it; a middle-button background drag pans; a press outside the
/// menu clears the selection (inside the editor) and closes the menu; a
/// primary background drag-start begins box selection, and a primary
/// release (or background drag release) ends it.
pub open spec fn pointer_phase<N, D, V>(
    m: EditorModel<N, D, V>,
    input: FrameInput,
    in_editor: bool,
    in_finder: bool,
) -> EditorModel<N, D, V> {
    let m1 = if input.any_released && m.conn_in_progress is Some {
        EditorModel { conn_in_progress: None, ..m }
    } else {
        m
    };
    let m2 = if input.secondary_released && !in_finder {
        EditorModel { finder: Some(NodeFinder { position: Some(input.cursor_pos) }), ..m1 }
    } else {
        m1
    };
    let m3 = if input.escape_pressed {
        EditorModel { finder: None, ..m2 }
    } else {
        m2
    };
    let m4 = if input.background_dragged && input.middle_down {
        EditorModel { pan: m3.pan.spec_plus(input.pointer_delta), ..m3 }
    } else {
        m3
    };
    let m5 = if input.any_pressed && !in_finder {
        EditorModel {
            selected: if in_editor {
                Seq::empty()
            } else {
                m4.selected
            },
            finder: None,
            ..m4
        }
    } else {
        m4
    };
    let m6 = if input.drag_started_on_background && input.primary_down {
        EditorModel { box_sel: Some(input.cursor_pos), ..m5 }
    } else {
        m5
    };
    if input.primary_released || input.drag_released_on_background {
        EditorModel { box_sel: None, ..m6 }
    } else {
        m6
    }
}

/// The state after confirming a kind in the creation menu: a fresh node
/// built by that kind's template, placed at the pointer, appended to the
/// z-order, given the default orientation; the menu closes.
pub open spec fn created_state<N, D, V>(
    m0: EditorModel<N, D, V>,
    input: FrameInput,
    m1: EditorModel<N, D, V>,
    id: NodeId,
) -> bool {
    &&& !m0.graph.nodes.dom().contains(id)
    &&& m1.graph.nodes.dom() == m0.graph.nodes.dom().insert(id)
    &&& forall|q: NodeId|
        q != id && m0.graph.nodes.dom().contains(q) ==> m1.graph.nodes[q] == #[trigger] m0.graph.nodes[q]
    &&& m1.graph.connections == m0.graph.connections
    &&& m1.order == m0.order.push(id)
    &&& m1.positions == m0.positions.insert(id, spec_creation_position(input, m0.pan))
    &&& m1.orientations == m0.orientations.insert(id, NodeOrientation::LeftToRight)
    &&& m1.selected == m0.selected
    &&& m1.conn_in_progress == m0.conn_in_progress
    &&& m1.box_sel == m0.box_sel
    &&& m1.pan == m0.pan
    &&& m1.finder is None
}

/// What the creation-menu phase does, given how many kinds (`kinds_len`)
/// are instantiable: nothing while the menu is closed or no choice was
/// confirmed; with the menu open, a confirmed index naming one of the
/// kinds creates exactly one node and appends its event, and an index
/// naming none does nothing.
pub open spec fn creation_rel<U, N, D, V>(
    m0: EditorModel<N, D, V>,
    input: FrameInput,
    kinds_len: int,
    m1: EditorModel<N, D, V>,
    crseq: Seq<NodeResponse<U, N>>,
) -> bool {
    if m0.finder is Some && input.finder_choice is Some {
        if (input.finder_choice.unwrap() as int) < kinds_len {
            exists|id: NodeId|
                crseq == seq![NodeResponse::<U, N>::CreatedNode(id)] && created_state(
                    m0,
                    input,
                    m1,
                    id,
                )
        } else {
            m1 == m0 && crseq == Seq::<NodeResponse<U, N>>::empty()
        }
    } else {
        m1 == m0 && crseq == Seq::<NodeResponse<U, N>>::empty()
    }
}

/// A run splits at any point: run the first part, then the rest from where
/// it left off, unless the first part already failed.
pub proof fn lemma_run_split<U, N, D, V>(
    m: EditorModel<N, D, V>,
    a: Seq<NodeResponse<U, N>>,
    b: Seq<NodeResponse<U, N>>,
)
    ensures
        run_resps(m, a + b) == {
            let ra = run_resps(m, a);
            if ra.err is Some {
                ra
            } else {
                let rb = run_resps(ra.state, b);
                RunOutcome { state: rb.state, emitted: ra.emitted + rb.emitted, err: rb.err }
            }
        },
    decreases a.len(),
{
    let ra = run_resps(m, a);
    if a.len() == 0 {
        assert(a + b =~= b);
        assert(ra.emitted + run_resps(m, b).emitted =~= run_resps(m, b).emitted);
    } else {
        assert((a + b)[0] == a[0]);
        if !resp_valid(m, a[0]) {
            assert(run_resps(m, a + b).state == m);
            assert(ra.emitted =~= Seq::<RespView<U, N>>::empty());
            assert(run_resps(m, a + b).emitted =~= Seq::<RespView<U, N>>::empty());
        } else {
            let (m1, e1) = step_resp(m, a[0]);
            assert((a + b).drop_first() =~= a.drop_first() + b);
            lemma_run_split(m1, a.drop_first(), b);
            let ra1 = run_resps(m1, a.drop_first());
            if ra1.err is Some {
                assert(run_resps(m, a + b).emitted =~= ra.emitted);
            } else {
                let rb = run_resps(ra1.state, b);
                assert(e1 + (ra1.emitted + rb.emitted) =~= (e1 + ra1.emitted) + rb.emitted);
            }
        }
    }
}

} // verus!
