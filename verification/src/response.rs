//! Typed interaction events and the per-frame reducer exchange types.

use crate::geom::{Delta2, Point2, Rect2};
use crate::graph::{Node, NodeModel};
use crate::id::{AnyParameterId, InputId, NodeId, OutputId};
use vstd::prelude::*;

verus! {

/// An event a node (or the caller) reports to the reducer. `User` carries an
/// opaque user-defined event passed through unmodified.
pub enum NodeResponse<UserResponse, NodeData> {
    ConnectEventStarted(NodeId, AnyParameterId),
    ConnectEventEnded { output: OutputId, input: InputId },
    CreatedNode(NodeId),
    SelectNode(NodeId),
    /// Request to delete a node, as made by its close control. Listen for
    /// `DeleteNodeFull` to receive the node's contents as well.
    DeleteNodeUi(NodeId),
    /// Synthesized when a node was deleted; never a valid input event.
    DeleteNodeFull { node_id: NodeId, node: Node<NodeData> },
    DisconnectEvent { output: OutputId, input: InputId },
    /// Move the node to the top of the z-order.
    RaiseNode(NodeId),
    MoveNode { node: NodeId, drag_delta: Delta2 },
    User(UserResponse),
}

/// The mathematical value of a [`NodeResponse`]: the same event with the
/// deleted node abstracted to its model.
pub ghost enum RespView<UserResponse, NodeData> {
    ConnectStarted(NodeId, AnyParameterId),
    ConnectEnded(InputId, OutputId),
    Created(NodeId),
    Select(NodeId),
    DeleteUi(NodeId),
    DeleteFull(NodeId, NodeModel<NodeData>),
    Disconnect(InputId, OutputId),
    Raise(NodeId),
    Move(NodeId, Delta2),
    User(UserResponse),
}

/// The view of one response.
pub open spec fn resp_view<U, N>(r: NodeResponse<U, N>) -> RespView<U, N> {
    match r {
        NodeResponse::ConnectEventStarted(nid, p) => RespView::ConnectStarted(nid, p),
        NodeResponse::ConnectEventEnded { output, input } => RespView::ConnectEnded(input, output),
        NodeResponse::CreatedNode(nid) => RespView::Created(nid),
        NodeResponse::SelectNode(nid) => RespView::Select(nid),
        NodeResponse::DeleteNodeUi(nid) => RespView::DeleteUi(nid),
        NodeResponse::DeleteNodeFull { node_id, node } => RespView::DeleteFull(node_id, node@),
        NodeResponse::DisconnectEvent { output, input } => RespView::Disconnect(input, output),
        NodeResponse::RaiseNode(nid) => RespView::Raise(nid),
        NodeResponse::MoveNode { node, drag_delta } => RespView::Move(node, drag_delta),
        NodeResponse::User(u) => RespView::User(u),
    }
}

/// The views of a whole response list, in order.
pub open spec fn views_of<U, N>(rs: Seq<NodeResponse<U, N>>) -> Seq<RespView<U, N>> {
    rs.map_values(|r: NodeResponse<U, N>| resp_view(r))
}

/// Mapping to views distributes over concatenation.
pub proof fn lemma_views_of_add<U, N>(a: Seq<NodeResponse<U, N>>, b: Seq<NodeResponse<U, N>>)
    ensures
        views_of(a + b) == views_of(a) + views_of(b),
{
    assert(views_of(a + b) =~= views_of(a) + views_of(b));
}

/// Mapping to views commutes with push.
pub proof fn lemma_views_of_push<U, N>(a: Seq<NodeResponse<U, N>>, x: NodeResponse<U, N>)
    ensures
        views_of(a.push(x)) == views_of(a).push(resp_view(x)),
{
    assert(views_of(a.push(x)) =~= views_of(a).push(resp_view(x)));
}

/// What one reducer invocation returns: the full ordered response list
/// (direct and synthesized) plus two cursor-location flags.
pub struct GraphResponse<UserResponse, NodeData> {
    /// Events of this frame, direct responses first, synthesized ones after.
    pub node_responses: Vec<NodeResponse<UserResponse, NodeData>>,
    /// Is the pointer over the editing surface? The creation menu counts as
    /// inside the editor even when it floats outside the editor rectangle.
    pub cursor_in_editor: bool,
    /// Is the pointer over the creation menu?
    pub cursor_in_finder: bool,
}

impl<UserResponse, NodeData> Default for GraphResponse<UserResponse, NodeData> {
    /// An empty response: no events, cursor nowhere.
    fn default() -> (r: Self)
        ensures
            r.node_responses@ == Seq::<NodeResponse<UserResponse, NodeData>>::empty(),
            r.cursor_in_editor == false,
            r.cursor_in_finder == false,
    {
        let r = GraphResponse {
            node_responses: Vec::new(),
            cursor_in_editor: false,
            cursor_in_finder: false,
        };
        proof {
            assert(r.node_responses@ =~= Seq::<NodeResponse<UserResponse, NodeData>>::empty());
        }
        r
    }
}

/// The per-frame input that the render surface hands the reducer: pointer
/// state, key state, this frame's hit geometry, and the confirmed creation
/// choice, all as plain values.
pub struct FrameInput {
    /// Pointer position in screen coordinates.
    pub cursor_pos: Point2,
    /// The rectangle of the editing surface.
    pub editor_rect: Rect2,
    /// Where the creation menu was drawn this frame, if it was.
    pub finder_rect: Option<Rect2>,
    /// Index into the instantiable kinds that the caller confirmed in the
    /// creation menu this frame, if any.
    pub finder_choice: Option<usize>,
    /// Each node's last-known bounding rectangle, one entry per node.
    pub node_rects: Vec<(NodeId, Rect2)>,
    /// Any pointer button was pressed this frame.
    pub any_pressed: bool,
    /// Any pointer button was released this frame.
    pub any_released: bool,
    pub primary_down: bool,
    pub primary_released: bool,
    pub secondary_released: bool,
    pub escape_pressed: bool,
    pub middle_down: bool,
    /// The background of the surface is being dragged.
    pub background_dragged: bool,
    pub drag_started_on_background: bool,
    pub drag_released_on_background: bool,
    /// Pointer movement since the previous frame.
    pub pointer_delta: Delta2,
}

impl FrameInput {
    /// The recorded node rectangles name each node at most once.
    pub open spec fn wf(self) -> bool {
        forall|i: int, j: int|
            0 <= i < j < self.node_rects@.len() ==> (#[trigger] self.node_rects@[i]).0 != (
            #[trigger] self.node_rects@[j]).0
    }
}

} // verus!
