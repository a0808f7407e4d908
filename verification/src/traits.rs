//! The capability interfaces a user of the editor implements: node kinds
//! (templates), per-node payload hooks, and the kind enumerator.

use crate::graph::{Graph, GraphModel};
use crate::id::NodeId;
use vstd::prelude::*;

verus! {

/// A builder run on a freshly created node may only append ports to that
/// node: the node set, every other node, and the connections are untouched.
pub open spec fn build_extends<N, D, V>(
    pre: GraphModel<N, D, V>,
    post: GraphModel<N, D, V>,
    nid: NodeId,
) -> bool {
    &&& post.nodes.dom() == pre.nodes.dom()
    &&& forall|q: NodeId|
        q != nid && pre.nodes.dom().contains(q) ==> post.nodes[q] == #[trigger] pre.nodes[q]
    &&& post.connections == pre.connections
}

/// Marker for the user-defined response type carried through unchanged.
pub trait UserResponseTrait: Clone {

}

/// The declared data type of a port. Equal data types mean an output may
/// feed an input.
pub trait DataTypeTrait: PartialEq + Sized {
    /// A display name for the type.
    fn name(&self) -> String;
}

/// A node kind: how to label a node of this kind and how to build its ports.
pub trait NodeTemplateTrait: Sized {
    type NodeData;

    type DataType;

    type ValueType;

    type UserState;

    /// The label shown in the creation menu.
    fn node_finder_label(&self, user_state: &mut Self::UserState) -> String;

    /// The label of a node built from this kind.
    fn node_graph_label(&self, user_state: &mut Self::UserState) -> String;

    /// The user payload of a node built from this kind.
    fn user_data(&self, user_state: &mut Self::UserState) -> Self::NodeData;

    /// Append this kind's ports to the freshly created node `node_id`.
    ///
    /// An implementation may call [`Graph::add_input_param`] and
    /// [`Graph::add_output_param`] on `node_id`; it must leave every other
    /// part of the graph as it was.
    fn build_node(
        &self,
        graph: &mut Graph<Self::NodeData, Self::DataType, Self::ValueType>,
        user_state: &mut Self::UserState,
        node_id: NodeId,
    )
        requires
            old(graph).wf(),
            old(graph)@.nodes.dom().contains(node_id),
        ensures
            final(graph).wf(),
            build_extends(old(graph)@, final(graph)@, node_id),
    ;
}

/// Enumerates the instantiable node kinds for the creation menu.
pub trait NodeTemplateIter {
    type Item;

    /// The instantiable kinds, in menu order, as a specification value.
    spec fn all_kinds_spec(&self) -> Seq<Self::Item>;

    /// All kinds, in menu order. Returns exactly what
    /// [`NodeTemplateIter::all_kinds_spec`] says.
    fn all_kinds(&self) -> (r: Vec<Self::Item>)
        ensures
            r@ == self.all_kinds_spec(),
    ;
}

/// Hooks of the per-node user payload that the interaction logic consults.
pub trait NodeDataTrait: Sized {
    type Response;

    type DataType;

    type ValueType;

    type UserState;

    /// May this node be deleted, as a function of the graph's value? The
    /// close control is shown only if so.
    spec fn can_delete_spec(
        &self,
        node_id: NodeId,
        g: GraphModel<Self, Self::DataType, Self::ValueType>,
    ) -> bool;

    /// May this node be deleted? Returns exactly what
    /// [`NodeDataTrait::can_delete_spec`] says of the graph's value.
    fn can_delete(
        &self,
        node_id: NodeId,
        graph: &Graph<Self, Self::DataType, Self::ValueType>,
        user_state: &mut Self::UserState,
    ) -> (r: bool)
        ensures
            r == self.can_delete_spec(node_id, graph@),
    ;
}

} // verus!
