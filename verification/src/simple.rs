//! A minimal ready-made setup: one node kind with two connection-only
//! inputs and one output, all payload types dummied out, and an application
//! state that renders the current graph as an s-expression line.

use crate::editor::{GraphEditorState, NodeOrientation};
use crate::geom::Point2;
use crate::graph::{Graph, InputParamKind};
use crate::id::{InputId, NodeId, OutputId};
use crate::traits::{
    build_extends, DataTypeTrait, NodeDataTrait, NodeTemplateIter, NodeTemplateTrait,
    UserResponseTrait,
};
use vstd::prelude::*;
use vstd::string::StringExecFns;

verus! {

/// Per-node payload: this setup stores nothing per node.
#[derive(Debug)]
pub struct DummyNodeData;

/// The one connection type: every output may feed every input.
#[derive(Debug, Eq)]
pub struct DummyDataType;

impl PartialEq for DummyDataType {
    fn eq(&self, _other: &DummyDataType) -> (r: bool)
        ensures
            r,
    {
        true
    }
}

impl vstd::std_specs::cmp::PartialEqSpecImpl for DummyDataType {
    open spec fn obeys_eq_spec() -> bool {
        true
    }

    open spec fn eq_spec(&self, _other: &DummyDataType) -> bool {
        true
    }
}

/// The constant fallback value of an unconnected input: nothing editable
/// here.
#[derive(Clone, Copy, Debug)]
pub struct DummyValueType;

impl Default for DummyValueType {
    fn default() -> (r: Self)
        ensures
            r == DummyValueType,
    {
        DummyValueType
    }
}

/// The one node kind.
#[derive(Clone, Copy)]
pub struct DummyNodeTemplate;

/// User events bubbling up from node widgets: none here.
#[derive(Clone, Copy, Debug, PartialEq, Eq, Structural)]
pub struct DummyResponse;

impl UserResponseTrait for DummyResponse {

}

impl DataTypeTrait for DummyDataType {
    fn name(&self) -> (r: String)
        ensures
            r@ == "edge"@,
    {
        String::from_str("edge")
    }
}

impl NodeTemplateTrait for DummyNodeTemplate {
    type NodeData = DummyNodeData;

    type DataType = DummyDataType;

    type ValueType = DummyValueType;

    type UserState = ();

    fn node_finder_label(&self, _user_state: &mut ()) -> (r: String)
        ensures
            r@ == "Node"@,
    {
        String::from_str("Node")
    }

    fn node_graph_label(&self, _user_state: &mut ()) -> (r: String)
        ensures
            r@ == "Node"@,
    {
        String::from_str("Node")
    }

    fn user_data(&self, _user_state: &mut ()) -> (r: DummyNodeData)
        ensures
            r == DummyNodeData,
    {
        DummyNodeData
    }

    fn build_node(
        &self,
        graph: &mut Graph<DummyNodeData, DummyDataType, DummyValueType>,
        _user_state: &mut (),
        node_id: NodeId,
    )
        ensures
            dummy_build_effect(old(graph)@, final(graph)@, node_id),
    {
        let ghost pre = graph@;
        let i1 = graph.add_input_param(
            node_id,
            String::from_str("in1"),
            DummyDataType,
            DummyValueType,
            InputParamKind::ConnectionOnly,
            true,
        );
        let ghost g1 = graph@;
        let i2 = graph.add_input_param(
            node_id,
            String::from_str("in2"),
            DummyDataType,
            DummyValueType,
            InputParamKind::ConnectionOnly,
            true,
        );
        let ghost g2 = graph@;
        let o1 = graph.add_output_param(node_id, String::from_str("out"), DummyDataType);
        proof {
            let post = graph@;
            assert(post.nodes.dom() =~= pre.nodes.dom());
            assert forall|q: NodeId|
                q != node_id && pre.nodes.dom().contains(q) implies post.nodes[q]
                == #[trigger] pre.nodes[q] by {}
            assert(build_extends(pre, post, node_id));
            let k_in = pre.nodes[node_id].inputs.len() as int;
            let k_out = pre.nodes[node_id].outputs.len() as int;
            assert(post.nodes[node_id].inputs == g2.nodes[node_id].inputs);
            assert(g2.nodes[node_id].inputs == g1.nodes[node_id].inputs.push(
                (g2.nodes[node_id].inputs[k_in + 1].0, i2),
            ));
            assert(post.nodes[node_id].inputs[k_in].1 == i1);
            assert(post.nodes[node_id].inputs[k_in + 1].1 == i2);
            assert(post.nodes[node_id].outputs[k_out].1 == o1);
            assert(post.nodes =~= pre.nodes.insert(
                node_id,
                crate::graph::NodeModel {
                    inputs: pre.nodes[node_id].inputs.push(
                        post.nodes[node_id].inputs[k_in],
                    ).push(post.nodes[node_id].inputs[k_in + 1]),
                    outputs: pre.nodes[node_id].outputs.push(post.nodes[node_id].outputs[k_out]),
                    ..pre.nodes[node_id]
                },
            ));
            assert(post.inputs =~= pre.inputs.insert(i1, dummy_input_param(node_id)).insert(
                i2,
                dummy_input_param(node_id),
            ));
            assert(post.outputs =~= pre.outputs.insert(
                o1,
                crate::graph::OutputParam { node: node_id, typ: DummyDataType },
            ));
            assert(dummy_build_effect(pre, post, node_id));
        }
    }
}

/// The shape a node freshly built by the dummy kind has in the store: the
/// label "Node" and exactly the dummy ports — "in1" and "in2", both
/// connection-only, shown inline, of the one data type, then "out" — under
/// three distinct ids whose records the store carries.
pub open spec fn dummy_built_node(
    g: crate::graph::GraphModel<DummyNodeData, DummyDataType, DummyValueType>,
    id: NodeId,
) -> bool {
    &&& g.nodes.dom().contains(id)
    &&& g.nodes[id].label@ == "Node"@
    &&& g.nodes[id].inputs.len() == 2
    &&& g.nodes[id].inputs[0].0@ == "in1"@
    &&& g.nodes[id].inputs[1].0@ == "in2"@
    &&& g.nodes[id].inputs[0].1 != g.nodes[id].inputs[1].1
    &&& g.inputs[g.nodes[id].inputs[0].1] == dummy_input_param(id)
    &&& g.inputs[g.nodes[id].inputs[1].1] == dummy_input_param(id)
    &&& g.nodes[id].outputs.len() == 1
    &&& g.nodes[id].outputs[0].0@ == "out"@
    &&& g.outputs[g.nodes[id].outputs[0].1] == (crate::graph::OutputParam {
        node: id,
        typ: DummyDataType,
    })
}

/// The exact effect of building the dummy kind's ports on a node: two
/// connection-only, shown-inline inputs named "in1" and "in2", then one
/// output named "out", all of the one data type, appended in that order
/// under fresh ids; everything else in the store is untouched.
pub open spec fn dummy_build_effect(
    pre: crate::graph::GraphModel<DummyNodeData, DummyDataType, DummyValueType>,
    post: crate::graph::GraphModel<DummyNodeData, DummyDataType, DummyValueType>,
    node_id: NodeId,
) -> bool {
    let k_in = pre.nodes[node_id].inputs.len() as int;
    let k_out = pre.nodes[node_id].outputs.len() as int;
    let e1 = post.nodes[node_id].inputs[k_in];
    let e2 = post.nodes[node_id].inputs[k_in + 1];
    let e3 = post.nodes[node_id].outputs[k_out];
    &&& e1.0@ == "in1"@
    &&& e2.0@ == "in2"@
    &&& e3.0@ == "out"@
    &&& e1.1 != e2.1
    &&& !pre.inputs.dom().contains(e1.1)
    &&& !pre.inputs.dom().contains(e2.1)
    &&& !pre.outputs.dom().contains(e3.1)
    &&& post.nodes == pre.nodes.insert(
        node_id,
        crate::graph::NodeModel {
            inputs: pre.nodes[node_id].inputs.push(e1).push(e2),
            outputs: pre.nodes[node_id].outputs.push(e3),
            ..pre.nodes[node_id]
        },
    )
    &&& post.inputs == pre.inputs.insert(e1.1, dummy_input_param(node_id)).insert(
        e2.1,
        dummy_input_param(node_id),
    )
    &&& post.outputs == pre.outputs.insert(
        e3.1,
        crate::graph::OutputParam { node: node_id, typ: DummyDataType },
    )
    &&& post.connections == pre.connections
}

/// The record every input of the dummy kind carries: connection-only,
/// shown inline, with the one data type and the unit fallback value.
pub open spec fn dummy_input_param(node_id: NodeId) -> crate::graph::InputParam<
    DummyDataType,
    DummyValueType,
> {
    crate::graph::InputParam {
        node: node_id,
        typ: DummyDataType,
        value: DummyValueType,
        kind: InputParamKind::ConnectionOnly,
        shown_inline: true,
    }
}

/// The kind enumeration for the creation menu: just the one kind.
pub struct AllMyNodeTemplates;

impl NodeTemplateIter for AllMyNodeTemplates {
    type Item = DummyNodeTemplate;

    open spec fn all_kinds_spec(&self) -> Seq<DummyNodeTemplate> {
        seq![DummyNodeTemplate]
    }

    fn all_kinds(&self) -> (r: Vec<DummyNodeTemplate>) {
        let mut v: Vec<DummyNodeTemplate> = Vec::new();
        v.push(DummyNodeTemplate);
        proof {
            assert(v@ =~= seq![DummyNodeTemplate]);
        }
        v
    }
}

impl NodeDataTrait for DummyNodeData {
    type Response = DummyResponse;

    type DataType = DummyDataType;

    type ValueType = DummyValueType;

    type UserState = ();

    open spec fn can_delete_spec(
        &self,
        _node_id: NodeId,
        _g: crate::graph::GraphModel<DummyNodeData, DummyDataType, DummyValueType>,
    ) -> bool {
        true
    }

    fn can_delete(
        &self,
        _node_id: NodeId,
        _graph: &Graph<DummyNodeData, DummyDataType, DummyValueType>,
        _user_state: &mut (),
    ) -> bool {
        true
    }
}

/// The editor state of this setup.
pub type MyEditorState = GraphEditorState<
    DummyNodeData,
    DummyDataType,
    DummyValueType,
    DummyNodeTemplate,
    (),
>;

/// The example application state: the editor plus a cached textual
/// rendering of the graph.
pub struct NodeGraphExampleSimple {
    pub state: MyEditorState,
    pub user_state: (),
    /// Text to display above the graph.
    pub cached_text_graph_description: String,
}

impl Default for NodeGraphExampleSimple {
    /// Same as [`NodeGraphExampleSimple::new`].
    fn default() -> (r: Self)
        ensures
            r.state.wf(),
    {
        Self::new()
    }
}

impl NodeGraphExampleSimple {
    /// A fresh, empty example state.
    pub fn new() -> (r: Self)
        ensures
            r.state.wf(),
    {
        NodeGraphExampleSimple {
            state: GraphEditorState::new(),
            user_state: (),
            cached_text_graph_description: String::new(),
        }
    }

    /// Create one node of the dummy kind — labeled "Node", with the dummy
    /// ports — at position (20, 20), register it in the z-order with the
    /// default orientation, and refresh the cached text.
    pub fn create_node(&mut self) -> (id: NodeId)
        requires
            old(self).state.wf(),
        ensures
            final(self).state.wf(),
            !old(self).state@.graph.nodes.dom().contains(id),
            final(self).state@.graph.nodes.dom() == old(self).state@.graph.nodes.dom().insert(id),
            final(self).state@.order == old(self).state@.order.push(id),
            final(self).state@.graph.connections == old(self).state@.graph.connections,
            final(self).state@.positions == old(self).state@.positions.insert(
                id,
                Point2 { x: 20, y: 20 },
            ),
            final(self).state@.orientations == old(self).state@.orientations.insert(
                id,
                NodeOrientation::LeftToRight,
            ),
            final(self).state@.selected == old(self).state@.selected,
            forall|q: NodeId|
                q != id && old(self).state@.graph.nodes.dom().contains(q)
                    ==> final(self).state@.graph.nodes[q] == #[trigger] old(
                    self,
                ).state@.graph.nodes[q],
            dummy_built_node(final(self).state@.graph, id),
            final(self).cached_text_graph_description@ == graph_text(final(self).state.graph),
    {
        let ghost pre = self.state@;
        let id = self.state.graph.add_node("Node".to_string(), DummyNodeData);
        self.state.node_order.push(id);
        self.state.node_positions.insert(id, Point2 { x: 20, y: 20 });
        self.state.node_orientations.insert(id, NodeOrientation::LeftToRight);
        let ghost m_add = self.state@;
        DummyNodeTemplate.build_node(&mut self.state.graph, &mut self.user_state, id);
        proof {
            let m1 = self.state@;
            assert(m1.graph.nodes.dom() =~= pre.graph.nodes.dom().insert(id));
            assert forall|i2: int, j2: int|
                0 <= i2 < j2 < m1.order.len() implies m1.order[i2] != m1.order[j2] by {
                if j2 == m1.order.len() - 1 {
                    assert(m1.order[i2] == pre.order[i2]);
                    assert(pre.graph.nodes.dom().contains(pre.order[i2]));
                } else {
                    assert(m1.order[i2] == pre.order[i2]);
                    assert(m1.order[j2] == pre.order[j2]);
                }
            }
            assert forall|i2: int|
                0 <= i2 < m1.order.len() implies m1.graph.nodes.dom().contains(
                #[trigger] m1.order[i2],
            ) by {
                if i2 < m1.order.len() - 1 {
                    assert(m1.order[i2] == pre.order[i2]);
                    assert(pre.graph.nodes.dom().contains(pre.order[i2]));
                } else {
                    assert(m1.order[i2] == id);
                }
            }
            assert forall|q: NodeId|
                #[trigger] m1.graph.nodes.dom().contains(q) implies m1.order.contains(q) by {
                if q == id {
                    assert(m1.order[m1.order.len() - 1] == q);
                } else {
                    assert(pre.order.contains(q));
                    let a = choose|a: int| 0 <= a < pre.order.len() && pre.order[a] == q;
                    assert(m1.order[a] == q);
                }
            }
            assert(m1.order_consistent());
            assert(m1.positions.dom() =~= m1.graph.nodes.dom());
            assert forall|q: NodeId|
                #[trigger] m1.graph.nodes.dom().contains(q) implies m1.orientations.dom().contains(
                q,
            ) by {
                if q != id {
                    assert(pre.graph.nodes.dom().contains(q));
                }
            }
            assert forall|i2: int|
                0 <= i2 < m1.selected.len() implies m1.graph.nodes.dom().contains(
                #[trigger] m1.selected[i2],
            ) by {
                assert(pre.graph.nodes.dom().contains(pre.selected[i2]));
            }
            assert forall|i2: int, j2: int|
                0 <= i2 < j2 < m1.selected.len() implies m1.selected[i2] != m1.selected[j2] by {
                assert(pre.selected[i2] != pre.selected[j2]);
            }
            assert(self.state.wf());
            assert(m1.graph.nodes[id].label@ == "Node"@);
            assert(dummy_build_effect(m_add.graph, m1.graph, id));
            assert(m_add.graph.nodes[id].inputs.len() == 0);
            assert(m_add.graph.nodes[id].outputs.len() == 0);
            assert(dummy_built_node(m1.graph, id));
            assert(m1.positions =~= pre.positions.insert(id, Point2 { x: 20, y: 20 }));
            assert(m1.orientations =~= pre.orientations.insert(
                id,
                NodeOrientation::LeftToRight,
            ));
        }
        let text = self.calculate_result();
        self.cached_text_graph_description = text;
        id
    }

    /// Walk the graph and render an s-expression shaped like it: every node
    /// that feeds no other node is printed, each as `(node …)` around its
    /// transitively printed feeders (in storage order), with `...` standing
    /// for a node already printed (which also keeps cycles finite).
    ///
    /// This is display code for the hosting application; its recursion is
    /// bounded by a fuel counter that the node count can never exhaust.
    pub fn calculate_result(&self) -> (r: String)
        requires
            self.state.wf(),
        ensures
            r@ == graph_text(self.state.graph),
    {
        let ghost g = self.state.graph;
        let node_ids = self.state.graph.iter_nodes();
        let ghost ids = node_ids@;
        let n = node_ids.len();
        let conns = self.state.graph.iter_connections();
        proof {
            assert(ids == walk_ids(g));
        }
        let mut ins: Vec<Vec<usize>> = Vec::new();
        let mut leaf: Vec<bool> = Vec::new();
        let mut k: usize = 0;
        while k < n
            invariant
                self.state.wf(),
                g == self.state.graph,
                ids == node_ids@,
                ids == walk_ids(g),
                ids.len() == n,
                0 <= k <= n,
                conns@ == g@.connections,
                forall|a: int|
                    0 <= a < ids.len() ==> g@.nodes.dom().contains(#[trigger] ids[a]),
                forall|q: NodeId| g@.nodes.dom().contains(q) ==> ids.contains(q),
                forall|i: int, j: int| 0 <= i < j < ids.len() ==> ids[i] != ids[j],
                ins@.len() == k,
                leaf@.len() == k,
                forall|k2: int|
                    0 <= k2 < k ==> (#[trigger] ins@[k2])@ == feeder_row_of(
                        g,
                        ids,
                        ids[k2],
                        g@.connections,
                    ),
                forall|k2: int| 0 <= k2 < k ==> leaf@[k2] == walk_is_sink(g, ids[k2]),
                forall|a: int, b: int|
                    0 <= a < ins@.len() && 0 <= b < ins@[a]@.len() ==> (#[trigger] ins@[a]@[b])
                        < ids.len(),
            decreases n - k,
        {
            let mut row: Vec<usize> = Vec::new();
            let mut is_leaf: bool = true;
            let mut c: usize = 0;
            proof {
                assert(conns@.take(0) =~= Seq::<(InputId, OutputId)>::empty());
                assert(row@ =~= feeder_row_of(g, ids, ids[k as int], conns@.take(0)));
            }
            while c < conns.len()
                invariant
                    self.state.wf(),
                    g == self.state.graph,
                    ids == node_ids@,
                    ids.len() == n,
                    0 <= k < n,
                    0 <= c <= conns@.len(),
                    conns@ == g@.connections,
                    forall|a: int|
                        0 <= a < ids.len() ==> g@.nodes.dom().contains(#[trigger] ids[a]),
                    forall|q: NodeId| g@.nodes.dom().contains(q) ==> ids.contains(q),
                    forall|i: int, j: int| 0 <= i < j < ids.len() ==> ids[i] != ids[j],
                    row@ == feeder_row_of(g, ids, ids[k as int], conns@.take(c as int)),
                    is_leaf == sink_upto(g, ids[k as int], conns@, c as int),
                    forall|b: int| 0 <= b < row@.len() ==> (#[trigger] row@[b]) < ids.len(),
                decreases conns@.len() - c,
            {
                let (iid, oid) = conns[c];
                proof {
                    assert(g@.connections[c as int] == (iid, oid));
                    assert(g@.inputs.dom().contains(iid));
                    assert(g@.outputs.dom().contains(oid));
                    lemma_feeder_row_step(g, ids, ids[k as int], conns@, c as int);
                }
                let child = self.state.graph.get_input(iid).node;
                let parent = self.state.graph.get_output(oid).node;
                proof {
                    assert(g@.nodes.dom().contains(parent));
                    assert(ids.contains(parent));
                }
                if child == node_ids[k] {
                    match index_of_id(&node_ids, parent) {
                        Some(pi) => {
                            proof {
                                let wi = walk_index(ids, parent);
                                assert(exists|i: int| 0 <= i < ids.len() && ids[i] == parent) by {
                                    let a = choose|a: int|
                                        0 <= a < ids.len() && ids[a] == parent;
                                    assert(ids[a] == parent);
                                }
                                assert(0 <= wi < ids.len() && ids[wi] == parent);
                                assert(ids[pi as int] == parent);
                                assert(wi == pi as int);
                            }
                            row.push(pi);
                        },
                        None => {
                            proof {
                                assert(false);
                            }
                        },
                    }
                }
                if parent == node_ids[k] {
                    is_leaf = false;
                }
                proof {
                    assert(row@ == feeder_row_of(g, ids, ids[k as int], conns@.take(
                        c as int + 1,
                    )));
                    assert(is_leaf == sink_upto(g, ids[k as int], conns@, c as int + 1));
                }
                c = c + 1;
            }
            proof {
                assert(conns@.take(conns@.len() as int) =~= conns@);
            }
            ins.push(row);
            leaf.push(is_leaf);
            k = k + 1;
        }
        let ghost ins_v = walk_rows(g);
        let ghost leaf_v = walk_sinks(g);
        proof {
            assert(rows_view(ins@) =~= ins_v);
            assert(leaf@ =~= leaf_v);
        }
        let mut marked: Vec<bool> = Vec::new();
        let mut z: usize = 0;
        while z < n
            invariant
                0 <= z <= n,
                marked@.len() == z,
                forall|i: int| 0 <= i < z ==> marked@[i] == false,
            decreases n - z,
        {
            marked.push(false);
            z = z + 1;
        }
        let ghost fuel_spec = walk_fuel(n as nat);
        let mut out = String::new();
        proof {
            assert(marked@ =~= Seq::new(ins_v.len(), |i: int| false));
            assert(out@ =~= walk_upto(ins_v, leaf_v, 0, fuel_spec).0);
        }
        let mut k2: usize = 0;
        while k2 < n
            invariant
                ids.len() == n,
                ins@.len() == n,
                leaf@.len() == n,
                leaf@ == leaf_v,
                marked@.len() == n,
                ins_v == walk_rows(g),
                leaf_v == walk_sinks(g),
                fuel_spec == walk_fuel(n as nat),
                rows_view(ins@) == ins_v,
                0 <= k2 <= n,
                out@ == walk_upto(ins_v, leaf_v, k2 as int, fuel_spec).0,
                marked@ == walk_upto(ins_v, leaf_v, k2 as int, fuel_spec).1,
                forall|a: int, b: int|
                    0 <= a < ins@.len() && 0 <= b < ins@[a]@.len() ==> (#[trigger] ins@[a]@[b])
                        < ids.len(),
            decreases n - k2,
        {
            if leaf[k2] {
                let fuel = if n < usize::MAX {
                    n + 1
                } else {
                    n
                };
                proof {
                    assert(fuel as nat == fuel_spec);
                }
                let ghost marked_before = marked@;
                let piece = print_node(&ins, &mut marked, k2, fuel);
                out.append(piece.as_str());
                proof {
                    let pair = sp_node(ins_v, marked_before, k2 as int, fuel_spec);
                    assert(piece@ == pair.0 && marked@ == pair.1);
                    assert(out@ == walk_upto(ins_v, leaf_v, k2 as int + 1, fuel_spec).0);
                }
            } else {
                proof {
                    assert(out@ == walk_upto(ins_v, leaf_v, k2 as int + 1, fuel_spec).0);
                    assert(marked@ == walk_upto(ins_v, leaf_v, k2 as int + 1, fuel_spec).1);
                }
            }
            k2 = k2 + 1;
        }
        proof {
            assert(out@ == graph_text(g));
        }
        out
    }
}

/// The rows of a prepared feeder table, as sequences.
pub open spec fn rows_view(t: Seq<Vec<usize>>) -> Seq<Seq<usize>> {
    t.map_values(|v: Vec<usize>| v@)
}

/// The node ids the walk enumerates: all live nodes, in storage order.
pub open spec fn walk_ids(g: Graph<DummyNodeData, DummyDataType, DummyValueType>) -> Seq<NodeId> {
    g.nodes.keys_in_order()
}

/// The enumeration index of a node id.
pub open spec fn walk_index(ids: Seq<NodeId>, nid: NodeId) -> int {
    choose|i: int| 0 <= i < ids.len() && ids[i] == nid
}

/// The feeders of `nid` drawn from a connection-list prefix: the
/// enumeration index of each node feeding one of its inputs, in connection
/// order.
pub open spec fn feeder_row_of(
    g: Graph<DummyNodeData, DummyDataType, DummyValueType>,
    ids: Seq<NodeId>,
    nid: NodeId,
    conns: Seq<(InputId, OutputId)>,
) -> Seq<usize> {
    conns.filter(|c: (InputId, OutputId)| g@.inputs[c.0].node == nid).map_values(
        |c: (InputId, OutputId)| walk_index(ids, g@.outputs[c.1].node) as usize,
    )
}

/// One more connection either joins the feeder row or passes it by.
pub proof fn lemma_feeder_row_step(
    g: Graph<DummyNodeData, DummyDataType, DummyValueType>,
    ids: Seq<NodeId>,
    nid: NodeId,
    conns: Seq<(InputId, OutputId)>,
    i: int,
)
    requires
        0 <= i < conns.len(),
    ensures
        feeder_row_of(g, ids, nid, conns.take(i + 1)) == if g@.inputs[conns[i].0].node == nid {
            feeder_row_of(g, ids, nid, conns.take(i)).push(
                walk_index(ids, g@.outputs[conns[i].1].node) as usize,
            )
        } else {
            feeder_row_of(g, ids, nid, conns.take(i))
        },
{
    reveal(Seq::filter);
    assert(conns.take(i + 1).drop_last() =~= conns.take(i));
    assert(conns.take(i + 1).last() == conns[i]);
    let pred = |c: (InputId, OutputId)| g@.inputs[c.0].node == nid;
    if pred(conns[i]) {
        assert(conns.take(i + 1).filter(pred) == conns.take(i).filter(pred).push(conns[i]));
        assert(feeder_row_of(g, ids, nid, conns.take(i + 1)) =~= feeder_row_of(
            g,
            ids,
            nid,
            conns.take(i),
        ).push(walk_index(ids, g@.outputs[conns[i].1].node) as usize));
    } else {
        assert(conns.take(i + 1).filter(pred) == conns.take(i).filter(pred));
    }
}

/// No connection among the first `c` is fed by one of `nid`'s outputs.
pub open spec fn sink_upto(
    g: Graph<DummyNodeData, DummyDataType, DummyValueType>,
    nid: NodeId,
    conns: Seq<(InputId, OutputId)>,
    c: int,
) -> bool {
    forall|j: int| 0 <= j < c ==> g@.outputs[(#[trigger] conns[j]).1].node != nid
}

/// The node feeds nothing: it is printed at top level.
pub open spec fn walk_is_sink(
    g: Graph<DummyNodeData, DummyDataType, DummyValueType>,
    nid: NodeId,
) -> bool {
    sink_upto(g, nid, g@.connections, g@.connections.len() as int)
}

/// The prepared feeder table, one row per enumerated node.
pub open spec fn walk_rows(g: Graph<DummyNodeData, DummyDataType, DummyValueType>) -> Seq<
    Seq<usize>,
> {
    Seq::new(walk_ids(g).len(), |k: int| feeder_row_of(g, walk_ids(g), walk_ids(g)[k], g@.connections))
}

/// The sink flags, one per enumerated node.
pub open spec fn walk_sinks(g: Graph<DummyNodeData, DummyDataType, DummyValueType>) -> Seq<bool> {
    Seq::new(walk_ids(g).len(), |k: int| walk_is_sink(g, walk_ids(g)[k]))
}

/// The recursion fuel the walk carries: one more than the node count,
/// which the marking discipline can never exhaust.
pub open spec fn walk_fuel(n: nat) -> nat {
    if n < usize::MAX as nat {
        (n + 1) as nat
    } else {
        n
    }
}

/// The walk over the first `k` enumerated nodes: each sink is printed in
/// turn, threading the marking through.
pub open spec fn walk_upto(ins: Seq<Seq<usize>>, sinks: Seq<bool>, k: int, fuel: nat) -> (
    Seq<char>,
    Seq<bool>,
)
    decreases k,
{
    if k <= 0 {
        (Seq::empty(), Seq::new(ins.len(), |i: int| false))
    } else {
        let prev = walk_upto(ins, sinks, k - 1, fuel);
        if sinks[k - 1] {
            let pair = sp_node(ins, prev.1, k - 1, fuel);
            (prev.0 + pair.0, pair.1)
        } else {
            prev
        }
    }
}

/// The s-expression line for a whole graph: every node that feeds no other
/// node, in storage order, printed around its transitively printed feeders,
/// with `...` standing for a node already printed.
pub open spec fn graph_text(g: Graph<DummyNodeData, DummyDataType, DummyValueType>) -> Seq<char> {
    walk_upto(walk_rows(g), walk_sinks(g), walk_ids(g).len() as int, walk_fuel(
        walk_ids(g).len(),
    )).0
}

/// Find a node id's index in the enumeration, if present.
fn index_of_id(node_ids: &Vec<NodeId>, nid: NodeId) -> (r: Option<usize>)
    ensures
        match r {
            Some(i) => i < node_ids@.len() && node_ids@[i as int] == nid,
            None => !node_ids@.contains(nid),
        },
{
    let mut i: usize = 0;
    while i < node_ids.len()
        invariant
            0 <= i <= node_ids@.len(),
            forall|j: int| 0 <= j < i ==> node_ids@[j] != nid,
        decreases node_ids@.len() - i,
    {
        if node_ids[i] == nid {
            proof {
                assert(node_ids@[i as int] == nid);
            }
            return Some(i);
        }
        i = i + 1;
    }
    None
}

/// What printing one node yields, the rendered text and the updated
/// marking, indexed by the recursion fuel that [`print_node`] carries.
pub open spec fn sp_node(ins: Seq<Seq<usize>>, marked: Seq<bool>, idx: int, fuel: nat) -> (
    Seq<char>,
    Seq<bool>,
)
    decreases fuel, 0int,
{
    if fuel == 0 {
        (Seq::empty(), marked)
    } else if marked[idx] {
        ("..."@, marked)
    } else {
        let m1 = marked.update(idx, true);
        let pair = sp_row(ins, m1, ins[idx], (fuel - 1) as nat);
        ("(node "@ + pair.0 + ") "@, pair.1)
    }
}

/// Printing a row of feeders in order, threading the marking through.
pub open spec fn sp_row(ins: Seq<Seq<usize>>, marked: Seq<bool>, ps: Seq<usize>, fuel: nat) -> (
    Seq<char>,
    Seq<bool>,
)
    decreases fuel, ps.len() + 1,
{
    if ps.len() == 0 {
        (Seq::empty(), marked)
    } else {
        let head = sp_node(ins, marked, ps[0] as int, fuel);
        let rest = sp_row(ins, head.1, ps.drop_first(), fuel);
        (head.0 + rest.0, rest.1)
    }
}

/// Print one node of the prepared table: its feeders, transitively, between
/// "(node " and ") ", with "..." when it was printed before. `fuel` bounds
/// the recursion; with more fuel than nodes it never runs out, since a node
/// is marked before its feeders are visited.
fn print_node(ins: &Vec<Vec<usize>>, marked: &mut Vec<bool>, idx: usize, fuel: usize) -> (r:
    String)
    requires
        old(marked)@.len() == ins@.len(),
        idx < ins@.len(),
        forall|a: int, b: int|
            0 <= a < ins@.len() && 0 <= b < ins@[a]@.len() ==> (#[trigger] ins@[a]@[b])
                < ins@.len(),
    ensures
        final(marked)@.len() == ins@.len(),
        ({
            let pair = sp_node(rows_view(ins@), old(marked)@, idx as int, fuel as nat);
            r@ == pair.0 && final(marked)@ == pair.1
        }),
    decreases fuel,
{
    if fuel == 0 {
        let r = String::new();
        proof {
            assert(r@ =~= sp_node(rows_view(ins@), old(marked)@, idx as int, fuel as nat).0);
        }
        return r;
    }
    if marked[idx] {
        let r = String::from_str("...");
        return r;
    }
    marked.set(idx, true);
    let ghost m1 = marked@;
    let ghost f1 = (fuel - 1) as nat;
    let mut out = String::new();
    out.append("(node ");
    let row = &ins[idx];
    let ghost rowseq = row@;
    let ghost tbl = rows_view(ins@);
    let mut done_track: Ghost<Seq<char>> = Ghost(Seq::empty());
    proof {
        assert(tbl[idx as int] == rowseq);
        assert(rowseq.skip(0) =~= rowseq);
        assert(out@ =~= "(node "@ + done_track@);
        assert(done_track@ + sp_row(tbl, marked@, rowseq.skip(0), f1).0 =~= sp_row(
            tbl,
            m1,
            rowseq,
            f1,
        ).0);
    }
    let mut b: usize = 0;
    while b < row.len()
        invariant
            marked@.len() == ins@.len(),
            row@ == rowseq,
            rowseq == ins@[idx as int]@,
            idx < ins@.len(),
            fuel >= 1,
            f1 == (fuel - 1) as nat,
            0 <= b <= rowseq.len(),
            forall|a: int, b2: int|
                0 <= a < ins@.len() && 0 <= b2 < ins@[a]@.len() ==> (#[trigger] ins@[a]@[b2])
                    < ins@.len(),
            tbl == rows_view(ins@),
            tbl[idx as int] == rowseq,
            out@ == "(node "@ + done_track@,
            sp_row(tbl, m1, rowseq, f1).0 == done_track@ + sp_row(
                tbl,
                marked@,
                rowseq.skip(b as int),
                f1,
            ).0,
            sp_row(tbl, m1, rowseq, f1).1 == sp_row(tbl, marked@, rowseq.skip(b as int), f1).1,
        decreases rowseq.len() - b,
    {
        let feeder = row[b];
        let ghost marked_before = marked@;
        proof {
            assert(ins@[idx as int]@[b as int] < ins@.len());
            assert(rowseq.skip(b as int)[0] == rowseq[b as int]);
            assert(rowseq.skip(b as int).drop_first() =~= rowseq.skip(b as int + 1));
        }
        let piece = print_node(ins, marked, feeder, fuel - 1);
        out.append(piece.as_str());
        done_track = Ghost(done_track@ + piece@);
        proof {
            let head = sp_node(tbl, marked_before, feeder as int, f1);
            assert(piece@ == head.0 && marked@ == head.1);
            assert(out@ =~= "(node "@ + done_track@);
            assert(sp_row(tbl, marked_before, rowseq.skip(b as int), f1).0 =~= head.0 + sp_row(
                tbl,
                marked@,
                rowseq.skip(b as int + 1),
                f1,
            ).0);
            assert(done_track@ + sp_row(tbl, marked@, rowseq.skip(b as int + 1), f1).0
                =~= sp_row(tbl, m1, rowseq, f1).0);
        }
        b = b + 1;
    }
    proof {
        assert(rowseq.skip(rowseq.len() as int).len() == 0);
        assert(done_track@ + sp_row(tbl, marked@, rowseq.skip(rowseq.len() as int), f1).0
            =~= done_track@);
        assert(sp_row(tbl, m1, rowseq, f1).0 == done_track@);
    }
    out.append(") ");
    proof {
        let pair = sp_node(rows_view(ins@), old(marked)@, idx as int, fuel as nat);
        assert(out@ =~= ("(node "@ + sp_row(tbl, m1, rowseq, f1).0) + ") "@);
        assert(pair.0 =~= ("(node "@ + sp_row(tbl, m1, rowseq, f1).0) + ") "@);
    }
    out
}

} // verus!
