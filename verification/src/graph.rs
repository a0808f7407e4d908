//! The graph store: nodes, their ordered port lists, and the input-to-output
//! connection map.
//!
//! The store is generic over three payload types it never inspects: per-node
//! user data `N`, the declared port data type `D`, and the constant fallback
//! value `V` of an input.

use crate::arena::{Arena, ArenaKey};
use crate::id::{AnyParameterId, InputId, NodeId, OutputId};
use crate::seq_help::lemma_take_full;
use vstd::map::*;
use vstd::prelude::*;

verus! {

/// How an input may be fed: by a connection only, by its constant fallback
/// only, or by either.
#[derive(Clone, Copy, Debug, PartialEq, Eq, Structural)]
pub enum InputParamKind {
    ConnectionOnly,
    ConstantOnly,
    ConnectionOrConstant,
}

/// An input port: its declared data type, connectivity kind, constant
/// fallback value, inline-display flag, and the owning node (a plain id, not
/// a reverse pointer).
pub struct InputParam<D, V> {
    pub node: NodeId,
    pub typ: D,
    pub value: V,
    pub kind: InputParamKind,
    pub shown_inline: bool,
}

/// An output port: its declared data type and the owning node.
pub struct OutputParam<D> {
    pub node: NodeId,
    pub typ: D,
}

/// A node: label, ordered named port lists, and an opaque user payload.
pub struct Node<N> {
    pub label: String,
    pub inputs: Vec<(String, InputId)>,
    pub outputs: Vec<(String, OutputId)>,
    pub user_data: N,
}

/// A fatal misuse of the store or the reducer: a lookup by a removed id,
/// or an event that violates a reducer precondition.
#[derive(Clone, Copy, Debug, PartialEq, Eq, Structural)]
pub enum GraphError {
    StaleIdentifier(AnyParameterId),
    PreconditionViolation,
}

/// The mathematical value of a [`Node`]: port lists as sequences.
#[verifier::ext_equal]
pub ghost struct NodeModel<N> {
    pub label: String,
    pub inputs: Seq<(String, InputId)>,
    pub outputs: Seq<(String, OutputId)>,
    pub user_data: N,
}

impl<N> View for Node<N> {
    type V = NodeModel<N>;

    open spec fn view(&self) -> NodeModel<N> {
        NodeModel {
            label: self.label,
            inputs: self.inputs@,
            outputs: self.outputs@,
            user_data: self.user_data,
        }
    }
}

/// The input ids named by a port list, as a set.
pub open spec fn seq_input_ids(ps: Seq<(String, InputId)>) -> Set<InputId> {
    ps.map_values(|p: (String, InputId)| p.1).to_set()
}

/// The output ids named by a port list, as a set.
pub open spec fn seq_output_ids(ps: Seq<(String, OutputId)>) -> Set<OutputId> {
    ps.map_values(|p: (String, OutputId)| p.1).to_set()
}

/// Walking a port list one entry further adds exactly that entry's id.
pub proof fn lemma_input_ids_take_step(ps: Seq<(String, InputId)>, i: int)
    requires
        0 <= i < ps.len(),
    ensures
        seq_input_ids(ps.take(i + 1)) =~= seq_input_ids(ps.take(i)).insert(ps[i].1),
{
    assert forall|x: InputId| seq_input_ids(ps.take(i + 1)).contains(x) implies seq_input_ids(
        ps.take(i),
    ).insert(ps[i].1).contains(x) by {
        let m = ps.take(i + 1).map_values(|p: (String, InputId)| p.1);
        let j = choose|j: int| 0 <= j < m.len() && m[j] == x;
        if j < i {
            assert(ps.take(i).map_values(|p: (String, InputId)| p.1)[j] == x);
        } else {
            assert(m[j] == ps[i].1);
        }
    }
    assert forall|x: InputId|
        seq_input_ids(ps.take(i)).insert(ps[i].1).contains(x) implies seq_input_ids(
        ps.take(i + 1),
    ).contains(x) by {
        let m = ps.take(i + 1).map_values(|p: (String, InputId)| p.1);
        if x == ps[i].1 {
            assert(m[i] == x);
        } else {
            let mp = ps.take(i).map_values(|p: (String, InputId)| p.1);
            let j = choose|j: int| 0 <= j < mp.len() && mp[j] == x;
            assert(m[j] == x);
        }
    }
}

/// The mirror of [`lemma_input_ids_take_step`] for outputs.
pub proof fn lemma_output_ids_take_step(ps: Seq<(String, OutputId)>, i: int)
    requires
        0 <= i < ps.len(),
    ensures
        seq_output_ids(ps.take(i + 1)) =~= seq_output_ids(ps.take(i)).insert(ps[i].1),
{
    assert forall|x: OutputId| seq_output_ids(ps.take(i + 1)).contains(x) implies seq_output_ids(
        ps.take(i),
    ).insert(ps[i].1).contains(x) by {
        let m = ps.take(i + 1).map_values(|p: (String, OutputId)| p.1);
        let j = choose|j: int| 0 <= j < m.len() && m[j] == x;
        if j < i {
            assert(ps.take(i).map_values(|p: (String, OutputId)| p.1)[j] == x);
        } else {
            assert(m[j] == ps[i].1);
        }
    }
    assert forall|x: OutputId|
        seq_output_ids(ps.take(i)).insert(ps[i].1).contains(x) implies seq_output_ids(
        ps.take(i + 1),
    ).contains(x) by {
        let m = ps.take(i + 1).map_values(|p: (String, OutputId)| p.1);
        if x == ps[i].1 {
            assert(m[i] == x);
        } else {
            let mp = ps.take(i).map_values(|p: (String, OutputId)| p.1);
            let j = choose|j: int| 0 <= j < mp.len() && mp[j] == x;
            assert(m[j] == x);
        }
    }
}

/// The connection list with whatever feeds `input` removed; unchanged when
/// nothing does.
pub open spec fn conns_without(
    conns: Seq<(InputId, OutputId)>,
    input: InputId,
) -> Seq<(InputId, OutputId)> {
    conns.filter(|c: (InputId, OutputId)| c.0 != input)
}

/// Severing grows pointwise along a prefix: one more element either passes
/// through or is dropped.
pub proof fn lemma_conns_without_step(s: Seq<(InputId, OutputId)>, input: InputId, i: int)
    requires
        0 <= i < s.len(),
    ensures
        conns_without(s.take(i + 1), input) == if s[i].0 != input {
            conns_without(s.take(i), input).push(s[i])
        } else {
            conns_without(s.take(i), input)
        },
{
    reveal(Seq::filter);
    assert(s.take(i + 1).drop_last() =~= s.take(i));
    assert(s.take(i + 1).last() == s[i]);
}

/// The mathematical value of a [`Graph`]: finite maps from live ids to their
/// records, and the connection list in storage order.
#[verifier::ext_equal]
pub ghost struct GraphModel<N, D, V> {
    pub nodes: Map<NodeId, NodeModel<N>>,
    pub inputs: Map<InputId, InputParam<D, V>>,
    pub outputs: Map<OutputId, OutputParam<D>>,
    pub connections: Seq<(InputId, OutputId)>,
}

impl<N, D, V> GraphModel<N, D, V> {
    /// The ids of the input ports a node's list names.
    pub open spec fn input_ids_of(nm: NodeModel<N>) -> Set<InputId> {
        seq_input_ids(nm.inputs)
    }

    /// The ids of the output ports a node's list names.
    pub open spec fn output_ids_of(nm: NodeModel<N>) -> Set<OutputId> {
        seq_output_ids(nm.outputs)
    }

    /// The connection touches a port of the given node, in either role.
    pub open spec fn touches(self, nid: NodeId, c: (InputId, OutputId)) -> bool {
        self.inputs[c.0].node == nid || self.outputs[c.1].node == nid
    }

    /// Every id a node's port lists name is live and refers back to that
    /// node, and no id appears twice in one list.
    pub open spec fn ports_owned(self) -> bool {
        &&& forall|nid: NodeId, j: int|
            self.nodes.dom().contains(nid) && 0 <= j < self.nodes[nid].inputs.len() ==> {
                let iid = (#[trigger] self.nodes[nid].inputs[j]).1;
                self.inputs.dom().contains(iid) && self.inputs[iid].node == nid
            }
        &&& forall|nid: NodeId, j: int|
            self.nodes.dom().contains(nid) && 0 <= j < self.nodes[nid].outputs.len() ==> {
                let oid = (#[trigger] self.nodes[nid].outputs[j]).1;
                self.outputs.dom().contains(oid) && self.outputs[oid].node == nid
            }
        &&& forall|nid: NodeId, j1: int, j2: int|
            self.nodes.dom().contains(nid) && 0 <= j1 < j2 < self.nodes[nid].inputs.len()
                ==> (#[trigger] self.nodes[nid].inputs[j1]).1 != (#[trigger] self.nodes[nid].inputs[j2]).1
        &&& forall|nid: NodeId, j1: int, j2: int|
            self.nodes.dom().contains(nid) && 0 <= j1 < j2 < self.nodes[nid].outputs.len()
                ==> (#[trigger] self.nodes[nid].outputs[j1]).1 != (#[trigger] self.nodes[nid].outputs[j2]).1
    }

    /// Every live port is owned by a live node whose list names it.
    pub open spec fn ports_listed(self) -> bool {
        &&& forall|iid: InputId|
            #[trigger] self.inputs.dom().contains(iid) ==> {
                let nid = self.inputs[iid].node;
                self.nodes.dom().contains(nid) && Self::input_ids_of(self.nodes[nid]).contains(iid)
            }
        &&& forall|oid: OutputId|
            #[trigger] self.outputs.dom().contains(oid) ==> {
                let nid = self.outputs[oid].node;
                self.nodes.dom().contains(nid) && Self::output_ids_of(self.nodes[nid]).contains(
                    oid,
                )
            }
    }

    /// Every connection joins live ports, and each input is connected at most
    /// once; an output's fan-out is unconstrained.
    pub open spec fn connections_wf(self) -> bool {
        &&& forall|c: int|
            0 <= c < self.connections.len() ==> self.inputs.dom().contains(
                (#[trigger] self.connections[c]).0,
            ) && self.outputs.dom().contains(self.connections[c].1)
        &&& forall|c1: int, c2: int|
            0 <= c1 < c2 < self.connections.len() ==> (#[trigger] self.connections[c1]).0
                != (#[trigger] self.connections[c2]).0
    }

    /// Well-formedness of the whole store.
    pub open spec fn wf(self) -> bool {
        &&& self.ports_owned()
        &&& self.ports_listed()
        &&& self.connections_wf()
    }

    /// The output connected to an input, if any.
    pub open spec fn connection_of(self, input: InputId) -> Option<OutputId> {
        if exists|j: int| 0 <= j < self.connections.len() && self.connections[j].0 == input {
            let j = choose|j: int|
                0 <= j < self.connections.len() && self.connections[j].0 == input;
            Some(self.connections[j].1)
        } else {
            None
        }
    }

    /// The connection list after severing whatever feeds `input`; unchanged
    /// when nothing does.
    pub open spec fn without_connection(
        conns: Seq<(InputId, OutputId)>,
        input: InputId,
    ) -> Seq<(InputId, OutputId)> {
        conns_without(conns, input)
    }

    /// The part of a connection list that touches a port of `nid`, in order.
    pub open spec fn severed_of(self, nid: NodeId, conns: Seq<(InputId, OutputId)>) -> Seq<
        (InputId, OutputId),
    > {
        conns.filter(|c: (InputId, OutputId)| self.touches(nid, c))
    }

    /// The part of a connection list that touches no port of `nid`, in order.
    pub open spec fn surviving_of(self, nid: NodeId, conns: Seq<(InputId, OutputId)>) -> Seq<
        (InputId, OutputId),
    > {
        conns.filter(|c: (InputId, OutputId)| !self.touches(nid, c))
    }

    /// The connections severed by removing `nid`: all that touch one of its
    /// ports, in storage order.
    pub open spec fn severed_connections(self, nid: NodeId) -> Seq<(InputId, OutputId)> {
        self.severed_of(nid, self.connections)
    }

    /// The connections surviving the removal of `nid`, in storage order.
    pub open spec fn surviving_connections(self, nid: NodeId) -> Seq<(InputId, OutputId)> {
        self.surviving_of(nid, self.connections)
    }

    /// Partitioning a connection list one entry further: the entry joins the
    /// severed or the surviving side as it touches `nid` or not.
    pub proof fn lemma_partition_step(self, nid: NodeId, s: Seq<(InputId, OutputId)>, i: int)
        requires
            0 <= i < s.len(),
        ensures
            self.severed_of(nid, s.take(i + 1)) == if self.touches(nid, s[i]) {
                self.severed_of(nid, s.take(i)).push(s[i])
            } else {
                self.severed_of(nid, s.take(i))
            },
            self.surviving_of(nid, s.take(i + 1)) == if !self.touches(nid, s[i]) {
                self.surviving_of(nid, s.take(i)).push(s[i])
            } else {
                self.surviving_of(nid, s.take(i))
            },
    {
        reveal(Seq::filter);
        assert(s.take(i + 1).drop_last() =~= s.take(i));
        assert(s.take(i + 1).last() == s[i]);
    }
}

/// The graph store itself: three generational arenas plus the connection
/// list.
pub struct Graph<N, D, V> {
    pub nodes: Arena<NodeId, Node<N>>,
    pub inputs: Arena<InputId, InputParam<D, V>>,
    pub outputs: Arena<OutputId, OutputParam<D>>,
    pub connections: Vec<(InputId, OutputId)>,
}

impl<N, D, V> View for Graph<N, D, V> {
    type V = GraphModel<N, D, V>;

    open spec fn view(&self) -> GraphModel<N, D, V> {
        GraphModel {
            nodes: self.nodes.contents().map_values(|n: Node<N>| n@),
            inputs: self.inputs.contents(),
            outputs: self.outputs.contents(),
            connections: self.connections@,
        }
    }
}

impl<N, D, V> Graph<N, D, V> {
    /// Well-formedness: the arenas' own invariants plus the model's.
    pub open spec fn wf(self) -> bool {
        &&& self.nodes.wf()
        &&& self.inputs.wf()
        &&& self.outputs.wf()
        &&& self@.wf()
    }

    /// An empty graph.
    pub fn new() -> (r: Self)
        ensures
            r.wf(),
            r@.nodes == Map::<NodeId, NodeModel<N>>::empty(),
            r@.inputs == Map::<InputId, InputParam<D, V>>::empty(),
            r@.outputs == Map::<OutputId, OutputParam<D>>::empty(),
            r@.connections == Seq::<(InputId, OutputId)>::empty(),
    {
        let r = Graph {
            nodes: Arena::new(),
            inputs: Arena::new(),
            outputs: Arena::new(),
            connections: Vec::new(),
        };
        proof {
            assert(r@.nodes =~= Map::<NodeId, NodeModel<N>>::empty());
            assert(r@.connections =~= Seq::<(InputId, OutputId)>::empty());
        }
        r
    }

    /// Create a node with empty port lists; ports are appended afterwards
    /// with [`Graph::add_input_param`] and [`Graph::add_output_param`].
    ///
    /// The returned id is fresh: no live id before the call equals it.
    pub fn add_node(&mut self, label: String, user_data: N) -> (id: NodeId)
        requires
            old(self).wf(),
        ensures
            final(self).wf(),
            !old(self)@.nodes.dom().contains(id),
            final(self)@.nodes == old(self)@.nodes.insert(
                id,
                NodeModel {
                    label,
                    inputs: Seq::<(String, InputId)>::empty(),
                    outputs: Seq::<(String, OutputId)>::empty(),
                    user_data,
                },
            ),
            final(self)@.inputs == old(self)@.inputs,
            final(self)@.outputs == old(self)@.outputs,
            final(self)@.connections == old(self)@.connections,
    {
        let node = Node { label, inputs: Vec::new(), outputs: Vec::new(), user_data };
        let ghost nm = node@;
        let id = self.nodes.insert(node);
        proof {
            assert(nm.inputs =~= Seq::<(String, InputId)>::empty());
            assert(nm.outputs =~= Seq::<(String, OutputId)>::empty());
            assert_maps_equal!(self@.nodes, old(self)@.nodes.insert(id, nm), q => {});
            let pre = old(self)@;
            let post = self@;
            assert forall|nid: NodeId, j: int|
                post.nodes.dom().contains(nid) && 0 <= j < post.nodes[nid].inputs.len() implies {
                let q = (#[trigger] post.nodes[nid].inputs[j]).1;
                post.inputs.dom().contains(q) && post.inputs[q].node == nid
            } by {
                assert(nid != id);
                assert(post.nodes[nid] == pre.nodes[nid]);
            }
            assert forall|nid: NodeId, j: int|
                post.nodes.dom().contains(nid) && 0 <= j < post.nodes[nid].outputs.len() implies {
                let q = (#[trigger] post.nodes[nid].outputs[j]).1;
                post.outputs.dom().contains(q) && post.outputs[q].node == nid
            } by {
                assert(nid != id);
                assert(post.nodes[nid] == pre.nodes[nid]);
            }
            assert forall|nid: NodeId, j1: int, j2: int|
                post.nodes.dom().contains(nid) && 0 <= j1 < j2
                    < post.nodes[nid].inputs.len() implies (#[trigger] post.nodes[nid].inputs[j1]).1
                != (#[trigger] post.nodes[nid].inputs[j2]).1 by {
                assert(nid != id);
                assert(post.nodes[nid] == pre.nodes[nid]);
            }
            assert forall|nid: NodeId, j1: int, j2: int|
                post.nodes.dom().contains(nid) && 0 <= j1 < j2
                    < post.nodes[nid].outputs.len() implies (#[trigger] post.nodes[nid].outputs[j1]).1
                != (#[trigger] post.nodes[nid].outputs[j2]).1 by {
                assert(nid != id);
                assert(post.nodes[nid] == pre.nodes[nid]);
            }
            assert(post.ports_owned());
            assert forall|q: InputId| #[trigger] post.inputs.dom().contains(q) implies {
                let nid = post.inputs[q].node;
                post.nodes.dom().contains(nid) && GraphModel::<N, D, V>::input_ids_of(
                    post.nodes[nid],
                ).contains(q)
            } by {
                let nid = pre.inputs[q].node;
                assert(GraphModel::<N, D, V>::input_ids_of(pre.nodes[nid]).contains(q));
                assert(post.nodes[nid] == pre.nodes[nid]);
            }
            assert forall|q: OutputId| #[trigger] post.outputs.dom().contains(q) implies {
                let nid = post.outputs[q].node;
                post.nodes.dom().contains(nid) && GraphModel::<N, D, V>::output_ids_of(
                    post.nodes[nid],
                ).contains(q)
            } by {
                let nid = pre.outputs[q].node;
                assert(GraphModel::<N, D, V>::output_ids_of(pre.nodes[nid]).contains(q));
                assert(post.nodes[nid] == pre.nodes[nid]);
            }
            assert(post.ports_listed());
            assert forall|c: int| 0 <= c < post.connections.len() implies post.inputs.dom(
            ).contains((#[trigger] post.connections[c]).0) && post.outputs.dom().contains(
                post.connections[c].1,
            ) by {
                assert(pre.connections[c] == post.connections[c]);
            }
            assert forall|c1: int, c2: int|
                0 <= c1 < c2 < post.connections.len() implies (#[trigger] post.connections[c1]).0
                != (#[trigger] post.connections[c2]).0 by {
                assert(pre.connections[c1] == post.connections[c1]);
                assert(pre.connections[c2] == post.connections[c2]);
            }
            assert(post.connections_wf());
            assert(self.nodes.wf());
            assert(self.inputs.wf());
            assert(self.outputs.wf());
            assert(post.wf());
        }
        id
    }

    /// Append an input port to a live node. The returned id is fresh.
    pub fn add_input_param(
        &mut self,
        node_id: NodeId,
        name: String,
        typ: D,
        value: V,
        kind: InputParamKind,
        shown_inline: bool,
    ) -> (iid: InputId)
        requires
            old(self).wf(),
            old(self)@.nodes.dom().contains(node_id),
        ensures
            final(self).wf(),
            !old(self)@.inputs.dom().contains(iid),
            final(self)@.inputs == old(self)@.inputs.insert(
                iid,
                InputParam { node: node_id, typ, value, kind, shown_inline },
            ),
            final(self)@.nodes == old(self)@.nodes.insert(
                node_id,
                NodeModel {
                    inputs: old(self)@.nodes[node_id].inputs.push((name, iid)),
                    ..old(self)@.nodes[node_id]
                },
            ),
            final(self)@.outputs == old(self)@.outputs,
            final(self)@.connections == old(self)@.connections,
    {
        let ghost pre = self@;
        let iid = self.inputs.insert(
            InputParam { node: node_id, typ, value, kind, shown_inline },
        );
        let mut node = self.nodes.take(node_id);
        let ghost nm_old = node@;
        node.inputs.push((name, iid));
        let ghost nm_new = node@;
        self.nodes.put_back(node_id, node);
        proof {
            let post = self@;
            assert(nm_old == pre.nodes[node_id]);
            assert(nm_new == NodeModel { inputs: nm_old.inputs.push((name, iid)), ..nm_old });
            assert_maps_equal!(post.nodes, pre.nodes.insert(node_id, nm_new), q => {});
            assert(post.inputs =~= pre.inputs.insert(
                iid,
                InputParam { node: node_id, typ, value, kind, shown_inline },
            ));
            self.lemma_add_input_wf(pre, node_id, iid, name, nm_new);
        }
        iid
    }

    /// The well-formedness argument for [`Graph::add_input_param`]: a fresh
    /// input appended to one node's list leaves ownership intact.
    proof fn lemma_add_input_wf(
        &self,
        pre: GraphModel<N, D, V>,
        node_id: NodeId,
        iid: InputId,
        name: String,
        nm_new: NodeModel<N>,
    )
        requires
            pre.wf(),
            pre.nodes.dom().contains(node_id),
            !pre.inputs.dom().contains(iid),
            nm_new == (NodeModel {
                inputs: pre.nodes[node_id].inputs.push((name, iid)),
                ..pre.nodes[node_id]
            }),
            self@.nodes == pre.nodes.insert(node_id, nm_new),
            self@.inputs == pre.inputs.insert(iid, self@.inputs[iid]),
            self@.inputs[iid].node == node_id,
            self@.outputs == pre.outputs,
            self@.connections == pre.connections,
        ensures
            self@.wf(),
    {
        let post = self@;
        let nm_old = pre.nodes[node_id];
        assert forall|nid: NodeId, j: int|
            post.nodes.dom().contains(nid) && 0 <= j < post.nodes[nid].inputs.len() implies {
            let q = (#[trigger] post.nodes[nid].inputs[j]).1;
            post.inputs.dom().contains(q) && post.inputs[q].node == nid
        } by {
            if nid == node_id {
                if j < nm_old.inputs.len() {
                    assert(post.nodes[nid].inputs[j] == nm_old.inputs[j]);
                    assert(nm_old.inputs[j].1 != iid) by {
                        assert(pre.inputs.dom().contains(nm_old.inputs[j].1));
                    }
                } else {
                    assert(post.nodes[nid].inputs[j].1 == iid);
                }
            } else {
                assert(post.nodes[nid] == pre.nodes[nid]);
                assert(pre.inputs.dom().contains(post.nodes[nid].inputs[j].1));
                assert(post.nodes[nid].inputs[j].1 != iid);
            }
        }
        assert forall|nid: NodeId, j1: int, j2: int|
            post.nodes.dom().contains(nid) && 0 <= j1 < j2 < post.nodes[nid].inputs.len() implies (
            #[trigger] post.nodes[nid].inputs[j1]).1 != (#[trigger] post.nodes[nid].inputs[j2]).1 by {
            if nid == node_id {
                if j2 == nm_old.inputs.len() {
                    assert(post.nodes[nid].inputs[j1] == nm_old.inputs[j1]);
                    assert(pre.inputs.dom().contains(nm_old.inputs[j1].1));
                } else {
                    assert(post.nodes[nid].inputs[j1] == nm_old.inputs[j1]);
                    assert(post.nodes[nid].inputs[j2] == nm_old.inputs[j2]);
                }
            } else {
                assert(post.nodes[nid] == pre.nodes[nid]);
            }
        }
        assert forall|q: InputId| #[trigger] post.inputs.dom().contains(q) implies {
            let nid = post.inputs[q].node;
            post.nodes.dom().contains(nid) && GraphModel::<N, D, V>::input_ids_of(
                post.nodes[nid],
            ).contains(q)
        } by {
            if q == iid {
                let mapped = nm_new.inputs.map_values(|p: (String, InputId)| p.1);
                assert(mapped[nm_new.inputs.len() - 1] == iid);
                assert(mapped.to_set().contains(iid));
            } else {
                let nid = pre.inputs[q].node;
                assert(GraphModel::<N, D, V>::input_ids_of(pre.nodes[nid]).contains(q));
                if nid == node_id {
                    let mapped_old = nm_old.inputs.map_values(|p: (String, InputId)| p.1);
                    let mapped_new = nm_new.inputs.map_values(|p: (String, InputId)| p.1);
                    let j = choose|j: int| 0 <= j < mapped_old.len() && mapped_old[j] == q;
                    assert(mapped_new[j] == q);
                    assert(mapped_new.to_set().contains(q));
                } else {
                    assert(post.nodes[nid] == pre.nodes[nid]);
                }
            }
        }
        assert forall|q: OutputId| #[trigger] post.outputs.dom().contains(q) implies {
            let nid = post.outputs[q].node;
            post.nodes.dom().contains(nid) && GraphModel::<N, D, V>::output_ids_of(
                post.nodes[nid],
            ).contains(q)
        } by {
            let nid = pre.outputs[q].node;
            assert(GraphModel::<N, D, V>::output_ids_of(pre.nodes[nid]).contains(q));
            if nid == node_id {
                assert(nm_new.outputs == nm_old.outputs);
            } else {
                assert(post.nodes[nid] == pre.nodes[nid]);
            }
        }
        assert forall|nid: NodeId, j: int|
            post.nodes.dom().contains(nid) && 0 <= j < post.nodes[nid].outputs.len() implies {
            let oid = (#[trigger] post.nodes[nid].outputs[j]).1;
            post.outputs.dom().contains(oid) && post.outputs[oid].node == nid
        } by {
            if nid == node_id {
                assert(post.nodes[nid].outputs == nm_old.outputs);
            } else {
                assert(post.nodes[nid] == pre.nodes[nid]);
            }
        }
        assert forall|nid: NodeId, j1: int, j2: int|
            post.nodes.dom().contains(nid) && 0 <= j1 < j2 < post.nodes[nid].outputs.len() implies (
            #[trigger] post.nodes[nid].outputs[j1]).1 != (#[trigger] post.nodes[nid].outputs[j2]).1 by {
            if nid == node_id {
                assert(post.nodes[nid].outputs == nm_old.outputs);
            } else {
                assert(post.nodes[nid] == pre.nodes[nid]);
            }
        }
    }

    /// Append an output port to a live node. The returned id is fresh.
    pub fn add_output_param(&mut self, node_id: NodeId, name: String, typ: D) -> (oid: OutputId)
        requires
            old(self).wf(),
            old(self)@.nodes.dom().contains(node_id),
        ensures
            final(self).wf(),
            !old(self)@.outputs.dom().contains(oid),
            final(self)@.outputs == old(self)@.outputs.insert(
                oid,
                OutputParam { node: node_id, typ },
            ),
            final(self)@.nodes == old(self)@.nodes.insert(
                node_id,
                NodeModel {
                    outputs: old(self)@.nodes[node_id].outputs.push((name, oid)),
                    ..old(self)@.nodes[node_id]
                },
            ),
            final(self)@.inputs == old(self)@.inputs,
            final(self)@.connections == old(self)@.connections,
    {
        let ghost pre = self@;
        let oid = self.outputs.insert(OutputParam { node: node_id, typ });
        let mut node = self.nodes.take(node_id);
        let ghost nm_old = node@;
        node.outputs.push((name, oid));
        let ghost nm_new = node@;
        self.nodes.put_back(node_id, node);
        proof {
            let post = self@;
            assert(nm_old == pre.nodes[node_id]);
            assert(nm_new == NodeModel { outputs: nm_old.outputs.push((name, oid)), ..nm_old });
            assert_maps_equal!(post.nodes, pre.nodes.insert(node_id, nm_new), q => {});
            assert(post.outputs =~= pre.outputs.insert(oid, OutputParam { node: node_id, typ }));
            self.lemma_add_output_wf(pre, node_id, oid, name, nm_new);
        }
        oid
    }

    /// The well-formedness argument for [`Graph::add_output_param`], the
    /// mirror image of [`Graph::lemma_add_input_wf`].
    proof fn lemma_add_output_wf(
        &self,
        pre: GraphModel<N, D, V>,
        node_id: NodeId,
        oid: OutputId,
        name: String,
        nm_new: NodeModel<N>,
    )
        requires
            pre.wf(),
            pre.nodes.dom().contains(node_id),
            !pre.outputs.dom().contains(oid),
            nm_new == (NodeModel {
                outputs: pre.nodes[node_id].outputs.push((name, oid)),
                ..pre.nodes[node_id]
            }),
            self@.nodes == pre.nodes.insert(node_id, nm_new),
            self@.outputs == pre.outputs.insert(oid, self@.outputs[oid]),
            self@.outputs[oid].node == node_id,
            self@.inputs == pre.inputs,
            self@.connections == pre.connections,
        ensures
            self@.wf(),
    {
        let post = self@;
        let nm_old = pre.nodes[node_id];
        assert forall|nid: NodeId, j: int|
            post.nodes.dom().contains(nid) && 0 <= j < post.nodes[nid].outputs.len() implies {
            let q = (#[trigger] post.nodes[nid].outputs[j]).1;
            post.outputs.dom().contains(q) && post.outputs[q].node == nid
        } by {
            if nid == node_id {
                if j < nm_old.outputs.len() {
                    assert(post.nodes[nid].outputs[j] == nm_old.outputs[j]);
                    assert(nm_old.outputs[j].1 != oid) by {
                        assert(pre.outputs.dom().contains(nm_old.outputs[j].1));
                    }
                } else {
                    assert(post.nodes[nid].outputs[j].1 == oid);
                }
            } else {
                assert(post.nodes[nid] == pre.nodes[nid]);
                assert(pre.outputs.dom().contains(post.nodes[nid].outputs[j].1));
                assert(post.nodes[nid].outputs[j].1 != oid);
            }
        }
        assert forall|nid: NodeId, j1: int, j2: int|
            post.nodes.dom().contains(nid) && 0 <= j1 < j2 < post.nodes[nid].outputs.len() implies (
            #[trigger] post.nodes[nid].outputs[j1]).1 != (#[trigger] post.nodes[nid].outputs[j2]).1 by {
            if nid == node_id {
                if j2 == nm_old.outputs.len() {
                    assert(post.nodes[nid].outputs[j1] == nm_old.outputs[j1]);
                    assert(pre.outputs.dom().contains(nm_old.outputs[j1].1));
                } else {
                    assert(post.nodes[nid].outputs[j1] == nm_old.outputs[j1]);
                    assert(post.nodes[nid].outputs[j2] == nm_old.outputs[j2]);
                }
            } else {
                assert(post.nodes[nid] == pre.nodes[nid]);
            }
        }
        assert forall|q: OutputId| #[trigger] post.outputs.dom().contains(q) implies {
            let nid = post.outputs[q].node;
            post.nodes.dom().contains(nid) && GraphModel::<N, D, V>::output_ids_of(
                post.nodes[nid],
            ).contains(q)
        } by {
            if q == oid {
                let mapped = nm_new.outputs.map_values(|p: (String, OutputId)| p.1);
                assert(mapped[nm_new.outputs.len() - 1] == oid);
                assert(mapped.to_set().contains(oid));
            } else {
                let nid = pre.outputs[q].node;
                assert(GraphModel::<N, D, V>::output_ids_of(pre.nodes[nid]).contains(q));
                if nid == node_id {
                    let mapped_old = nm_old.outputs.map_values(|p: (String, OutputId)| p.1);
                    let mapped_new = nm_new.outputs.map_values(|p: (String, OutputId)| p.1);
                    let j = choose|j: int| 0 <= j < mapped_old.len() && mapped_old[j] == q;
                    assert(mapped_new[j] == q);
                    assert(mapped_new.to_set().contains(q));
                } else {
                    assert(post.nodes[nid] == pre.nodes[nid]);
                }
            }
        }
        assert forall|q: InputId| #[trigger] post.inputs.dom().contains(q) implies {
            let nid = post.inputs[q].node;
            post.nodes.dom().contains(nid) && GraphModel::<N, D, V>::input_ids_of(
                post.nodes[nid],
            ).contains(q)
        } by {
            let nid = pre.inputs[q].node;
            assert(GraphModel::<N, D, V>::input_ids_of(pre.nodes[nid]).contains(q));
            if nid == node_id {
                assert(nm_new.inputs == nm_old.inputs);
            } else {
                assert(post.nodes[nid] == pre.nodes[nid]);
            }
        }
        assert forall|nid: NodeId, j: int|
            post.nodes.dom().contains(nid) && 0 <= j < post.nodes[nid].inputs.len() implies {
            let q = (#[trigger] post.nodes[nid].inputs[j]).1;
            post.inputs.dom().contains(q) && post.inputs[q].node == nid
        } by {
            if nid == node_id {
                assert(post.nodes[nid].inputs == nm_old.inputs);
            } else {
                assert(post.nodes[nid] == pre.nodes[nid]);
            }
        }
        assert forall|nid: NodeId, j1: int, j2: int|
            post.nodes.dom().contains(nid) && 0 <= j1 < j2 < post.nodes[nid].inputs.len() implies (
            #[trigger] post.nodes[nid].inputs[j1]).1 != (#[trigger] post.nodes[nid].inputs[j2]).1 by {
            if nid == node_id {
                assert(post.nodes[nid].inputs == nm_old.inputs);
            } else {
                assert(post.nodes[nid] == pre.nodes[nid]);
            }
        }
    }

    /// The output currently feeding `input`, if any. Looking up an input
    /// that was never connected, or whose connection was severed, yields
    /// `None`.
    pub fn connection(&self, input: InputId) -> (r: Option<OutputId>)
        requires
            self.wf(),
        ensures
            match r {
                Some(o) => self@.connections.contains((input, o)),
                None => forall|j: int|
                    0 <= j < self@.connections.len() ==> (#[trigger] self@.connections[j]).0
                        != input,
            },
            r == self@.connection_of(input),
    {
        let mut i: usize = 0;
        let mut found: Option<OutputId> = None;
        while i < self.connections.len()
            invariant
                0 <= i <= self.connections@.len(),
                match found {
                    Some(o) => self@.connections.contains((input, o)),
                    None => forall|j: int|
                        0 <= j < i ==> (#[trigger] self@.connections[j]).0 != input,
                },
                found is Some ==> exists|j: int|
                    0 <= j < self@.connections.len() && self@.connections[j].0 == input,
            decreases self.connections@.len() - i,
        {
            if found.is_none() {
                let c = self.connections[i];
                if c.0 == input {
                    found = Some(c.1);
                    proof {
                        assert(self@.connections[i as int] == c);
                        assert(self@.connections.contains((input, c.1)));
                    }
                }
            }
            i = i + 1;
        }
        proof {
            match found {
                Some(o) => {
                    let j = choose|j: int|
                        0 <= j < self@.connections.len() && self@.connections[j] == (input, o);
                    let jj = choose|j: int|
                        0 <= j < self@.connections.len() && self@.connections[j].0 == input;
                    assert(self@.connections[jj].0 == self@.connections[j].0);
                    assert(jj == j || self@.connections[jj].0 != self@.connections[j].0);
                },
                None => {},
            }
        }
        found
    }

    /// Connect `output` to `input`, unconditionally replacing whatever fed
    /// the input before: last write wins. No type check is performed; callers
    /// validate compatibility beforehand.
    pub fn add_connection(&mut self, output: OutputId, input: InputId)
        requires
            old(self).wf(),
            old(self)@.inputs.dom().contains(input),
            old(self)@.outputs.dom().contains(output),
        ensures
            final(self).wf(),
            final(self)@.nodes == old(self)@.nodes,
            final(self)@.inputs == old(self)@.inputs,
            final(self)@.outputs == old(self)@.outputs,
            forall|j: int|
                0 <= j < old(self)@.connections.len() && (#[trigger] old(self)@.connections[j]).0
                    == input ==> final(self)@.connections == old(self)@.connections.update(
                    j,
                    (input, output),
                ),
            (forall|j: int|
                0 <= j < old(self)@.connections.len() ==> (#[trigger] old(self)@.connections[j]).0
                    != input) ==> final(self)@.connections == old(self)@.connections.push(
                (input, output),
            ),
    {
        let ghost pre = self@;
        let mut i: usize = 0;
        while i < self.connections.len()
            invariant
                0 <= i <= pre.connections.len(),
                self@ == pre,
                self.wf(),
                old(self)@ == pre,
                pre.inputs.dom().contains(input),
                pre.outputs.dom().contains(output),
                forall|j: int| 0 <= j < i ==> (#[trigger] pre.connections[j]).0 != input,
            decreases pre.connections.len() - i,
        {
            if self.connections[i].0 == input {
                self.connections.set(i, (input, output));
                proof {
                    let post = self@;
                    assert(post.connections =~= pre.connections.update(i as int, (input, output)));
                    assert forall|j: int|
                        0 <= j < pre.connections.len() && (#[trigger] pre.connections[j]).0
                            == input implies post.connections == pre.connections.update(
                        j,
                        (input, output),
                    ) by {
                        if j < i as int {
                        } else if j > i as int {
                            assert(pre.connections[i as int].0 == input);
                        }
                    }
                    assert forall|c1: int, c2: int|
                        0 <= c1 < c2 < post.connections.len() implies (
                    #[trigger] post.connections[c1]).0 != (#[trigger] post.connections[c2]).0 by {
                        assert(post.connections[c1].0 == pre.connections[c1].0);
                        assert(post.connections[c2].0 == pre.connections[c2].0);
                    }
                    assert forall|c: int| 0 <= c < post.connections.len() implies post.inputs.dom(
                    ).contains((#[trigger] post.connections[c]).0) && post.outputs.dom().contains(
                        post.connections[c].1,
                    ) by {
                        if c != i as int {
                            assert(post.connections[c] == pre.connections[c]);
                        } else {
                            assert(post.connections[c] == (input, output));
                            assert(post.inputs == pre.inputs);
                            assert(post.outputs == pre.outputs);
                        }
                    }
                }
                return ;
            }
            i = i + 1;
        }
        let ghost pre_push = self@;
        self.connections.push((input, output));
        proof {
            let post = self@;
            assert(post.connections =~= pre.connections.push((input, output)));
            assert forall|c: int| 0 <= c < post.connections.len() implies post.inputs.dom(
            ).contains((#[trigger] post.connections[c]).0) && post.outputs.dom().contains(
                post.connections[c].1,
            ) by {
                if c < pre.connections.len() {
                    assert(post.connections[c] == pre.connections[c]);
                }
            }
            assert forall|c1: int, c2: int|
                0 <= c1 < c2 < post.connections.len() implies (#[trigger] post.connections[c1]).0
                != (#[trigger] post.connections[c2]).0 by {
                assert(post.connections[c1] == pre.connections[c1]);
                if c2 < pre.connections.len() {
                    assert(post.connections[c2] == pre.connections[c2]);
                }
            }
        }
    }

    /// Sever whatever connection feeds `input`, returning the freed output.
    /// Removing a non-existent connection is a no-op, not an error.
    pub fn remove_connection(&mut self, input: InputId) -> (r: Option<OutputId>)
        requires
            old(self).wf(),
        ensures
            final(self).wf(),
            final(self)@.nodes == old(self)@.nodes,
            final(self)@.inputs == old(self)@.inputs,
            final(self)@.outputs == old(self)@.outputs,
            final(self)@.connections == GraphModel::<N, D, V>::without_connection(
                old(self)@.connections,
                input,
            ),
            match r {
                Some(o) => old(self)@.connections.contains((input, o)),
                None => forall|j: int|
                    0 <= j < old(self)@.connections.len() ==> (
                    #[trigger] old(self)@.connections[j]).0 != input,
            },
            r is None ==> final(self)@.connections == old(self)@.connections,
    {
        let ghost pre = self@;
        let mut kept: Vec<(InputId, OutputId)> = Vec::new();
        let mut found: Option<OutputId> = None;
        let mut i: usize = 0;
        while i < self.connections.len()
            invariant
                0 <= i <= pre.connections.len(),
                self@ == pre,
                self.wf(),
                old(self)@ == pre,
                pre.wf(),
                kept@ == conns_without(pre.connections.take(i as int), input),
                forall|a: int|
                    0 <= a < kept@.len() ==> exists|j: int|
                        0 <= j < i && #[trigger] kept@[a] == pre.connections[j],
                forall|a: int, b: int|
                    0 <= a < b < kept@.len() ==> (#[trigger] kept@[a]).0 != (#[trigger] kept@[b]).0,
                found is None ==> kept@ == pre.connections.take(i as int),
                match found {
                    Some(o) => pre.connections.contains((input, o)),
                    None => forall|j: int|
                        0 <= j < i ==> (#[trigger] pre.connections[j]).0 != input,
                },
            decreases pre.connections.len() - i,
        {
            let c = self.connections[i];
            proof {
                lemma_conns_without_step(pre.connections, input, i as int);
                assert(pre.connections[i as int] == c);
            }
            if c.0 == input {
                found = Some(c.1);
                proof {
                    assert(pre.connections.contains((input, c.1)));
                }
            } else {
                let ghost kept_before = kept@;
                kept.push(c);
                proof {
                    assert forall|a: int| 0 <= a < kept@.len() implies exists|j: int|
                        0 <= j < i + 1 && #[trigger] kept@[a] == pre.connections[j] by {
                        if a < kept_before.len() {
                            let j = choose|j: int|
                                0 <= j < i && #[trigger] kept_before[a] == pre.connections[j];
                            assert(kept@[a] == pre.connections[j]);
                        } else {
                            assert(kept@[a] == pre.connections[i as int]);
                        }
                    }
                    assert forall|a: int, b: int| 0 <= a < b < kept@.len() implies (
                    #[trigger] kept@[a]).0 != (#[trigger] kept@[b]).0 by {
                        if b == kept@.len() - 1 {
                            assert(kept@[a] == kept_before[a]);
                            let j = choose|j: int|
                                0 <= j < i && #[trigger] kept_before[a] == pre.connections[j];
                            assert(pre.connections[j].0 != pre.connections[i as int].0);
                        } else {
                            assert(kept@[a] == kept_before[a]);
                            assert(kept@[b] == kept_before[b]);
                        }
                    }
                    if found is None {
                        assert(kept@ =~= pre.connections.take(i + 1));
                    }
                }
            }
            i = i + 1;
        }
        proof {
            lemma_take_full(pre.connections);
        }
        let ghost kept_view = kept@;
        self.connections = kept;
        proof {
            let post = self@;
            assert(post.connections =~= kept_view);
            assert(post.connections == GraphModel::<N, D, V>::without_connection(
                pre.connections,
                input,
            ));
            assert forall|c: int| 0 <= c < post.connections.len() implies post.inputs.dom(
            ).contains((#[trigger] post.connections[c]).0) && post.outputs.dom().contains(
                post.connections[c].1,
            ) by {
                assert(kept_view[c] == post.connections[c]);
                let j = choose|j: int|
                    0 <= j < pre.connections.len() && #[trigger] kept_view[c]
                        == pre.connections[j];
                assert(pre.inputs.dom().contains(pre.connections[j].0));
                assert(pre.outputs.dom().contains(pre.connections[j].1));
            }
            assert forall|c1: int, c2: int|
                0 <= c1 < c2 < post.connections.len() implies (#[trigger] post.connections[c1]).0
                != (#[trigger] post.connections[c2]).0 by {
                assert(kept_view[c1] == post.connections[c1]);
                assert(kept_view[c2] == post.connections[c2]);
            }
            if found is None {
                assert(post.connections == pre.connections);
            }
        }
        found
    }

    /// Remove a live node: every connection touching one of its ports is
    /// severed first (each reported, in storage order), then the node and its
    /// ports are dropped. Returns the removed node and the severed pairs.
    pub fn remove_node(&mut self, node_id: NodeId) -> (r: (Node<N>, Vec<(InputId, OutputId)>))
        requires
            old(self).wf(),
            old(self)@.nodes.dom().contains(node_id),
        ensures
            final(self).wf(),
            r.0@ == old(self)@.nodes[node_id],
            r.1@ == old(self)@.severed_connections(node_id),
            final(self)@.connections == old(self)@.surviving_connections(node_id),
            final(self)@.nodes == old(self)@.nodes.remove(node_id),
            final(self)@.inputs == old(self)@.inputs.remove_keys(
                GraphModel::<N, D, V>::input_ids_of(old(self)@.nodes[node_id]),
            ),
            final(self)@.outputs == old(self)@.outputs.remove_keys(
                GraphModel::<N, D, V>::output_ids_of(old(self)@.nodes[node_id]),
            ),
    {
        let ghost pre = self@;
        let mut kept: Vec<(InputId, OutputId)> = Vec::new();
        let mut severed: Vec<(InputId, OutputId)> = Vec::new();
        let mut i: usize = 0;
        while i < self.connections.len()
            invariant
                0 <= i <= pre.connections.len(),
                self@ == pre,
                self.wf(),
                pre.nodes.dom().contains(node_id),
                severed@ == pre.severed_of(node_id, pre.connections.take(i as int)),
                kept@ == pre.surviving_of(node_id, pre.connections.take(i as int)),
                forall|a: int|
                    0 <= a < kept@.len() ==> exists|j: int|
                        0 <= j < i && #[trigger] kept@[a] == pre.connections[j],
                forall|a: int| 0 <= a < kept@.len() ==> !pre.touches(node_id, #[trigger] kept@[a]),
                forall|a: int, b: int|
                    0 <= a < b < kept@.len() ==> (#[trigger] kept@[a]).0 != (#[trigger] kept@[b]).0,
            decreases pre.connections.len() - i,
        {
            let c = self.connections[i];
            proof {
                pre.lemma_partition_step(node_id, pre.connections, i as int);
                assert(pre.connections[i as int] == c);
                assert(pre.inputs.dom().contains(c.0) && pre.outputs.dom().contains(c.1));
            }
            let touched = {
                let inp = self.inputs.get(c.0).unwrap();
                if inp.node == node_id {
                    true
                } else {
                    let outp = self.outputs.get(c.1).unwrap();
                    outp.node == node_id
                }
            };
            proof {
                assert(touched == pre.touches(node_id, c));
            }
            if touched {
                severed.push(c);
            } else {
                let ghost kept_before = kept@;
                kept.push(c);
                proof {
                    assert forall|a: int| 0 <= a < kept@.len() implies exists|j: int|
                        0 <= j < i + 1 && #[trigger] kept@[a] == pre.connections[j] by {
                        if a < kept_before.len() {
                            let j = choose|j: int|
                                0 <= j < i && #[trigger] kept_before[a] == pre.connections[j];
                            assert(kept@[a] == pre.connections[j]);
                        } else {
                            assert(kept@[a] == pre.connections[i as int]);
                        }
                    }
                    assert forall|a: int, b: int| 0 <= a < b < kept@.len() implies (
                    #[trigger] kept@[a]).0 != (#[trigger] kept@[b]).0 by {
                        if b == kept@.len() - 1 {
                            assert(kept@[a] == kept_before[a]);
                            let j = choose|j: int|
                                0 <= j < i && #[trigger] kept_before[a] == pre.connections[j];
                            assert(pre.connections[j].0 != pre.connections[i as int].0);
                        } else {
                            assert(kept@[a] == kept_before[a]);
                            assert(kept@[b] == kept_before[b]);
                        }
                    }
                }
            }
            i = i + 1;
        }
        proof {
            lemma_take_full(pre.connections);
        }
        let ghost kept_view = kept@;
        self.connections = kept;
        let node = self.nodes.remove(node_id);
        let ghost nm = pre.nodes[node_id];
        proof {
            assert(node@ == nm);
            assert_maps_equal!(self@.nodes, pre.nodes.remove(node_id), q => {});
        }
        let mut pi: usize = 0;
        while pi < node.inputs.len()
            invariant
                0 <= pi <= nm.inputs.len(),
                node@ == nm,
                pre.wf(),
                pre.nodes.dom().contains(node_id),
                nm == pre.nodes[node_id],
                self.nodes.wf(),
                self.inputs.wf(),
                self.outputs.wf(),
                self@.nodes == pre.nodes.remove(node_id),
                self@.inputs == pre.inputs.remove_keys(seq_input_ids(nm.inputs.take(pi as int))),
                self@.outputs == pre.outputs,
                self@.connections == kept_view,
            decreases nm.inputs.len() - pi,
        {
            let iid = node.inputs[pi].1;
            proof {
                assert(nm.inputs[pi as int] == pre.nodes[node_id].inputs[pi as int]);
                assert(pre.inputs.dom().contains(iid) && pre.inputs[iid].node == node_id);
                assert forall|j: int| 0 <= j < pi implies (#[trigger] nm.inputs[j]).1 != iid by {
                    assert(pre.nodes[node_id].inputs[j].1 != pre.nodes[node_id].inputs[pi as int].1);
                }
                if seq_input_ids(nm.inputs.take(pi as int)).contains(iid) {
                    let m = nm.inputs.take(pi as int).map_values(|p: (String, InputId)| p.1);
                    let j = choose|j: int| 0 <= j < m.len() && m[j] == iid;
                    assert(nm.inputs[j].1 == iid);
                }
                assert(self@.inputs.dom().contains(iid));
            }
            let _ = self.inputs.remove(iid);
            proof {
                lemma_input_ids_take_step(nm.inputs, pi as int);
                assert_maps_equal!(
                    self@.inputs,
                    pre.inputs.remove_keys(seq_input_ids(nm.inputs.take(pi as int + 1))),
                    q => {}
                );
            }
            pi = pi + 1;
        }
        proof {
            assert(nm.inputs.take(nm.inputs.len() as int) =~= nm.inputs);
        }
        let mut po: usize = 0;
        while po < node.outputs.len()
            invariant
                0 <= po <= nm.outputs.len(),
                node@ == nm,
                pre.wf(),
                pre.nodes.dom().contains(node_id),
                nm == pre.nodes[node_id],
                self.nodes.wf(),
                self.inputs.wf(),
                self.outputs.wf(),
                self@.nodes == pre.nodes.remove(node_id),
                self@.inputs == pre.inputs.remove_keys(
                    GraphModel::<N, D, V>::input_ids_of(pre.nodes[node_id]),
                ),
                self@.outputs == pre.outputs.remove_keys(seq_output_ids(nm.outputs.take(po as int))),
                self@.connections == kept_view,
            decreases nm.outputs.len() - po,
        {
            let oid = node.outputs[po].1;
            proof {
                assert(nm.outputs[po as int] == pre.nodes[node_id].outputs[po as int]);
                assert(pre.outputs.dom().contains(oid) && pre.outputs[oid].node == node_id);
                assert forall|j: int| 0 <= j < po implies (#[trigger] nm.outputs[j]).1 != oid by {
                    assert(pre.nodes[node_id].outputs[j].1
                        != pre.nodes[node_id].outputs[po as int].1);
                }
                if seq_output_ids(nm.outputs.take(po as int)).contains(oid) {
                    let m = nm.outputs.take(po as int).map_values(|p: (String, OutputId)| p.1);
                    let j = choose|j: int| 0 <= j < m.len() && m[j] == oid;
                    assert(nm.outputs[j].1 == oid);
                }
                assert(self@.outputs.dom().contains(oid));
            }
            let _ = self.outputs.remove(oid);
            proof {
                lemma_output_ids_take_step(nm.outputs, po as int);
                assert_maps_equal!(
                    self@.outputs,
                    pre.outputs.remove_keys(seq_output_ids(nm.outputs.take(po as int + 1))),
                    q => {}
                );
            }
            po = po + 1;
        }
        proof {
            assert(nm.outputs.take(nm.outputs.len() as int) =~= nm.outputs);
            self.lemma_remove_node_wf(pre, node_id);
            assert forall|a: int| 0 <= a < kept_view.len() implies self@.inputs.dom().contains(
                (#[trigger] kept_view[a]).0,
            ) && self@.outputs.dom().contains(kept_view[a].1) by {
                let j = choose|j: int|
                    0 <= j < pre.connections.len() && #[trigger] kept_view[a]
                        == pre.connections[j];
                let c = kept_view[a];
                assert(pre.inputs.dom().contains(c.0) && pre.outputs.dom().contains(c.1));
                assert(!pre.touches(node_id, c));
                if GraphModel::<N, D, V>::input_ids_of(pre.nodes[node_id]).contains(c.0) {
                    let m = nm.inputs.map_values(|p: (String, InputId)| p.1);
                    let jj = choose|jj: int| 0 <= jj < m.len() && m[jj] == c.0;
                    assert(nm.inputs[jj].1 == c.0);
                    assert(pre.inputs[c.0].node == node_id);
                }
                if GraphModel::<N, D, V>::output_ids_of(pre.nodes[node_id]).contains(c.1) {
                    let m = nm.outputs.map_values(|p: (String, OutputId)| p.1);
                    let jj = choose|jj: int| 0 <= jj < m.len() && m[jj] == c.1;
                    assert(nm.outputs[jj].1 == c.1);
                    assert(pre.outputs[c.1].node == node_id);
                }
            }
            assert(self@.connections_wf());
            assert(self@.wf());
        }
        (node, severed)
    }

    /// Is the node id live?
    pub fn contains_node(&self, nid: NodeId) -> (r: bool)
        ensures
            r == self@.nodes.dom().contains(nid),
    {
        self.nodes.contains_key(nid)
    }

    /// Is the input id live?
    pub fn contains_input(&self, iid: InputId) -> (r: bool)
        ensures
            r == self@.inputs.dom().contains(iid),
    {
        self.inputs.contains_key(iid)
    }

    /// Is the output id live?
    pub fn contains_output(&self, oid: OutputId) -> (r: bool)
        ensures
            r == self@.outputs.dom().contains(oid),
    {
        self.outputs.contains_key(oid)
    }

    /// The input port record under a live id.
    pub fn get_input(&self, iid: InputId) -> (r: &InputParam<D, V>)
        requires
            self@.inputs.dom().contains(iid),
        ensures
            *r == self@.inputs[iid],
    {
        self.inputs.get(iid).unwrap()
    }

    /// The output port record under a live id.
    pub fn get_output(&self, oid: OutputId) -> (r: &OutputParam<D>)
        requires
            self@.outputs.dom().contains(oid),
        ensures
            *r == self@.outputs[oid],
    {
        self.outputs.get(oid).unwrap()
    }

    /// The node record under a live id.
    pub fn get_node(&self, nid: NodeId) -> (r: &Node<N>)
        requires
            self@.nodes.dom().contains(nid),
        ensures
            r@ == self@.nodes[nid],
    {
        self.nodes.get(nid).unwrap()
    }

    /// The declared data type of an input or output. Fails with
    /// [`GraphError::StaleIdentifier`] exactly when the id no longer
    /// resolves.
    pub fn any_param_type(&self, param: AnyParameterId) -> (r: Result<&D, GraphError>)
        ensures
            match param {
                AnyParameterId::Input(iid) => match r {
                    Ok(t) => self@.inputs.dom().contains(iid) && *t == self@.inputs[iid].typ,
                    Err(e) => !self@.inputs.dom().contains(iid) && e == GraphError::StaleIdentifier(
                        param,
                    ),
                },
                AnyParameterId::Output(oid) => match r {
                    Ok(t) => self@.outputs.dom().contains(oid) && *t == self@.outputs[oid].typ,
                    Err(e) => !self@.outputs.dom().contains(oid) && e
                        == GraphError::StaleIdentifier(param),
                },
            },
    {
        match param {
            AnyParameterId::Input(iid) => match self.inputs.get(iid) {
                Some(p) => Ok(&p.typ),
                None => Err(GraphError::StaleIdentifier(param)),
            },
            AnyParameterId::Output(oid) => match self.outputs.get(oid) {
                Some(p) => Ok(&p.typ),
                None => Err(GraphError::StaleIdentifier(param)),
            },
        }
    }

    /// The node owning an input or output port. Fails with
    /// [`GraphError::StaleIdentifier`] exactly when the id no longer
    /// resolves.
    pub fn param_owner(&self, param: AnyParameterId) -> (r: Result<NodeId, GraphError>)
        ensures
            match param {
                AnyParameterId::Input(iid) => match r {
                    Ok(n) => self@.inputs.dom().contains(iid) && n == self@.inputs[iid].node,
                    Err(e) => !self@.inputs.dom().contains(iid) && e == GraphError::StaleIdentifier(
                        param,
                    ),
                },
                AnyParameterId::Output(oid) => match r {
                    Ok(n) => self@.outputs.dom().contains(oid) && n == self@.outputs[oid].node,
                    Err(e) => !self@.outputs.dom().contains(oid) && e
                        == GraphError::StaleIdentifier(param),
                },
            },
    {
        match param {
            AnyParameterId::Input(iid) => match self.inputs.get(iid) {
                Some(p) => Ok(p.node),
                None => Err(GraphError::StaleIdentifier(param)),
            },
            AnyParameterId::Output(oid) => match self.outputs.get(oid) {
                Some(p) => Ok(p.node),
                None => Err(GraphError::StaleIdentifier(param)),
            },
        }
    }

    /// All live node ids, in storage (slot) order — not z-order.
    pub fn iter_nodes(&self) -> (r: Vec<NodeId>)
        ensures
            r@ == self.nodes.keys_in_order(),
            forall|i: int| 0 <= i < r@.len() ==> self@.nodes.dom().contains(#[trigger] r@[i]),
            forall|nid: NodeId| self@.nodes.dom().contains(nid) ==> r@.contains(nid),
            forall|i: int, j: int| 0 <= i < j < r@.len() ==> r@[i] != r@[j],
    {
        let r = self.nodes.keys();
        proof {
            assert forall|i: int, j: int| 0 <= i < j < r@.len() implies r@[i] != r@[j] by {
                assert(r@[i].slot_of() < r@[j].slot_of());
            }
        }
        r
    }

    /// All connections as `(input, output)` pairs, in storage order.
    pub fn iter_connections(&self) -> (r: Vec<(InputId, OutputId)>)
        ensures
            r@ == self@.connections,
    {
        let mut r: Vec<(InputId, OutputId)> = Vec::new();
        let mut i: usize = 0;
        while i < self.connections.len()
            invariant
                0 <= i <= self.connections@.len(),
                r@ == self.connections@.take(i as int),
            decreases self.connections@.len() - i,
        {
            let c = self.connections[i];
            r.push(c);
            proof {
                assert(r@ =~= self.connections@.take(i + 1));
            }
            i = i + 1;
        }
        proof {
            assert(self.connections@.take(self.connections@.len() as int) =~= self.connections@);
        }
        r
    }

    /// Overwrite the constant fallback value of a live input, returning the
    /// previous value. Everything else is untouched.
    pub fn set_input_value(&mut self, iid: InputId, value: V) -> (prev: V)
        requires
            old(self).wf(),
            old(self)@.inputs.dom().contains(iid),
        ensures
            final(self).wf(),
            prev == old(self)@.inputs[iid].value,
            final(self)@.inputs == old(self)@.inputs.insert(
                iid,
                InputParam { value, ..old(self)@.inputs[iid] },
            ),
            final(self)@.nodes == old(self)@.nodes,
            final(self)@.outputs == old(self)@.outputs,
            final(self)@.connections == old(self)@.connections,
    {
        let ghost pre = self@;
        let param = self.inputs.take(iid);
        let InputParam { node, typ, value: prev, kind, shown_inline } = param;
        self.inputs.put_back(iid, InputParam { node, typ, value, kind, shown_inline });
        proof {
            let post = self@;
            assert(post.inputs =~= pre.inputs.insert(iid, InputParam { value, ..pre.inputs[iid] }));
            assert forall|q: InputId| #[trigger] post.inputs.dom().contains(q) implies {
                let nid = post.inputs[q].node;
                post.nodes.dom().contains(nid) && GraphModel::<N, D, V>::input_ids_of(
                    post.nodes[nid],
                ).contains(q)
            } by {
                assert(pre.inputs.dom().contains(q));
                assert(post.inputs[q].node == pre.inputs[q].node);
            }
            assert forall|nid: NodeId, j: int|
                post.nodes.dom().contains(nid) && 0 <= j < post.nodes[nid].inputs.len() implies {
                let q = (#[trigger] post.nodes[nid].inputs[j]).1;
                post.inputs.dom().contains(q) && post.inputs[q].node == nid
            } by {
                assert(post.nodes[nid] == pre.nodes[nid]);
                let q = post.nodes[nid].inputs[j].1;
                assert(pre.inputs.dom().contains(q) && pre.inputs[q].node == nid);
                assert(post.inputs[q].node == pre.inputs[q].node);
            }
            assert(post.ports_owned());
            assert forall|q: OutputId| #[trigger] post.outputs.dom().contains(q) implies {
                let nid = post.outputs[q].node;
                post.nodes.dom().contains(nid) && GraphModel::<N, D, V>::output_ids_of(
                    post.nodes[nid],
                ).contains(q)
            } by {
                let nid = pre.outputs[q].node;
                assert(GraphModel::<N, D, V>::output_ids_of(pre.nodes[nid]).contains(q));
                assert(post.nodes[nid] == pre.nodes[nid]);
            }
            assert forall|nid: NodeId, j: int|
                post.nodes.dom().contains(nid) && 0 <= j < post.nodes[nid].outputs.len() implies {
                let q = (#[trigger] post.nodes[nid].outputs[j]).1;
                post.outputs.dom().contains(q) && post.outputs[q].node == nid
            } by {
                assert(post.nodes[nid] == pre.nodes[nid]);
            }
            assert(post.ports_listed());
            assert forall|c: int| 0 <= c < post.connections.len() implies post.inputs.dom(
            ).contains((#[trigger] post.connections[c]).0) && post.outputs.dom().contains(
                post.connections[c].1,
            ) by {
                assert(pre.connections[c] == post.connections[c]);
                assert(pre.inputs.dom().contains(pre.connections[c].0));
            }
            assert forall|c1: int, c2: int|
                0 <= c1 < c2 < post.connections.len() implies (#[trigger] post.connections[c1]).0
                != (#[trigger] post.connections[c2]).0 by {
                assert(pre.connections[c1] == post.connections[c1]);
                assert(pre.connections[c2] == post.connections[c2]);
            }
            assert(post.connections_wf());
        }
        prev
    }

    /// The ownership part of the well-formedness argument for
    /// [`Graph::remove_node`]: dropping a node together with exactly the
    /// ports its lists name leaves every other node's ports intact.
    proof fn lemma_remove_node_wf(&self, pre: GraphModel<N, D, V>, node_id: NodeId)
        requires
            pre.wf(),
            pre.nodes.dom().contains(node_id),
            self@.nodes == pre.nodes.remove(node_id),
            self@.inputs == pre.inputs.remove_keys(
                GraphModel::<N, D, V>::input_ids_of(pre.nodes[node_id]),
            ),
            self@.outputs == pre.outputs.remove_keys(
                GraphModel::<N, D, V>::output_ids_of(pre.nodes[node_id]),
            ),
        ensures
            self@.ports_owned(),
            self@.ports_listed(),
    {
        let post = self@;
        let nm = pre.nodes[node_id];
        assert forall|nid: NodeId, j: int|
            post.nodes.dom().contains(nid) && 0 <= j < post.nodes[nid].inputs.len() implies {
            let q = (#[trigger] post.nodes[nid].inputs[j]).1;
            post.inputs.dom().contains(q) && post.inputs[q].node == nid
        } by {
            assert(post.nodes[nid] == pre.nodes[nid]);
            let q = post.nodes[nid].inputs[j].1;
            assert(pre.inputs.dom().contains(q) && pre.inputs[q].node == nid);
            if GraphModel::<N, D, V>::input_ids_of(nm).contains(q) {
                let m = nm.inputs.map_values(|p: (String, InputId)| p.1);
                let jj = choose|jj: int| 0 <= jj < m.len() && m[jj] == q;
                assert(nm.inputs[jj].1 == q);
                assert(pre.inputs[q].node == node_id);
            }
        }
        assert forall|nid: NodeId, j: int|
            post.nodes.dom().contains(nid) && 0 <= j < post.nodes[nid].outputs.len() implies {
            let q = (#[trigger] post.nodes[nid].outputs[j]).1;
            post.outputs.dom().contains(q) && post.outputs[q].node == nid
        } by {
            assert(post.nodes[nid] == pre.nodes[nid]);
            let q = post.nodes[nid].outputs[j].1;
            assert(pre.outputs.dom().contains(q) && pre.outputs[q].node == nid);
            if GraphModel::<N, D, V>::output_ids_of(nm).contains(q) {
                let m = nm.outputs.map_values(|p: (String, OutputId)| p.1);
                let jj = choose|jj: int| 0 <= jj < m.len() && m[jj] == q;
                assert(nm.outputs[jj].1 == q);
                assert(pre.outputs[q].node == node_id);
            }
        }
        assert forall|nid: NodeId, j1: int, j2: int|
            post.nodes.dom().contains(nid) && 0 <= j1 < j2 < post.nodes[nid].inputs.len() implies (
            #[trigger] post.nodes[nid].inputs[j1]).1 != (#[trigger] post.nodes[nid].inputs[j2]).1 by {
            assert(post.nodes[nid] == pre.nodes[nid]);
        }
        assert forall|nid: NodeId, j1: int, j2: int|
            post.nodes.dom().contains(nid) && 0 <= j1 < j2 < post.nodes[nid].outputs.len() implies (
            #[trigger] post.nodes[nid].outputs[j1]).1 != (#[trigger] post.nodes[nid].outputs[j2]).1 by {
            assert(post.nodes[nid] == pre.nodes[nid]);
        }
        assert forall|q: InputId| #[trigger] post.inputs.dom().contains(q) implies {
            let nid = post.inputs[q].node;
            post.nodes.dom().contains(nid) && GraphModel::<N, D, V>::input_ids_of(
                post.nodes[nid],
            ).contains(q)
        } by {
            let nid = pre.inputs[q].node;
            assert(GraphModel::<N, D, V>::input_ids_of(pre.nodes[nid]).contains(q));
            if nid == node_id {
                assert(GraphModel::<N, D, V>::input_ids_of(nm).contains(q));
            }
            assert(post.nodes[nid] == pre.nodes[nid]);
        }
        assert forall|q: OutputId| #[trigger] post.outputs.dom().contains(q) implies {
            let nid = post.outputs[q].node;
            post.nodes.dom().contains(nid) && GraphModel::<N, D, V>::output_ids_of(
                post.nodes[nid],
            ).contains(q)
        } by {
            let nid = pre.outputs[q].node;
            assert(GraphModel::<N, D, V>::output_ids_of(pre.nodes[nid]).contains(q));
            if nid == node_id {
                assert(GraphModel::<N, D, V>::output_ids_of(nm).contains(q));
            }
            assert(post.nodes[nid] == pre.nodes[nid]);
        }
    }
}

} // verus!
