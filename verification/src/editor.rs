//! Frame-persistent editor state: positions, z-order, orientations,
//! selection, the in-progress connection and box-selection, pan, and the
//! open creation menu.

use crate::geom::{Delta2, Point2};
use crate::graph::{Graph, GraphModel};
use crate::id::{AnyParameterId, NodeId};
use vstd::map::*;
use vstd::prelude::*;

verus! {

/// Which side a node's inputs face.
#[derive(Clone, Copy, Debug, PartialEq, Eq, Structural)]
pub enum NodeOrientation {
    LeftToRight,
    RightToLeft,
}

impl NodeOrientation {
    /// The opposite orientation.
    pub open spec fn spec_flip(self) -> NodeOrientation {
        match self {
            NodeOrientation::LeftToRight => NodeOrientation::RightToLeft,
            NodeOrientation::RightToLeft => NodeOrientation::LeftToRight,
        }
    }

    /// Flip the port layout side.
    pub fn flip(self) -> (r: NodeOrientation)
        ensures
            r == self.spec_flip(),
    {
        match self {
            NodeOrientation::LeftToRight => NodeOrientation::RightToLeft,
            NodeOrientation::RightToLeft => NodeOrientation::LeftToRight,
        }
    }
}

/// The view offset of the editing surface.
#[derive(Clone, Copy, Debug, PartialEq, Eq, Structural)]
pub struct PanZoom {
    pub pan: Delta2,
}

/// The open node-creation menu, placed at a fixed point once known.
#[derive(Clone, Copy, Debug, PartialEq, Eq, Structural)]
pub struct NodeFinder {
    pub position: Option<Point2>,
}

impl NodeFinder {
    /// Open the menu at a position.
    pub fn new_at(position: Point2) -> (r: NodeFinder)
        ensures
            r == (NodeFinder { position: Some(position) }),
    {
        NodeFinder { position: Some(position) }
    }
}

/// A side table keyed by node id, backed by an association list with
/// pairwise-distinct keys.
pub struct NodeMap<T> {
    pub entries: Vec<(NodeId, T)>,
}

impl<T> NodeMap<T> {
    /// Some entry carries the key.
    pub open spec fn has_key(self, k: NodeId) -> bool {
        exists|j: int| 0 <= j < self.entries@.len() && self.entries@[j].0 == k
    }

    /// The index of the entry carrying the key.
    pub open spec fn idx_of(self, k: NodeId) -> int {
        choose|j: int| 0 <= j < self.entries@.len() && self.entries@[j].0 == k
    }

    /// Keys are pairwise distinct.
    pub open spec fn wf(self) -> bool {
        forall|i: int, j: int|
            0 <= i < j < self.entries@.len() ==> (#[trigger] self.entries@[i]).0 != (
            #[trigger] self.entries@[j]).0
    }

    /// The mathematical content: a finite map.
    pub open spec fn view(self) -> Map<NodeId, T> {
        Map::new(|k: NodeId| self.has_key(k), |k: NodeId| self.entries@[self.idx_of(k)].1)
    }

    /// An empty table.
    pub fn new() -> (r: Self)
        ensures
            r.wf(),
            r@ == Map::<NodeId, T>::empty(),
    {
        let r = NodeMap { entries: Vec::new() };
        proof {
            assert(r@ =~= Map::<NodeId, T>::empty());
        }
        r
    }

    /// Is the key present?
    pub fn contains_key(&self, k: NodeId) -> (r: bool)
        requires
            self.wf(),
        ensures
            r == self@.dom().contains(k),
    {
        let mut i: usize = 0;
        while i < self.entries.len()
            invariant
                0 <= i <= self.entries@.len(),
                forall|j: int| 0 <= j < i ==> (#[trigger] self.entries@[j]).0 != k,
            decreases self.entries@.len() - i,
        {
            if self.entries[i].0 == k {
                return true;
            }
            i = i + 1;
        }
        false
    }

    /// Look the key up.
    pub fn get(&self, k: NodeId) -> (r: Option<&T>)
        requires
            self.wf(),
        ensures
            match r {
                Some(v) => self@.dom().contains(k) && *v == self@[k],
                None => !self@.dom().contains(k),
            },
    {
        let mut i: usize = 0;
        while i < self.entries.len()
            invariant
                0 <= i <= self.entries@.len(),
                self.wf(),
                forall|j: int| 0 <= j < i ==> (#[trigger] self.entries@[j]).0 != k,
            decreases self.entries@.len() - i,
        {
            if self.entries[i].0 == k {
                proof {
                    let j = self.idx_of(k);
                    assert(self.entries@[i as int].0 == k);
                    assert(0 <= j < self.entries@.len() && self.entries@[j].0 == k);
                    assert(j == i as int);
                }
                return Some(&self.entries[i].1);
            }
            i = i + 1;
        }
        None
    }

    /// Insert or overwrite the value under a key.
    pub fn insert(&mut self, k: NodeId, v: T)
        requires
            old(self).wf(),
        ensures
            final(self).wf(),
            final(self)@ == old(self)@.insert(k, v),
    {
        let ghost pre = *self;
        let mut i: usize = 0;
        while i < self.entries.len()
            invariant
                0 <= i <= pre.entries@.len(),
                *self == pre,
                *old(self) == pre,
                pre.wf(),
                forall|j: int| 0 <= j < i ==> (#[trigger] pre.entries@[j]).0 != k,
            decreases pre.entries@.len() - i,
        {
            if self.entries[i].0 == k {
                self.entries.set(i, (k, v));
                proof {
                    assert forall|i2: int, j2: int|
                        0 <= i2 < j2 < self.entries@.len() implies (#[trigger] self.entries@[i2]).0
                        != (#[trigger] self.entries@[j2]).0 by {
                        assert(self.entries@[i2].0 == pre.entries@[i2].0);
                        assert(self.entries@[j2].0 == pre.entries@[j2].0);
                    }
                    assert_maps_equal!(self@, pre@.insert(k, v), q => {
                        if self.has_key(q) {
                            let j = self.idx_of(q);
                            if q == k {
                                assert(self.entries@[j].0 == k);
                                assert(j == i as int);
                            } else {
                                assert(self.entries@[j] == pre.entries@[j]);
                                assert(pre.has_key(q));
                                let jp = pre.idx_of(q);
                                assert(pre.entries@[jp].0 == q);
                                assert(jp == j);
                            }
                        }
                        if pre.has_key(q) && q != k {
                            let jp = pre.idx_of(q);
                            assert(self.entries@[jp].0 == q);
                        }
                        if q == k {
                            assert(self.entries@[i as int].0 == k);
                        }
                    });
                }
                return ;
            }
            i = i + 1;
        }
        self.entries.push((k, v));
        proof {
            assert forall|i2: int, j2: int|
                0 <= i2 < j2 < self.entries@.len() implies (#[trigger] self.entries@[i2]).0 != (
            #[trigger] self.entries@[j2]).0 by {
                if j2 == self.entries@.len() - 1 {
                    assert(self.entries@[i2] == pre.entries@[i2]);
                } else {
                    assert(self.entries@[i2] == pre.entries@[i2]);
                    assert(self.entries@[j2] == pre.entries@[j2]);
                }
            }
            assert_maps_equal!(self@, pre@.insert(k, v), q => {
                if q == k {
                    assert(self.entries@[self.entries@.len() - 1].0 == k);
                    assert(self.has_key(k));
                    let j = self.idx_of(k);
                    assert(j == self.entries@.len() - 1);
                } else {
                    if self.has_key(q) {
                        let j = self.idx_of(q);
                        assert(self.entries@[j].0 == q);
                        assert(j < self.entries@.len() - 1);
                        assert(pre.entries@[j].0 == q);
                        let jp = pre.idx_of(q);
                        assert(jp == j);
                    }
                    if pre.has_key(q) {
                        let jp = pre.idx_of(q);
                        assert(self.entries@[jp].0 == q);
                        let j = self.idx_of(q);
                        assert(j == jp);
                    }
                }
            });
        }
    }

    /// Drop the key if present; absence is a no-op.
    pub fn remove(&mut self, k: NodeId)
        requires
            old(self).wf(),
        ensures
            final(self).wf(),
            final(self)@ == old(self)@.remove(k),
    {
        let ghost pre = *self;
        let mut i: usize = 0;
        while i < self.entries.len()
            invariant
                0 <= i <= pre.entries@.len(),
                *self == pre,
                *old(self) == pre,
                pre.wf(),
                forall|j: int| 0 <= j < i ==> (#[trigger] pre.entries@[j]).0 != k,
            decreases pre.entries@.len() - i,
        {
            if self.entries[i].0 == k {
                let _removed = self.entries.remove(i);
                proof {
                    let post = *self;
                    assert forall|a: int, b: int|
                        0 <= a < b < post.entries@.len() implies (#[trigger] post.entries@[a]).0
                        != (#[trigger] post.entries@[b]).0 by {
                        let pa: int = if a < i as int {
                            a
                        } else {
                            a + 1
                        };
                        let pb: int = if b < i as int {
                            b
                        } else {
                            b + 1
                        };
                        assert(post.entries@[a] == pre.entries@[pa]);
                        assert(post.entries@[b] == pre.entries@[pb]);
                    }
                    assert_maps_equal!(post@, pre@.remove(k), q => {
                        if post.has_key(q) {
                            let j = post.idx_of(q);
                            assert(post.entries@[j].0 == q);
                            let pj: int = if j < i as int { j } else { j + 1 };
                            assert(post.entries@[j] == pre.entries@[pj]);
                            assert(pre.has_key(q));
                            let jp = pre.idx_of(q);
                            assert(pre.entries@[jp].0 == q);
                            assert(jp == pj);
                            assert(pre.entries@[i as int].0 == k);
                            assert(q != k);
                        }
                        if pre.has_key(q) && q != k {
                            let jp = pre.idx_of(q);
                            assert(pre.entries@[jp].0 == q);
                            assert(jp != i as int);
                            let j: int = if jp < i as int { jp } else { jp - 1 };
                            assert(post.entries@[j] == pre.entries@[jp]);
                            assert(post.has_key(q));
                            let jn = post.idx_of(q);
                            assert(post.entries@[jn].0 == q);
                            let pjn: int = if jn < i as int { jn } else { jn + 1 };
                            assert(post.entries@[jn] == pre.entries@[pjn]);
                            assert(pjn == jp);
                            assert(jn == j);
                        }
                    });
                }
                return ;
            }
            i = i + 1;
        }
        proof {
            assert_maps_equal!(self@, pre@.remove(k), q => {
                if self.has_key(q) {
                    let j = self.idx_of(q);
                    assert(self.entries@[j].0 == q);
                }
                if pre.has_key(q) && q != k {
                    let jp = pre.idx_of(q);
                    assert(self.entries@[jp].0 == q);
                }
            });
        }
    }
}

/// The mathematical value of a [`GraphEditorState`].
#[verifier::ext_equal]
pub ghost struct EditorModel<N, D, V> {
    pub graph: GraphModel<N, D, V>,
    pub order: Seq<NodeId>,
    pub conn_in_progress: Option<(NodeId, AnyParameterId)>,
    pub selected: Seq<NodeId>,
    pub box_sel: Option<Point2>,
    pub positions: Map<NodeId, Point2>,
    pub orientations: Map<NodeId, NodeOrientation>,
    pub finder: Option<NodeFinder>,
    pub pan: Delta2,
}

impl<N, D, V> EditorModel<N, D, V> {
    /// The z-order names exactly the live nodes, each once; its last entry
    /// is topmost.
    pub open spec fn order_consistent(self) -> bool {
        &&& forall|i: int, j: int| 0 <= i < j < self.order.len() ==> self.order[i] != self.order[j]
        &&& forall|i: int|
            0 <= i < self.order.len() ==> self.graph.nodes.dom().contains(#[trigger] self.order[i])
        &&& forall|nid: NodeId|
            #[trigger] self.graph.nodes.dom().contains(nid) ==> self.order.contains(nid)
    }

    /// Every live node has a position and an orientation; positions are kept
    /// in lockstep with the node set.
    pub open spec fn maps_consistent(self) -> bool {
        &&& self.positions.dom() == self.graph.nodes.dom()
        &&& forall|nid: NodeId|
            #[trigger] self.graph.nodes.dom().contains(nid) ==> self.orientations.dom().contains(
                nid,
            )
    }

    /// The selection names live nodes, each at most once.
    pub open spec fn selection_consistent(self) -> bool {
        &&& forall|i: int, j: int|
            0 <= i < j < self.selected.len() ==> self.selected[i] != self.selected[j]
        &&& forall|i: int|
            0 <= i < self.selected.len() ==> self.graph.nodes.dom().contains(
                #[trigger] self.selected[i],
            )
    }

    /// Well-formedness of the whole editor state.
    pub open spec fn wf(self) -> bool {
        &&& self.graph.wf()
        &&& self.order_consistent()
        &&& self.maps_consistent()
        &&& self.selection_consistent()
    }
}

/// The frame-persistent state of one graph editor: the graph plus all UI
/// state that outlives a frame. `NodeTemplate` and `UserState` only tie the
/// editor to its template and user-state types.
pub struct GraphEditorState<N, D, V, NodeTemplate, UserState> {
    pub graph: Graph<N, D, V>,
    /// Nodes in paint-and-hit-test order; the last entry is topmost.
    pub node_order: Vec<NodeId>,
    /// The drag source of a connection being made, if any.
    pub connection_in_progress: Option<(NodeId, AnyParameterId)>,
    /// Currently selected nodes.
    pub selected_nodes: Vec<NodeId>,
    /// Where an ongoing box selection started, if one is ongoing.
    pub ongoing_box_selection: Option<Point2>,
    pub node_positions: NodeMap<Point2>,
    pub node_orientations: NodeMap<NodeOrientation>,
    /// The node-creation menu, if open.
    pub node_finder: Option<NodeFinder>,
    pub pan_zoom: PanZoom,
    pub template_space: core::marker::PhantomData<NodeTemplate>,
    pub user_state_space: core::marker::PhantomData<UserState>,
}

impl<N, D, V, NodeTemplate, UserState> View for GraphEditorState<N, D, V, NodeTemplate, UserState> {
    type V = EditorModel<N, D, V>;

    open spec fn view(&self) -> EditorModel<N, D, V> {
        EditorModel {
            graph: self.graph@,
            order: self.node_order@,
            conn_in_progress: self.connection_in_progress,
            selected: self.selected_nodes@,
            box_sel: self.ongoing_box_selection,
            positions: self.node_positions@,
            orientations: self.node_orientations@,
            finder: self.node_finder,
            pan: self.pan_zoom.pan,
        }
    }
}

impl<N, D, V, NodeTemplate, UserState> GraphEditorState<N, D, V, NodeTemplate, UserState> {
    /// Well-formedness: the containers' own invariants plus the model's.
    pub open spec fn wf(self) -> bool {
        &&& self.graph.wf()
        &&& self.node_positions.wf()
        &&& self.node_orientations.wf()
        &&& self@.wf()
    }

    /// A fresh editor over an empty graph.
    pub fn new() -> (r: Self)
        ensures
            r.wf(),
            r@.graph.nodes == Map::<NodeId, crate::graph::NodeModel<N>>::empty(),
            r@.order == Seq::<NodeId>::empty(),
            r@.selected == Seq::<NodeId>::empty(),
            r@.conn_in_progress is None,
            r@.box_sel is None,
            r@.finder is None,
            r@.pan == (Delta2 { x: 0, y: 0 }),
            r@.graph.connections == Seq::<(crate::id::InputId, crate::id::OutputId)>::empty(),
    {
        let r = GraphEditorState {
            graph: Graph::new(),
            node_order: Vec::new(),
            connection_in_progress: None,
            selected_nodes: Vec::new(),
            ongoing_box_selection: None,
            node_positions: NodeMap::new(),
            node_orientations: NodeMap::new(),
            node_finder: None,
            pan_zoom: PanZoom { pan: Delta2 { x: 0, y: 0 } },
            template_space: core::marker::PhantomData,
            user_state_space: core::marker::PhantomData,
        };
        proof {
            assert(r@.positions.dom() =~= r@.graph.nodes.dom());
        }
        r
    }
}

impl<N, D, V, NodeTemplate, UserState> Default for GraphEditorState<
    N,
    D,
    V,
    NodeTemplate,
    UserState,
> {
    /// Same as [`GraphEditorState::new`].
    fn default() -> (r: Self)
        ensures
            r.wf(),
            r@.graph.nodes == Map::<NodeId, crate::graph::NodeModel<N>>::empty(),
            r@.order == Seq::<NodeId>::empty(),
    {
        Self::new()
    }
}

} // verus!
