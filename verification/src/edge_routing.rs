//! Pieces of edge routing: the vertical segments of the edges between two layers are spread over
//! "segment layers" (columns) so that segments in one column do not overlap, and message flows
//! that bend between pools keep their bend state until both halves are routed.
use vstd::prelude::*;
use crate::graph::{has_in_port, has_out_port, in_pair, out_pair, ports_fit, Edge, EdgeType, Graph, RegularEdgeBendPoints};
use crate::ids::{EdgeId, PoolId};

verus! {

/// Swaps the axes of a horizontal segment between pools so that it can be routed like a vertical
/// one; an upward segment also has its ends swapped so that it keeps its direction.
pub fn transpose(p1: (usize, usize), p2: (usize, usize), is_down: bool) -> (r: ((usize, usize), (usize, usize)))
    ensures
        r == (if is_down { ((p1.1, p1.0), (p2.1, p2.0)) } else { ((p2.1, p2.0), (p1.1, p1.0)) }),
{
    let (x1, y1) = p1;
    let (x2, y2) = p2;
    if is_down {
        ((y1, x1), (y2, x2))
    } else {
        ((y2, x2), (y1, x1))
    }
}

#[derive(Debug, Clone, Copy, PartialEq, Eq, Structural)]
pub enum Alignment {
    Left,
    Center,
    Right,
}

/// A vertical edge segment between two layers, from `start_y` to `end_y`.
#[derive(Debug, Clone, Copy)]
pub struct VerticalSegment {
    pub id: EdgeId,
    pub start_y: usize,
    pub end_y: usize,
    /// The segment layer (column) it is put in.
    pub idx: usize,
    /// For crossing pairs: the second column (`idx` is the left one).
    pub idx2: Option<usize>,
    pub is_message_flow: bool,
    pub alignment: Alignment,
}

pub open spec fn seg_min(s: VerticalSegment) -> usize {
    if s.start_y < s.end_y { s.start_y } else { s.end_y }
}

pub open spec fn seg_max(s: VerticalSegment) -> usize {
    if s.start_y > s.end_y { s.start_y } else { s.end_y }
}

impl VerticalSegment {
    pub fn min_y(&self) -> (r: usize)
        ensures
            r == seg_min(*self),
    {
        if self.start_y < self.end_y { self.start_y } else { self.end_y }
    }

    pub fn max_y(&self) -> (r: usize)
        ensures
            r == seg_max(*self),
    {
        if self.start_y > self.end_y { self.start_y } else { self.end_y }
    }
}

/// Where a message flow between pools stands in its routing. Bend points are filled in as the
/// layers are routed.
#[derive(Debug, Clone, Copy, PartialEq, Eq)]
pub enum MessageFlowBendState {
    /// Starts in layer `k`, goes right, then up or down, then right again and ends in layer `k + 1`.
    HorVerHor,
    VerHorVer {
        bends_after_pool: PoolId,
        interpool_bendpoint1_x: usize,
        interpool_bendpoint2_x: usize,
    },
    HorVerHorVer {
        bends_after_pool: PoolId,
        bend_point_1: Option<(usize, usize)>,
        interpool_bendpoint2_x: usize,
    },
    VerHorVerHor {
        bends_after_pool: PoolId,
        interpool_bendpoint1_x: usize,
        bend_point_2: Option<(usize, usize)>,
    },
    HorVerHorVerHor {
        bends_after_pool: PoolId,
        bend_point_1: Option<(usize, usize)>,
        bend_point_2: Option<(usize, usize)>,
    },
}

/// The horizontal extent of the part of a message flow that runs between pools.
#[derive(Debug, Clone, Copy, PartialEq, Eq, Structural)]
pub struct StartEnd {
    pub start: usize,
    pub end: usize,
}

/// All bend points that the state needs before its part between the pools can be routed are known.
pub open spec fn state_complete(s: MessageFlowBendState) -> bool {
    match s {
        MessageFlowBendState::HorVerHorVer { bend_point_1, .. } => bend_point_1 is Some,
        MessageFlowBendState::VerHorVerHor { bend_point_2, .. } => bend_point_2 is Some,
        MessageFlowBendState::HorVerHorVerHor { bend_point_1, bend_point_2, .. } => bend_point_1 is Some && bend_point_2 is Some,
        _ => true,
    }
}

/// The pool after which the flow bends, and where its part between the pools starts and ends;
/// nothing for a flow that does not bend there.
pub open spec fn spec_bends_after_pool(s: MessageFlowBendState) -> Option<(PoolId, StartEnd)> {
    match s {
        MessageFlowBendState::HorVerHor => None,
        MessageFlowBendState::VerHorVer { bends_after_pool, interpool_bendpoint1_x, interpool_bendpoint2_x } =>
            Some((bends_after_pool, StartEnd { start: interpool_bendpoint1_x, end: interpool_bendpoint2_x })),
        MessageFlowBendState::HorVerHorVer { bends_after_pool, bend_point_1, interpool_bendpoint2_x } =>
            Some((bends_after_pool, StartEnd { start: (bend_point_1->0).0, end: interpool_bendpoint2_x })),
        MessageFlowBendState::VerHorVerHor { bends_after_pool, interpool_bendpoint1_x, bend_point_2 } =>
            Some((bends_after_pool, StartEnd { start: interpool_bendpoint1_x, end: (bend_point_2->0).0 })),
        MessageFlowBendState::HorVerHorVerHor { bends_after_pool, bend_point_1, bend_point_2 } =>
            Some((bends_after_pool, StartEnd { start: (bend_point_1->0).0, end: (bend_point_2->0).0 })),
    }
}

impl MessageFlowBendState {
    pub fn bends_after_pool(&self) -> (r: Option<(PoolId, StartEnd)>)
        requires
            state_complete(*self),
        ensures
            r == spec_bends_after_pool(*self),
    {
        match *self {
            MessageFlowBendState::HorVerHor => None,
            MessageFlowBendState::VerHorVer { bends_after_pool, interpool_bendpoint1_x, interpool_bendpoint2_x } =>
                Some((bends_after_pool, StartEnd { start: interpool_bendpoint1_x, end: interpool_bendpoint2_x })),
            MessageFlowBendState::HorVerHorVer { bends_after_pool, bend_point_1, interpool_bendpoint2_x } => match bend_point_1 {
                Some((start, _)) => Some((bends_after_pool, StartEnd { start, end: interpool_bendpoint2_x })),
                None => None,
            },
            MessageFlowBendState::VerHorVerHor { bends_after_pool, interpool_bendpoint1_x, bend_point_2 } => match bend_point_2 {
                Some((end, _)) => Some((bends_after_pool, StartEnd { start: interpool_bendpoint1_x, end })),
                None => None,
            },
            MessageFlowBendState::HorVerHorVerHor { bends_after_pool, bend_point_1, bend_point_2 } => match (bend_point_1, bend_point_2) {
                (Some((start, _)), Some((end, _))) => Some((bends_after_pool, StartEnd { start, end })),
                _ => None,
            },
        }
    }
}

/// The bend state of each message flow that is being routed, by edge.
pub struct MessageFlowBendPointStore {
    pub store: Vec<(EdgeId, MessageFlowBendState)>,
}

/// The position of `e` among the registered edges.
pub open spec fn store_index(s: Seq<(EdgeId, MessageFlowBendState)>, e: EdgeId) -> Option<int> {
    if exists|k: int| 0 <= k < s.len() && s[k].0 == e {
        Some(choose|k: int| 0 <= k < s.len() && s[k].0 == e)
    } else {
        None
    }
}

/// Every edge is registered at most once.
pub open spec fn store_wf(s: Seq<(EdgeId, MessageFlowBendState)>) -> bool {
    forall|i: int, j: int| 0 <= i < j < s.len() ==> s[i].0 != s[j].0
}

/// The store as a map from edges to states.
pub open spec fn store_map(s: Seq<(EdgeId, MessageFlowBendState)>) -> Map<EdgeId, MessageFlowBendState> {
    Map::new(|e: EdgeId| store_index(s, e) is Some, |e: EdgeId| s[store_index(s, e)->0].1)
}

/// The entries of the edges that bend between pools, in storage order.
pub open spec fn spec_breaks(s: Seq<(EdgeId, MessageFlowBendState)>) -> Seq<(PoolId, EdgeId, StartEnd)>
    decreases s.len(),
{
    if s.len() == 0 {
        Seq::empty()
    } else {
        let rest = spec_breaks(s.drop_last());
        match spec_bends_after_pool(s.last().1) {
            Some((pool, se)) => rest.push((pool, s.last().0, se)),
            None => rest,
        }
    }
}

impl MessageFlowBendPointStore {
    pub fn new() -> (r: MessageFlowBendPointStore)
        ensures
            r.store@.len() == 0,
    {
        MessageFlowBendPointStore { store: Vec::new() }
    }

    /// Sets the state of `edge_id`, replacing an earlier one.
    pub fn register_edge(&mut self, edge_id: EdgeId, state: MessageFlowBendState)
        requires
            store_wf(old(self).store@),
        ensures
            store_wf(final(self).store@),
            store_map(final(self).store@) == store_map(old(self).store@).insert(edge_id, state),
            match store_index(old(self).store@, edge_id) {
                Some(k) => final(self).store@ == old(self).store@.update(k, (edge_id, state)),
                None => final(self).store@ == old(self).store@.push((edge_id, state)),
            },
    {
        let ghost s0 = self.store@;
        let mut i: usize = 0;
        while i < self.store.len()
            invariant
                0 <= i <= self.store@.len(),
                self.store@ == s0,
                s0 == old(self).store@,
                store_wf(s0),
                forall|j: int| 0 <= j < i ==> s0[j].0 != edge_id,
            decreases self.store@.len() - i,
        {
            if self.store[i].0.0 == edge_id.0 {
                assert(s0[i as int].0 == edge_id);
                assert(store_index(s0, edge_id) == Some(i as int));
                self.store.set(i, (edge_id, state));
                proof {
                    let s1 = self.store@;
                    assert(store_wf(s1));
                    assert forall|e: EdgeId| e != edge_id implies #[trigger] store_index(s1, e) == store_index(s0, e) by {
                        if exists|k: int| 0 <= k < s0.len() && s0[k].0 == e {
                            let k = choose|k: int| 0 <= k < s0.len() && s0[k].0 == e;
                            assert(s1[k].0 == e);
                            let k1 = store_index(s1, e)->0;
                            assert(s1[k1].0 == e);
                            assert(k1 == k);
                        }
                        if exists|k: int| 0 <= k < s1.len() && s1[k].0 == e {
                            let k = choose|k: int| 0 <= k < s1.len() && s1[k].0 == e;
                            assert(s0[k].0 == e);
                        }
                    }
                    assert(s1[i as int].0 == edge_id);
                    let k1 = store_index(s1, edge_id)->0;
                    assert(s1[k1].0 == edge_id);
                    assert(k1 == i);
                    assert(store_index(s1, edge_id) == Some(i as int));
                    assert(store_map(s1) =~= store_map(s0).insert(edge_id, state));
                }
                return;
            }
            i = i + 1;
        }
        self.store.push((edge_id, state));
        proof {
            let s1 = self.store@;
            assert(store_index(s0, edge_id) is None);
            assert(store_wf(s1));
            assert forall|e: EdgeId| e != edge_id implies #[trigger] store_index(s1, e) == store_index(s0, e) by {
                if exists|k: int| 0 <= k < s0.len() && s0[k].0 == e {
                    let k = choose|k: int| 0 <= k < s0.len() && s0[k].0 == e;
                    assert(s1[k].0 == e);
                    let k1 = store_index(s1, e)->0;
                    assert(s1[k1].0 == e);
                    assert(k1 == k);
                }
                if exists|k: int| 0 <= k < s1.len() && s1[k].0 == e {
                    let k = choose|k: int| 0 <= k < s1.len() && s1[k].0 == e;
                    assert(s0[k].0 == e);
                }
            }
            assert(s1[s0.len() as int].0 == edge_id);
            assert(store_index(s1, edge_id) == Some(s0.len() as int));
            assert(store_map(s1) =~= store_map(s0).insert(edge_id, state));
        }
    }

    /// The message flows that bend between pools: the pool after which they bend, the edge, and
    /// the extent of their part between the pools.
    pub fn iter_edges_for_break_after_pool(&self) -> (r: Vec<(PoolId, EdgeId, StartEnd)>)
        requires
            forall|i: int| 0 <= i < self.store@.len() ==> state_complete(#[trigger] self.store@[i].1),
        ensures
            r@ == spec_breaks(self.store@),
    {
        let mut r: Vec<(PoolId, EdgeId, StartEnd)> = Vec::new();
        let mut i: usize = 0;
        while i < self.store.len()
            invariant
                0 <= i <= self.store@.len(),
                forall|k: int| 0 <= k < self.store@.len() ==> state_complete(#[trigger] self.store@[k].1),
                r@ == spec_breaks(self.store@.take(i as int)),
            decreases self.store@.len() - i,
        {
            assert(self.store@.take(i + 1).drop_last() =~= self.store@.take(i as int));
            assert(self.store@.take(i + 1).last() == self.store@[i as int]);
            let (edge_id, state) = self.store[i];
            if let Some((pool, start_end)) = state.bends_after_pool() {
                r.push((pool, edge_id, start_end));
            }
            i = i + 1;
        }
        assert(self.store@.take(i as int) =~= self.store@);
        r
    }
}

/// The two bend points of a segment routed between pools, turned back into the plane.
pub open spec fn spec_transpose(p1: (usize, usize), p2: (usize, usize), is_down: bool) -> ((usize, usize), (usize, usize)) {
    if is_down { ((p1.1, p1.0), (p2.1, p2.0)) } else { ((p2.1, p2.0), (p1.1, p1.0)) }
}

/// What finishing a layer of a message flow in state `s` with the segment `p1`, `p2` leads to:
/// either a new state that still waits for more bend points, or the full list of bend points
/// from the port `f` to the port `t`.
pub open spec fn finish_outcome(s: MessageFlowBendState, p1: (usize, usize), p2: (usize, usize), is_down: bool,
    is_right: bool, f: (usize, usize), t: (usize, usize)) -> (Option<MessageFlowBendState>, Seq<(usize, usize)>) {
    let (q1, q2) = spec_transpose(p1, p2, is_down);
    match s {
        MessageFlowBendState::HorVerHor => (None, seq![f, p1, p2, t]),
        MessageFlowBendState::VerHorVer { .. } => (None, seq![f, q1, q2, t]),
        MessageFlowBendState::HorVerHorVer { bends_after_pool, bend_point_1, interpool_bendpoint2_x } => match bend_point_1 {
            Some(b1) => (None, seq![f, b1, q1, q2, t]),
            None => (Some(MessageFlowBendState::HorVerHorVer { bends_after_pool, bend_point_1: Some(p1), interpool_bendpoint2_x }), Seq::empty()),
        },
        MessageFlowBendState::VerHorVerHor { bends_after_pool, interpool_bendpoint1_x, bend_point_2 } => match bend_point_2 {
            Some(b2) => (None, seq![f, q1, q2, b2, t]),
            None => (Some(MessageFlowBendState::VerHorVerHor { bends_after_pool, interpool_bendpoint1_x, bend_point_2: Some(p2) }), Seq::empty()),
        },
        MessageFlowBendState::HorVerHorVerHor { bends_after_pool, bend_point_1, bend_point_2 } => match (bend_point_1, bend_point_2) {
            (Some(b1), Some(b2)) => (None, seq![f, b1, q1, q2, b2, t]),
            (Some(_), None) => (Some(MessageFlowBendState::HorVerHorVerHor { bends_after_pool, bend_point_1, bend_point_2: Some(p2) }), Seq::empty()),
            (None, Some(_)) => (Some(MessageFlowBendState::HorVerHorVerHor { bends_after_pool, bend_point_1: Some(p1), bend_point_2 }), Seq::empty()),
            (None, None) => (Some(if is_right {
                MessageFlowBendState::HorVerHorVerHor { bends_after_pool, bend_point_1: Some(p1), bend_point_2 }
            } else {
                MessageFlowBendState::HorVerHorVerHor { bends_after_pool, bend_point_1, bend_point_2: Some(p2) }
            }), Seq::empty()),
        },
    }
}

/// What finishing a layer of message flow `e` needs: it is registered and regular, its ends
/// exist with ports for it that fit, and a flow that goes right, up or down and right again goes
/// right indeed.
pub open spec fn finish_ok(store: Seq<(EdgeId, MessageFlowBendState)>, g: Graph, e: EdgeId) -> bool {
    let edge = g.edges@[e.0 as int];
    let from = g.nodes@[edge.from.0 as int];
    let to = g.nodes@[edge.to.0 as int];
    &&& store_wf(store)
    &&& store_map(store).dom().contains(e)
    &&& e.0 < g.edges@.len()
    &&& edge.edge_type is Regular
    &&& edge.from.0 < g.nodes@.len() && edge.to.0 < g.nodes@.len()
    &&& ports_fit(from.outgoing_ports@, from.x, from.y) && ports_fit(to.incoming_ports@, to.x, to.y)
    &&& has_out_port(from, e) && has_in_port(to, e)
    &&& store_map(store)[e] is HorVerHor ==> from.layer_id.0 < to.layer_id.0
}

impl MessageFlowBendPointStore {
    /// Forgets the state of `edge_id`.
    pub fn unregister_edge(&mut self, edge_id: EdgeId)
        requires
            store_wf(old(self).store@),
        ensures
            store_wf(final(self).store@),
            store_map(final(self).store@) == store_map(old(self).store@).remove(edge_id),
    {
        let ghost s0 = self.store@;
        let mut i: usize = 0;
        while i < self.store.len()
            invariant
                0 <= i <= self.store@.len(),
                self.store@ == s0,
                s0 == old(self).store@,
                store_wf(s0),
                forall|j: int| 0 <= j < i ==> s0[j].0 != edge_id,
            decreases self.store@.len() - i,
        {
            if self.store[i].0.0 == edge_id.0 {
                self.store.remove(i);
                proof {
                    let s1 = self.store@;
                    assert(s1 =~= s0.remove(i as int));
                    assert(s0[i as int].0 == edge_id);
                    assert(store_wf(s1)) by {
                        assert forall|a: int, b: int| 0 <= a < b < s1.len() implies s1[a].0 != s1[b].0 by {
                            let a0 = if a < i { a } else { a + 1 };
                            let b0 = if b < i { b } else { b + 1 };
                            assert(s1[a] == s0[a0] && s1[b] == s0[b0]);
                        }
                    }
                    assert forall|e: EdgeId| e != edge_id implies #[trigger] store_index(s1, e) is Some == store_index(s0, e) is Some
                        && (store_index(s1, e) is Some ==> s1[store_index(s1, e)->0].1 == s0[store_index(s0, e)->0].1) by {
                        if exists|k: int| 0 <= k < s0.len() && s0[k].0 == e {
                            let k = choose|k: int| 0 <= k < s0.len() && s0[k].0 == e;
                            assert(k != i);
                            let k1 = if k < i { k } else { k - 1 };
                            assert(s1[k1].0 == e);
                            let kk = store_index(s1, e)->0;
                            let kk0 = if kk < i { kk } else { kk + 1 };
                            assert(s0[kk0].0 == e);
                            let k0 = store_index(s0, e)->0;
                            assert(s0[k0].0 == e);
                            assert(kk0 == k0);
                        }
                        if exists|k: int| 0 <= k < s1.len() && s1[k].0 == e {
                            let k = choose|k: int| 0 <= k < s1.len() && s1[k].0 == e;
                            let k0 = if k < i { k } else { k + 1 };
                            assert(s0[k0].0 == e);
                        }
                    }
                    assert forall|k: int| 0 <= k < s1.len() implies s1[k].0 != edge_id by {
                        let k0 = if k < i { k } else { k + 1 };
                        assert(s1[k] == s0[k0]);
                    }
                    assert(store_map(s1) =~= store_map(s0).remove(edge_id));
                }
                return;
            }
            i = i + 1;
        }
        assert(store_map(s0) =~= store_map(s0).remove(edge_id));
    }

    /// Finishes the layer in which message flow `edge_id` got the segment from `p1` to `p2`: as
    /// `finish_outcome` says, its state waits for more bend points, or its bend points are
    /// complete, become its route, and its state is forgotten.
    pub fn finish_layer(&mut self, graph: &mut Graph, edge_id: EdgeId, p1: (usize, usize), p2: (usize, usize))
        requires
            finish_ok(old(self).store@, *old(graph), edge_id),
        ensures
            store_wf(final(self).store@),
            ({
                let g = *old(graph);
                let edge = g.edges@[edge_id.0 as int];
                let from = g.nodes@[edge.from.0 as int];
                let to = g.nodes@[edge.to.0 as int];
                let outcome = finish_outcome(store_map(old(self).store@)[edge_id], p1, p2, from.pool.0 < to.pool.0,
                    from.layer_id.0 < to.layer_id.0, out_pair(from, edge_id), in_pair(to, edge_id));
                match outcome.0 {
                    Some(s) => {
                        &&& store_map(final(self).store@) == store_map(old(self).store@).insert(edge_id, s)
                        &&& *final(graph) == g
                    },
                    None => {
                        &&& store_map(final(self).store@) == store_map(old(self).store@).remove(edge_id)
                        &&& final(graph).edges@.len() == g.edges@.len()
                        &&& forall|j: int| 0 <= j < g.edges@.len() && j != edge_id.0 ==> #[trigger] final(graph).edges@[j] == g.edges@[j]
                        &&& final(graph).edges@[edge_id.0 as int] == (Edge { edge_type: final(graph).edges@[edge_id.0 as int].edge_type, ..edge })
                        &&& final(graph).edges@[edge_id.0 as int].edge_type matches EdgeType::Regular {
                            text, bend_points: RegularEdgeBendPoints::FullyRouted(v) } && text == edge.edge_type->Regular_text && v@ == outcome.1
                        &&& final(graph).nodes == g.nodes
                        &&& final(graph).pools == g.pools
                        &&& final(graph).data_elements == g.data_elements
                        &&& final(graph).config == g.config
                        &&& final(graph).num_layers == g.num_layers
                        &&& final(graph).pe_bpmd_definitions == g.pe_bpmd_definitions
                    },
                }
            }),
    {
        let ghost s0 = self.store@;
        let mut k: usize = 0;
        while k < self.store.len() && self.store[k].0.0 != edge_id.0
            invariant
                k <= self.store@.len(),
                self.store@ == s0,
                store_wf(s0),
                forall|j: int| 0 <= j < k ==> s0[j].0 != edge_id,
            decreases self.store@.len() - k,
        {
            k = k + 1;
        }
        proof {
            let kk = store_index(s0, edge_id)->0;
            assert(s0[kk].0 == edge_id);
            if k == s0.len() {
                assert(false);
            }
            assert(s0[k as int].0 == edge_id);
            assert(kk == k);
        }
        let state = self.store[k].1;
        let e = &graph.edges[edge_id.0];
        let from = &graph.nodes[e.from.0];
        let to = &graph.nodes[e.to.0];
        let fp = from.port_of_outgoing(edge_id).unwrap();
        let tp = to.port_of_incoming(edge_id).unwrap();
        let (f, t) = ((fp.x, fp.y), (tp.x, tp.y));
        let is_down = from.pool.0 < to.pool.0;
        let is_right = from.layer_id.0 < to.layer_id.0;
        let (q1, q2) = transpose(p1, p2, is_down);
        let (pending, points): (Option<MessageFlowBendState>, Vec<(usize, usize)>) = match state {
            MessageFlowBendState::HorVerHor => (None, vec![f, p1, p2, t]),
            MessageFlowBendState::VerHorVer { .. } => (None, vec![f, q1, q2, t]),
            MessageFlowBendState::HorVerHorVer { bends_after_pool, bend_point_1, interpool_bendpoint2_x } => match bend_point_1 {
                Some(b1) => (None, vec![f, b1, q1, q2, t]),
                None => (Some(MessageFlowBendState::HorVerHorVer { bends_after_pool, bend_point_1: Some(p1), interpool_bendpoint2_x }), Vec::new()),
            },
            MessageFlowBendState::VerHorVerHor { bends_after_pool, interpool_bendpoint1_x, bend_point_2 } => match bend_point_2 {
                Some(b2) => (None, vec![f, q1, q2, b2, t]),
                None => (Some(MessageFlowBendState::VerHorVerHor { bends_after_pool, interpool_bendpoint1_x, bend_point_2: Some(p2) }), Vec::new()),
            },
            MessageFlowBendState::HorVerHorVerHor { bends_after_pool, bend_point_1, bend_point_2 } => match (bend_point_1, bend_point_2) {
                (Some(b1), Some(b2)) => (None, vec![f, b1, q1, q2, b2, t]),
                (Some(_), None) => (Some(MessageFlowBendState::HorVerHorVerHor { bends_after_pool, bend_point_1, bend_point_2: Some(p2) }), Vec::new()),
                (None, Some(_)) => (Some(MessageFlowBendState::HorVerHorVerHor { bends_after_pool, bend_point_1: Some(p1), bend_point_2 }), Vec::new()),
                (None, None) => (Some(if is_right {
                    MessageFlowBendState::HorVerHorVerHor { bends_after_pool, bend_point_1: Some(p1), bend_point_2 }
                } else {
                    MessageFlowBendState::HorVerHorVerHor { bends_after_pool, bend_point_1, bend_point_2: Some(p2) }
                }), Vec::new()),
            },
        };
        match pending {
            Some(s) => {
                self.register_edge(edge_id, s);
            },
            None => {
                let text = match &graph.edges[edge_id.0].edge_type {
                    EdgeType::Regular { text, .. } => text.clone(),
                    _ => None,
                };
                graph.edges[edge_id.0].edge_type = EdgeType::Regular { text, bend_points: RegularEdgeBendPoints::FullyRouted(points) };
                self.unregister_edge(edge_id);
            },
        }
    }
}

/// Loops are not routed yet: only an empty list is accepted, which takes no columns.
pub fn determine_segment_layers_left_or_right_loops(routing_edges: &mut Vec<VerticalSegment>, max_y_per_layer_buffer: &mut Vec<usize>,
    base_segment_layer: usize, reverse: bool) -> (r: usize)
    requires
        old(routing_edges)@.len() == 0,
    ensures
        r == 0,
        final(routing_edges)@ == old(routing_edges)@,
        final(max_y_per_layer_buffer)@ == old(max_y_per_layer_buffer)@,
{
    0
}

/// Looks for a free column for a segment from `lo` to `hi`, from column `t` leftwards: a column is
/// free when its lowest segment ends above `lo`; the search stops at a column whose segment ends
/// inside `(lo, hi)`. The leftmost free column reached wins. `None` where a column's segment ends
/// exactly at `lo` or `hi`.
pub open spec fn fit(buf: Seq<usize>, lo: usize, hi: usize, t: int, best: Option<int>) -> Option<Option<int>>
    decreases t + 1,
{
    if t < 0 {
        Some(best)
    } else {
        let prev = buf[t];
        if prev == lo || prev == hi {
            None
        } else if prev < lo {
            fit(buf, lo, hi, t - 1, Some(t))
        } else if prev < hi {
            Some(best)
        } else {
            fit(buf, lo, hi, t - 1, best)
        }
    }
}

/// The greedy column assignment of the segments in order: each goes into the column found by
/// `fit`, or a new column on the right. Yields the columns and, per column, where its lowest
/// segment ends; `None` where `fit` fails.
pub open spec fn greedy(segs: Seq<VerticalSegment>) -> Option<(Seq<usize>, Seq<usize>)>
    decreases segs.len(),
{
    if segs.len() == 0 {
        Some((Seq::empty(), Seq::empty()))
    } else {
        match greedy(segs.drop_last()) {
            None => None,
            Some((idxs, buf)) => {
                let s = segs.last();
                match fit(buf, seg_min(s), seg_max(s), buf.len() - 1, None) {
                    None => None,
                    Some(None) => Some((idxs.push(buf.len() as usize), buf.push(seg_max(s)))),
                    Some(Some(l)) => Some((idxs.push(l as usize), buf.update(l, seg_max(s)))),
                }
            },
        }
    }
}

/// The final column of a segment assigned column `idx` among `count`: mirrored when `reverse`
/// (as `count - idx`), then shifted by `base`.
pub open spec fn final_column(idx: usize, count: int, base: usize, reverse: bool) -> int {
    base + if reverse { count - idx } else { idx as int }
}

proof fn lemma_fit_bounds(buf: Seq<usize>, lo: usize, hi: usize, t: int, best: Option<int>)
    requires
        t < buf.len(),
        best matches Some(b) ==> 0 <= b < buf.len(),
    ensures
        fit(buf, lo, hi, t, best) matches Some(Some(l)) ==> 0 <= l < buf.len(),
    decreases t + 1,
{
    if t >= 0 {
        let prev = buf[t];
        if prev == lo || prev == hi {
        } else if prev < lo {
            lemma_fit_bounds(buf, lo, hi, t - 1, Some(t));
        } else if prev < hi {
        } else {
            lemma_fit_bounds(buf, lo, hi, t - 1, best);
        }
    }
}

proof fn lemma_greedy_bounds(segs: Seq<VerticalSegment>)
    requires
        greedy(segs) is Some,
    ensures
        (greedy(segs)->0).0.len() == segs.len(),
        (greedy(segs)->0).1.len() <= segs.len(),
        forall|k: int| 0 <= k < segs.len() ==> (#[trigger] (greedy(segs)->0).0[k]) < (greedy(segs)->0).1.len(),
    decreases segs.len(),
{
    if segs.len() > 0 {
        lemma_greedy_bounds(segs.drop_last());
        let (idxs, buf) = greedy(segs.drop_last())->0;
        let s = segs.last();
        lemma_fit_bounds(buf, seg_min(s), seg_max(s), buf.len() - 1, None);
    }
}

proof fn lemma_greedy_stop(segs: Seq<VerticalSegment>, i: int)
    requires
        0 <= i <= segs.len(),
        greedy(segs) is Some,
    ensures
        greedy(segs.take(i)) is Some,
    decreases segs.len() - i,
{
    if i < segs.len() {
        assert(segs.drop_last().take(i) =~= segs.take(i));
        lemma_greedy_stop(segs.drop_last(), i);
    } else {
        assert(segs.take(i) =~= segs);
    }
}

/// Some segment goes into column `c`.
pub open spec fn column_used(segs: Seq<VerticalSegment>, c: int) -> bool {
    exists|j: int| 0 <= j < segs.len() && #[trigger] (greedy(segs)->0).0[j] == c
}

/// The greedy column assignment uses every column it counts: each holds at least one segment.
pub proof fn lemma_greedy_uses_every_column(segs: Seq<VerticalSegment>)
    requires
        greedy(segs) is Some,
        segs.len() <= usize::MAX,
    ensures
        forall|c: int| 0 <= c < (greedy(segs)->0).1.len() ==> #[trigger] column_used(segs, c),
    decreases segs.len(),
{
    lemma_greedy_bounds(segs);
    if segs.len() > 0 {
        let t = segs.drop_last();
        lemma_greedy_uses_every_column(t);
        lemma_greedy_bounds(t);
        let (idxs0, buf0) = greedy(t)->0;
        let (idxs, buf) = greedy(segs)->0;
        let s = segs.last();
        let n = segs.len() - 1;
        lemma_fit_bounds(buf0, seg_min(s), seg_max(s), buf0.len() - 1, None);
        assert forall|c: int| 0 <= c < buf.len() implies #[trigger] column_used(segs, c) by {
            if c < buf0.len() {
                assert(column_used(t, c));
                let j = choose|j: int| 0 <= j < t.len() && #[trigger] idxs0[j] == c;
                assert(idxs[j] == idxs0[j]);
            } else {
                let f = fit(buf0, seg_min(s), seg_max(s), buf0.len() - 1, None);
                if f == Some(None::<int>) {
                    assert(idxs == idxs0.push(buf0.len() as usize));
                    assert(buf == buf0.push(seg_max(s)));
                    assert(idxs[n] == buf0.len());
                    assert(idxs[n] == c);
                } else {
                    assert(buf == buf0.update(f->0->0, seg_max(s)));
                }
            }
        }
    }
}

/// Column `c`'s lowest segment ends strictly inside `(lo, hi)`: a segment from `lo` to `hi` cannot
/// pass it on its way left.
pub open spec fn blocks(buf: Seq<usize>, lo: usize, hi: usize, c: int) -> bool {
    lo < buf[c] && buf[c] < hi
}

/// A segment from `lo` to `hi` coming from the right reaches column `c` without passing a
/// column that blocks it.
pub open spec fn reachable(buf: Seq<usize>, lo: usize, hi: usize, c: int) -> bool {
    forall|c2: int| c < c2 < buf.len() ==> !#[trigger] blocks(buf, lo, hi, c2)
}

proof fn lemma_fit_choice(buf: Seq<usize>, lo: usize, hi: usize, t: int, best: Option<int>)
    requires
        -1 <= t < buf.len(),
        forall|c: int| t < c < buf.len() ==> !#[trigger] blocks(buf, lo, hi, c) && buf[c] != lo && buf[c] != hi,
        best matches Some(b) ==> t < b < buf.len() && buf[b] < lo,
        best matches Some(b) ==> forall|c: int| t < c < b ==> !(#[trigger] buf[c] < lo),
        best is None ==> forall|c: int| t < c < buf.len() ==> !(#[trigger] buf[c] < lo),
    ensures
        fit(buf, lo, hi, t, best) matches Some(res) ==> {
            let ch = match res { Some(l) => l, None => buf.len() as int };
            &&& reachable(buf, lo, hi, ch)
            &&& ch < buf.len() ==> buf[ch] < lo
            &&& forall|c: int| 0 <= c < ch ==> !(buf[c] < lo && #[trigger] reachable(buf, lo, hi, c))
        },
    decreases t + 1,
{
    if t >= 0 {
        let prev = buf[t];
        if prev == lo || prev == hi {
        } else if prev < lo {
            lemma_fit_choice(buf, lo, hi, t - 1, Some(t));
        } else if prev < hi {
            let ch = match best { Some(l) => l, None => buf.len() as int };
            assert(blocks(buf, lo, hi, t));
            assert forall|c: int| 0 <= c < ch implies !(buf[c] < lo && #[trigger] reachable(buf, lo, hi, c)) by {
                if c < t {
                    assert(blocks(buf, lo, hi, t));
                }
            }
        } else {
            lemma_fit_choice(buf, lo, hi, t - 1, best);
        }
    } else {
        let ch = match best { Some(l) => l, None => buf.len() as int };
        assert forall|c: int| 0 <= c < ch implies !(buf[c] < lo && #[trigger] reachable(buf, lo, hi, c)) by {}
    }
}

proof fn lemma_greedy_prefix(segs: Seq<VerticalSegment>, m: int)
    requires
        greedy(segs) is Some,
        0 <= m <= segs.len(),
    ensures
        greedy(segs.take(m)) is Some,
        (greedy(segs)->0).0.take(m) == (greedy(segs.take(m))->0).0,
    decreases segs.len(),
{
    lemma_greedy_bounds(segs);
    if m == segs.len() {
        assert(segs.take(m) =~= segs);
        assert((greedy(segs)->0).0.take(m) =~= (greedy(segs)->0).0);
    } else {
        let t = segs.drop_last();
        lemma_greedy_prefix(t, m);
        lemma_greedy_bounds(t);
        assert(t.take(m) =~= segs.take(m));
        let (idxs0, buf0) = greedy(t)->0;
        let s = segs.last();
        lemma_fit_bounds(buf0, seg_min(s), seg_max(s), buf0.len() - 1, None);
        assert((greedy(segs)->0).0.take(m) =~= idxs0.take(m));
    }
}

/// Where the greedy column assignment puts the `k`-th segment, given the columns before it: it
/// reaches that column from the right without passing a column whose lowest segment ends strictly
/// inside its own span; the column is free (its lowest segment ends above the segment's top),
/// unless a new column is opened on the right; and no free column further left is reachable.
pub proof fn lemma_greedy_takes_leftmost_reachable(segs: Seq<VerticalSegment>, k: int)
    requires
        greedy(segs) is Some,
        segs.len() <= usize::MAX,
        0 <= k < segs.len(),
    ensures
        ({
            let buf = (greedy(segs.take(k))->0).1;
            let ch = (greedy(segs)->0).0[k] as int;
            let (lo, hi) = (seg_min(segs[k]), seg_max(segs[k]));
            &&& ch <= buf.len()
            &&& reachable(buf, lo, hi, ch)
            &&& ch < buf.len() ==> buf[ch] < lo
            &&& forall|c: int| 0 <= c < ch ==> !(buf[c] < lo && #[trigger] reachable(buf, lo, hi, c))
        }),
{
    lemma_greedy_bounds(segs);
    lemma_greedy_prefix(segs, k + 1);
    lemma_greedy_prefix(segs, k);
    let p = segs.take(k + 1);
    assert(p.drop_last() =~= segs.take(k));
    assert(p.last() == segs[k]);
    let (idxs0, buf0) = greedy(segs.take(k))->0;
    lemma_greedy_bounds(segs.take(k));
    let (lo, hi) = (seg_min(segs[k]), seg_max(segs[k]));
    lemma_fit_choice(buf0, lo, hi, buf0.len() - 1, None);
    lemma_fit_bounds(buf0, lo, hi, buf0.len() - 1, None);
    let idxs = (greedy(p)->0).0;
    assert(idxs == (greedy(segs)->0).0.take(k + 1));
    assert(idxs[k] == (greedy(segs)->0).0[k]);
    assert(buf0.len() <= k);
}

/// Searches the columns from the right for a free one for a segment from `lo` to `hi`.
fn find_column(buf: &Vec<usize>, lo: usize, hi: usize) -> (r: Option<usize>)
    requires
        fit(buf@, lo, hi, buf@.len() - 1, None) is Some,
    ensures
        r matches Some(x) ==> fit(buf@, lo, hi, buf@.len() - 1, None)->0 == Some(x as int) && x < buf@.len(),
        r is None ==> fit(buf@, lo, hi, buf@.len() - 1, None)->0 is None,
{
    let mut best: Option<usize> = None;
    let mut t: usize = buf.len();
    let mut done = false;
    proof { lemma_fit_bounds(buf@, lo, hi, buf@.len() - 1, None); }
    while t > 0 && !done
        invariant
            0 <= t <= buf@.len(),
            best matches Some(b) ==> b < buf@.len(),
            done ==> fit(buf@, lo, hi, buf@.len() - 1, None) == Some(match best { Some(b) => Some(b as int), None => None::<int> }),
            !done ==> fit(buf@, lo, hi, buf@.len() - 1, None) == fit(buf@, lo, hi, t - 1, match best { Some(b) => Some(b as int), None => None }),
            fit(buf@, lo, hi, buf@.len() - 1, None) is Some,
        decreases t, (if done { 0int } else { 1int }),
    {
        let prev = buf[t - 1];
        if prev < lo {
            best = Some(t - 1);
            t = t - 1;
        } else if prev < hi {
            done = true;
        } else {
            t = t - 1;
        }
    }
    proof { lemma_fit_bounds(buf@, lo, hi, buf@.len() - 1, None); }
    best
}

/// Puts the vertical segments (sorted by their ends) into columns so that segments in one column
/// do not overlap: each goes into the leftmost free column that it can reach from the right
/// without passing a column it overlaps with, or into a new column. Upward runs are mirrored
/// (`reverse`); all columns are shifted by `base_segment_layer`. Returns the number of columns.
pub fn determine_segment_layers_up_or_down_edges(routing_edges: &mut Vec<VerticalSegment>, max_y_per_layer_buffer: &mut Vec<usize>,
    base_segment_layer: usize, reverse: bool) -> (r: usize)
    requires
        greedy(old(routing_edges)@) is Some,
        base_segment_layer + old(routing_edges)@.len() <= usize::MAX,
    ensures
        ({
            let (idxs, buf) = greedy(old(routing_edges)@)->0;
            &&& r == buf.len()
            &&& final(max_y_per_layer_buffer)@ == buf
            &&& final(routing_edges)@.len() == old(routing_edges)@.len()
            &&& forall|k: int| 0 <= k < old(routing_edges)@.len() ==> (#[trigger] final(routing_edges)@[k]) == (VerticalSegment {
                idx: final_column(idxs[k], buf.len() as int, base_segment_layer, reverse) as usize,
                ..old(routing_edges)@[k]
            })
        }),
{
    let ghost segs = routing_edges@;
    proof { lemma_greedy_bounds(segs); }
    max_y_per_layer_buffer.clear();
    let mut idxs: Vec<usize> = Vec::new();
    let mut i: usize = 0;
    while i < routing_edges.len()
        invariant
            0 <= i <= segs.len(),
            routing_edges@ == segs,
            greedy(segs) is Some,
            greedy(segs.take(i as int)) == Some((idxs@, max_y_per_layer_buffer@)),
        decreases segs.len() - i,
    {
        proof {
            lemma_greedy_stop(segs, i + 1);
            assert(segs.take(i + 1).drop_last() =~= segs.take(i as int));
            assert(segs.take(i + 1).last() == segs[i as int]);
        }
        let lo = routing_edges[i].min_y();
        let hi = routing_edges[i].max_y();
        match find_column(max_y_per_layer_buffer, lo, hi) {
            None => {
                idxs.push(max_y_per_layer_buffer.len());
                max_y_per_layer_buffer.push(hi);
            },
            Some(l) => {
                idxs.push(l);
                max_y_per_layer_buffer.set(l, hi);
            },
        }
        i = i + 1;
    }
    assert(segs.take(i as int) =~= segs);
    let total = max_y_per_layer_buffer.len();
    let mut k: usize = 0;
    while k < routing_edges.len()
        invariant
            0 <= k <= segs.len(),
            routing_edges@.len() == segs.len(),
            idxs@.len() == segs.len(),
            greedy(segs) == Some((idxs@, max_y_per_layer_buffer@)),
            total == max_y_per_layer_buffer@.len(),
            total <= segs.len(),
            base_segment_layer + segs.len() <= usize::MAX,
            forall|m: int| 0 <= m < segs.len() ==> (#[trigger] idxs@[m]) < total,
            forall|m: int| 0 <= m < k ==> (#[trigger] routing_edges@[m]) == (VerticalSegment {
                idx: final_column(idxs@[m], total as int, base_segment_layer, reverse) as usize,
                ..segs[m]
            }),
            forall|m: int| k <= m < segs.len() ==> (#[trigger] routing_edges@[m]) == segs[m],
        decreases segs.len() - k,
    {
        let seg = routing_edges[k];
        let column = if reverse { total - idxs[k] } else { idxs[k] };
        routing_edges.set(k, VerticalSegment { idx: column + base_segment_layer, ..seg });
        k = k + 1;
    }
    total
}

proof fn lemma_fit_free(buf: Seq<usize>, lo: usize, hi: usize, t: int, best: Option<int>)
    requires
        t < buf.len(),
        best matches Some(b) ==> 0 <= b < buf.len() && buf[b] < lo,
    ensures
        fit(buf, lo, hi, t, best) matches Some(Some(l)) ==> 0 <= l < buf.len() && buf[l] < lo,
    decreases t + 1,
{
    if t >= 0 {
        let prev = buf[t];
        if prev == lo || prev == hi {
        } else if prev < lo {
            lemma_fit_free(buf, lo, hi, t - 1, Some(t));
        } else if prev < hi {
        } else {
            lemma_fit_free(buf, lo, hi, t - 1, best);
        }
    }
}

proof fn lemma_greedy_columns(segs: Seq<VerticalSegment>)
    requires
        greedy(segs) is Some,
        segs.len() <= usize::MAX,
    ensures
        ({
            let (idxs, buf) = greedy(segs)->0;
            &&& idxs.len() == segs.len()
            &&& forall|k: int| 0 <= k < segs.len() ==> (#[trigger] idxs[k]) < buf.len() && seg_max(segs[k]) <= buf[idxs[k] as int]
            &&& forall|k: int, m: int| 0 <= k < m < segs.len() && idxs[k] == idxs[m] ==> seg_max(#[trigger] segs[k]) < seg_min(#[trigger] segs[m])
        }),
    decreases segs.len(),
{
    if segs.len() > 0 {
        let prev = segs.drop_last();
        lemma_greedy_columns(prev);
        lemma_greedy_bounds(prev);
        let (idxs0, buf0) = greedy(prev)->0;
        let s = segs.last();
        let n = segs.len() - 1;
        lemma_fit_free(buf0, seg_min(s), seg_max(s), buf0.len() - 1, None);
        let (idxs, buf) = greedy(segs)->0;
        assert forall|k: int| 0 <= k < n implies segs[k] == prev[k] by {}
        let f = fit(buf0, seg_min(s), seg_max(s), buf0.len() - 1, None);
        assert(seg_min(s) <= seg_max(s));
        assert(segs[n] == s);
        if f == Some(None::<int>) {
            assert(idxs == idxs0.push(buf0.len() as usize));
            assert(buf == buf0.push(seg_max(s)));
            lemma_step_columns(segs, prev, idxs0, buf0, idxs, buf, buf0.len() as int);
        } else {
            let l = f->0->0;
            assert(idxs == idxs0.push(l as usize));
            assert(buf == buf0.update(l, seg_max(s)));
            assert(buf0[l] < seg_min(s));
            lemma_step_columns(segs, prev, idxs0, buf0, idxs, buf, l);
        }
    }
}

proof fn lemma_step_columns(segs: Seq<VerticalSegment>, prev: Seq<VerticalSegment>, idxs0: Seq<usize>, buf0: Seq<usize>,
    idxs: Seq<usize>, buf: Seq<usize>, l: int)
    requires
        segs.len() > 0,
        prev == segs.drop_last(),
        idxs0.len() == prev.len(),
        forall|k: int| 0 <= k < prev.len() ==> (#[trigger] idxs0[k]) < buf0.len() && seg_max(prev[k]) <= buf0[idxs0[k] as int],
        forall|k: int, m: int| 0 <= k < m < prev.len() && idxs0[k] == idxs0[m] ==> seg_max(#[trigger] prev[k]) < seg_min(#[trigger] prev[m]),
        0 <= l <= buf0.len(),
        l < buf0.len() ==> buf0[l] < seg_min(segs.last()) && idxs == idxs0.push(l as usize) && buf == buf0.update(l, seg_max(segs.last())),
        l == buf0.len() ==> idxs == idxs0.push(l as usize) && buf == buf0.push(seg_max(segs.last())),
        seg_min(segs.last()) <= seg_max(segs.last()),
        l <= usize::MAX,
    ensures
        idxs.len() == segs.len(),
        forall|k: int| 0 <= k < segs.len() ==> (#[trigger] idxs[k]) < buf.len() && seg_max(segs[k]) <= buf[idxs[k] as int],
        forall|k: int, m: int| 0 <= k < m < segs.len() && idxs[k] == idxs[m] ==> seg_max(#[trigger] segs[k]) < seg_min(#[trigger] segs[m]),
{
    let n = segs.len() - 1;
    assert forall|k: int| 0 <= k < segs.len() implies (#[trigger] idxs[k]) < buf.len() && seg_max(segs[k]) <= buf[idxs[k] as int] by {
        if k < n {
            assert(idxs[k] == idxs0[k]);
            assert(segs[k] == prev[k]);
        } else {
            assert(idxs[k] == l);
        }
    }
    assert forall|k: int, m: int| 0 <= k < m < segs.len() && idxs[k] == idxs[m] implies seg_max(#[trigger] segs[k]) < seg_min(#[trigger] segs[m]) by {
        assert(segs[k] == prev[k]);
        assert(idxs[k] == idxs0[k]);
        if m < n {
            assert(segs[m] == prev[m]);
            assert(idxs[m] == idxs0[m]);
        } else {
            assert(idxs[m] == l);
            assert(segs[m] == segs.last());
        }
    }
}

/// Two segments that end up in the same column do not overlap: the earlier one ends strictly
/// before the later one starts.
pub proof fn lemma_same_column_disjoint(segs: Seq<VerticalSegment>, k: int, m: int)
    requires
        greedy(segs) is Some,
        0 <= k < m < segs.len(),
        segs.len() <= usize::MAX,
        (greedy(segs)->0).0[k] == (greedy(segs)->0).0[m],
    ensures
        seg_max(segs[k]) < seg_min(segs[m]),
{
    lemma_greedy_columns(segs);
}

} // verus!
