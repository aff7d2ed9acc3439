//! Bend dummies: an edge that leaves a node at its top or bottom is split at a new dummy node
//! above or below it, which stands for the bend point.
use vstd::prelude::*;
use crate::graph::{
    first_index_of, lanes_reference_nodes, first_at_or_after_layer, spec_node_size, BendDummyKind, DummyEdgeBendPoints, Edge,
    EdgeType, FlowType, Graph, MessageFlowAux, Node, NodeType,
};
use crate::ids::{EdgeId, LayerId, NodeId, PoolAndLane, RelativePort};
use crate::lane_neighbours::{
    can_link_in, links_consistent, lemma_unlinked_node_keeps_links_consistent, lane_ok, lemma_scan_lane_found, lemma_scan_lane_new_node, neighbours_for, spec_end_node, Place,
};
use crate::port_assignment::PlaceForBendDummy;

verus! {

/// The two flow kinds are the same, with the same transported data.
pub open spec fn same_flow(a: FlowType, b: FlowType) -> bool {
    match (a, b) {
        (FlowType::MessageFlow(x), FlowType::MessageFlow(y)) => x.transported_data@ == y.transported_data@ && x.tc == y.tc,
        (FlowType::DataFlow(x), FlowType::DataFlow(y)) => x == y,
        (FlowType::SequenceFlow, FlowType::SequenceFlow) => true,
        _ => false,
    }
}

pub(crate) fn copy_flow(f: &FlowType) -> (r: FlowType)
    ensures
        same_flow(r, *f),
{
    match f {
        FlowType::MessageFlow(aux) => {
            let mut data = Vec::new();
            let mut k: usize = 0;
            while k < aux.transported_data.len()
                invariant
                    k <= aux.transported_data@.len(),
                    data@ == aux.transported_data@.take(k as int),
                decreases aux.transported_data@.len() - k,
            {
                data.push(aux.transported_data[k]);
                assert(aux.transported_data@.take(k + 1) =~= aux.transported_data@.take(k as int).push(aux.transported_data@[k as int]));
                k = k + 1;
            }
            assert(aux.transported_data@.take(aux.transported_data@.len() as int) =~= aux.transported_data@);
            FlowType::MessageFlow(MessageFlowAux { transported_data: data, tc: aux.tc })
        },
        FlowType::DataFlow(aux) => FlowType::DataFlow(*aux),
        FlowType::SequenceFlow => FlowType::SequenceFlow,
    }
}

/// `s` with its first `o` replaced by `n`, if it holds `o`.
pub open spec fn replace_first(s: Seq<EdgeId>, o: EdgeId, n: EdgeId) -> Seq<EdgeId> {
    match first_index_of(s, o) {
        Some(i) => s.update(i, n),
        None => s,
    }
}

fn replace_first_in(v: &mut Vec<EdgeId>, o: EdgeId, n: EdgeId)
    ensures
        final(v)@ == replace_first(old(v)@, o, n),
{
    broadcast use crate::ids::lemma_edgeid_concrete_eq;
    let mut i: usize = 0;
    while i < v.len()
        invariant
            *v == *old(v),
            i <= v@.len(),
            forall|j: int| 0 <= j < i ==> v@[j] != o,
        decreases v@.len() - i,
    {
        if v[i].0 == o.0 {
            proof {
                assert(v@[i as int] == o);
                let k = choose|k: int| 0 <= k < v@.len() && v@[k] == o && forall|j: int| 0 <= j < k ==> v@[j] != o;
                if k < i {
                } else if k > i {
                }
                assert(first_index_of(v@, o) == Some(i as int));
            }
            v.set(i, n);
            return;
        }
        i = i + 1;
    }
    assert(first_index_of(v@, o) is None);
}

/// Where the dummy goes: above the lane's top node or below its bottom node in `layer` (alone if
/// there is none), or above or below the given node.
pub open spec fn resolved_place(g: Graph, pl: PoolAndLane, layer: LayerId, p: PlaceForBendDummy) -> Place {
    match p {
        PlaceForBendDummy::AtTheTop => match spec_end_node(g, pl, layer, true) {
            Some(t) => Place::Above(t),
            None => Place::AsOnlyNode,
        },
        PlaceForBendDummy::AtTheBottom => match spec_end_node(g, pl, layer, false) {
            Some(b) => Place::Below(b),
            None => Place::AsOnlyNode,
        },
        PlaceForBendDummy::Above(x) => Place::Above(x),
        PlaceForBendDummy::Below(x) => Place::Below(x),
    }
}

/// The reference node and the new neighbours exist, and the neighbours are linked to each other.
pub open spec fn place_links_ok(g: Graph, place: Place) -> bool {
    let (above, below) = neighbours_for(g, place);
    &&& place matches Place::Above(r) ==> r.0 < g.nodes@.len()
    &&& place matches Place::Below(r) ==> r.0 < g.nodes@.len()
    &&& above matches Some(x) ==> x.0 < g.nodes@.len() && g.nodes@[x.0 as int].node_below_in_same_lane == below
    &&& below matches Some(y) ==> y.0 < g.nodes@.len() && g.nodes@[y.0 as int].node_above_in_same_lane == above
}

/// What adding a bend dummy needs: the edge and its ends exist, it is a regular edge or a dummy
/// edge of an edge replaced by dummies, the lane exists, a given place is linked consistently, and
/// there is room for the new node and edges.
pub open spec fn bend_dummy_ok(g: Graph, edge_id: EdgeId, pl: PoolAndLane, layer: LayerId, p: PlaceForBendDummy) -> bool {
    let e = g.edges@[edge_id.0 as int];
    &&& edge_id.0 < g.edges@.len()
    &&& e.from.0 < g.nodes@.len()
    &&& e.to.0 < g.nodes@.len()
    &&& !(e.edge_type is ReplacedByDummies)
    &&& e.edge_type matches EdgeType::DummyEdge { original_edge, .. } ==>
        original_edge.0 < g.edges@.len() && g.edges@[original_edge.0 as int].edge_type is ReplacedByDummies
    &&& lane_ok(g, pl)
    &&& (p is Above || p is Below) ==> place_links_ok(g, resolved_place(g, pl, layer, p))
    &&& g.nodes@.len() < usize::MAX
    &&& g.edges@.len() + 2 <= usize::MAX
}

/// The new node: a bend dummy of `reference_node` in `pl` and `layer`, with one port on each side
/// at `relative_port_x` on its top, its incoming and outgoing edge, and its new neighbours.
pub open spec fn is_bend_dummy(n: Node, id: NodeId, reference_node: NodeId, kind: BendDummyKind, pl: PoolAndLane,
    layer: LayerId, relative_port_x: usize, incoming: Seq<EdgeId>, outgoing: Seq<EdgeId>,
    above: Option<NodeId>, below: Option<NodeId>) -> bool {
    let t = NodeType::BendDummy { originating_node: reference_node, kind };
    &&& n.id == id
    &&& n.node_type == t
    &&& n.x == 0 && n.y == 0
    &&& (n.width, n.height) == spec_node_size(t)
    &&& n.stroke_color is None && n.fill_color is None
    &&& n.pool == pl.pool && n.lane == pl.lane && n.layer_id == layer
    &&& !n.uses_half_layer
    &&& n.node_above_in_same_lane == above && n.node_below_in_same_lane == below
    &&& n.incoming@ == incoming && n.outgoing@ == outgoing
    &&& n.incoming_ports@ == seq![RelativePort { x: relative_port_x, y: 0 }]
    &&& n.outgoing_ports@ == seq![RelativePort { x: relative_port_x, y: 0 }]
}

/// `a` and `b` are the same node but for their links and edge lists.
pub open spec fn same_but_links_and_edges(a: Node, b: Node) -> bool {
    &&& a.id == b.id
    &&& a.node_type == b.node_type
    &&& a.x == b.x && a.y == b.y && a.width == b.width && a.height == b.height
    &&& a.stroke_color == b.stroke_color && a.fill_color == b.fill_color
    &&& a.pool == b.pool && a.lane == b.lane && a.layer_id == b.layer_id
    &&& a.uses_half_layer == b.uses_half_layer
    &&& a.incoming_ports == b.incoming_ports && a.outgoing_ports == b.outgoing_ports
}

/// A new dummy edge: from `from` to `to`, part of `original`, with the flow of `flow`.
pub open spec fn is_dummy_edge(e: Edge, from: NodeId, to: NodeId, original: EdgeId, flow: FlowType, is_vertical: bool,
    is_reversed: bool, stays_within_lane: bool, attached: Option<crate::bpmn_node::BoundaryEvent>) -> bool {
    &&& e.from == from && e.to == to
    &&& e.edge_type == (EdgeType::DummyEdge { original_edge: original, bend_points: DummyEdgeBendPoints::ToBeDeterminedOrStraight })
    &&& same_flow(e.flow_type, flow)
    &&& e.is_vertical == is_vertical
    &&& e.is_reversed == is_reversed
    &&& e.stroke_color is None
    &&& e.stays_within_lane == stays_within_lane
    &&& e.attached_to_boundary_event == attached
}

/// The edge is attached to a boundary event at node `n`.
pub open spec fn attached_at(e: Edge, n: NodeId) -> bool {
    e.attached_to_boundary_event is Some && (if e.is_reversed { e.to == n } else { e.from == n })
}

pub open spec fn pl_of(n: Node) -> PoolAndLane {
    PoolAndLane { pool: n.pool, lane: n.lane }
}



/// What splitting an edge at node `dummy` needs: the edge and its ends exist, the ends come
/// before the dummy, which is the last node and has no edges yet, the edge is regular or a dummy
/// edge of an edge replaced by dummies, and there is room for two more edges.
pub open spec fn split_ok(g: Graph, edge_id: EdgeId, dummy: NodeId) -> bool {
    let e = g.edges@[edge_id.0 as int];
    &&& edge_id.0 < g.edges@.len()
    &&& e.from.0 < dummy.0
    &&& e.to.0 < dummy.0
    &&& dummy.0 + 1 == g.nodes@.len()
    &&& g.nodes@[dummy.0 as int].incoming@.len() == 0
    &&& g.nodes@[dummy.0 as int].outgoing@.len() == 0
    &&& !(e.edge_type is ReplacedByDummies)
    &&& e.edge_type matches EdgeType::DummyEdge { original_edge, .. } ==>
        original_edge.0 < g.edges@.len() && g.edges@[original_edge.0 as int].edge_type is ReplacedByDummies
    &&& g.edges@.len() + 2 <= usize::MAX
}

/// The edges `e1` after splitting edge `edge_id` of `e0` at `dummy`; `stays_from` and `stays_to`
/// tell whether the source and the target lie in the dummy's lane.
pub open spec fn split_edges(e0: Seq<Edge>, e1: Seq<Edge>, edge_id: EdgeId, dummy: NodeId, reference_node: NodeId,
    stays_from: bool, stays_to: bool) -> bool {
    let m = e0.len();
    let e = e0[edge_id.0 as int];
    let (f, t) = (e.from, e.to);
    if e.edge_type is Regular {
        &&& e1.len() == m + 2
        &&& is_dummy_edge(e1[m as int], f, dummy, edge_id, e.flow_type, reference_node == f, e.is_reversed,
            stays_from, if attached_at(e, f) { e.attached_to_boundary_event } else { None })
        &&& is_dummy_edge(e1[(m + 1) as int], dummy, t, edge_id, e.flow_type, reference_node == t, e.is_reversed,
            stays_to, if attached_at(e, t) { e.attached_to_boundary_event } else { None })
        &&& e1[edge_id.0 as int] == (Edge {
            edge_type: EdgeType::ReplacedByDummies { first_dummy_edge: EdgeId(m as usize), text: e.edge_type->Regular_text },
            ..e
        })
        &&& forall|k: int| 0 <= k < m && k != edge_id.0 ==> #[trigger] e1[k] == e0[k]
    } else {
        let o = e.edge_type->DummyEdge_original_edge;
        let eo = e0[o.0 as int];
        &&& e1.len() == m + 1
        &&& is_dummy_edge(e1[m as int], f, dummy, o, e.flow_type, true, e.is_reversed,
            stays_from, if !e.is_reversed { e.attached_to_boundary_event } else { None })
        &&& e1[edge_id.0 as int] == (Edge {
            from: dummy,
            attached_to_boundary_event: if !e.is_reversed { None } else { e.attached_to_boundary_event },
            is_vertical: if reference_node == f { e.is_vertical } else { true },
            ..e
        })
        &&& e1[o.0 as int] == (Edge {
            edge_type: EdgeType::ReplacedByDummies {
                first_dummy_edge: if eo.edge_type->ReplacedByDummies_first_dummy_edge == edge_id {
                    EdgeId(m as usize)
                } else {
                    eo.edge_type->ReplacedByDummies_first_dummy_edge
                },
                text: eo.edge_type->ReplacedByDummies_text,
            },
            ..eo
        })
        &&& forall|k: int| 0 <= k < m && k != edge_id.0 && k != o.0 ==> #[trigger] e1[k] == e0[k]
    }
}

/// The edge lists `n1` after splitting edge `edge_id` (from `f` to `t`) at `dummy`, with `m`
/// edges before: the source lists the first new edge in place of `edge_id`, the target of a
/// regular edge the second; the dummy gets its edges.
pub open spec fn split_lists(n0: Seq<Node>, n1: Seq<Node>, edge_id: EdgeId, f: NodeId, t: NodeId, dummy: NodeId, m: int,
    regular: bool) -> bool {
    &&& n1.len() == n0.len()
    &&& forall|i: int| 0 <= i < n0.len() ==> {
        let (a, b) = (n0[i], #[trigger] n1[i]);
        &&& same_but_links_and_edges(b, a)
        &&& b.node_above_in_same_lane == a.node_above_in_same_lane
        &&& b.node_below_in_same_lane == a.node_below_in_same_lane
        &&& b.outgoing@ == if i == dummy.0 {
            if regular { seq![EdgeId((m + 1) as usize)] } else { seq![edge_id] }
        } else if i == f.0 {
            replace_first(a.outgoing@, edge_id, EdgeId(m as usize))
        } else {
            a.outgoing@
        }
        &&& b.incoming@ == if i == dummy.0 {
            seq![EdgeId(m as usize)]
        } else if regular && i == t.0 {
            replace_first(a.incoming@, edge_id, EdgeId((m + 1) as usize))
        } else {
            a.incoming@
        }
    }
}

/// Rewrites the edges for splitting edge `edge_id` at `dummy`.
#[verifier::spinoff_prover]
fn split_edge_records(edges: &mut Vec<Edge>, edge_id: EdgeId, dummy: NodeId, reference_node: NodeId, stays_from: bool, stays_to: bool)
    requires
        edge_id.0 < old(edges)@.len(),
        !(old(edges)@[edge_id.0 as int].edge_type is ReplacedByDummies),
        old(edges)@[edge_id.0 as int].edge_type matches EdgeType::DummyEdge { original_edge, .. } ==>
            original_edge.0 < old(edges)@.len() && old(edges)@[original_edge.0 as int].edge_type is ReplacedByDummies,
        old(edges)@.len() + 2 <= usize::MAX,
    ensures
        split_edges(old(edges)@, final(edges)@, edge_id, dummy, reference_node, stays_from, stays_to),
{
    let current_num_edges = edges.len();
    let from_id = edges[edge_id.0].from;
    let to_id = edges[edge_id.0].to;
    let is_reversed = edges[edge_id.0].is_reversed;
    let flow_type = copy_flow(&edges[edge_id.0].flow_type);
    let is_regular = match &edges[edge_id.0].edge_type {
        EdgeType::Regular { .. } => true,
        _ => false,
    };
    let attached_now = edges[edge_id.0].attached_to_boundary_event;
    if is_regular {
        let text = match &edges[edge_id.0].edge_type {
            EdgeType::Regular { text, .. } => text.clone(),
            _ => None,
        };
        let at_from = attached_now.is_some() && (if is_reversed { to_id.0 == from_id.0 } else { true });
        let at_to = attached_now.is_some() && (if is_reversed { true } else { from_id.0 == to_id.0 });
        let attached1 = if at_from { attached_now } else { None };
        let attached2 = if at_to { attached_now } else { None };
        edges[edge_id.0].edge_type = EdgeType::ReplacedByDummies { first_dummy_edge: EdgeId(current_num_edges), text };
        let flow1 = copy_flow(&flow_type);
        edges.push(Edge {
            from: from_id,
            to: dummy,
            edge_type: EdgeType::DummyEdge { original_edge: edge_id, bend_points: DummyEdgeBendPoints::ToBeDeterminedOrStraight },
            flow_type: flow1,
            is_vertical: reference_node.0 == from_id.0,
            is_reversed,
            stroke_color: None,
            stays_within_lane: stays_from,
            attached_to_boundary_event: attached1,
        });
        edges.push(Edge {
            from: dummy,
            to: to_id,
            edge_type: EdgeType::DummyEdge { original_edge: edge_id, bend_points: DummyEdgeBendPoints::ToBeDeterminedOrStraight },
            flow_type,
            is_vertical: reference_node.0 == to_id.0,
            is_reversed,
            stroke_color: None,
            stays_within_lane: stays_to,
            attached_to_boundary_event: attached2,
        });
    } else {
        let original_edge = match &edges[edge_id.0].edge_type {
            EdgeType::DummyEdge { original_edge, .. } => *original_edge,
            _ => edge_id,
        };
        let attached = if !is_reversed {
            edges[edge_id.0].attached_to_boundary_event = None;
            attached_now
        } else {
            None
        };
        let new_dummy_edge_id = EdgeId(current_num_edges);
        edges.push(Edge {
            from: from_id,
            to: dummy,
            edge_type: EdgeType::DummyEdge { original_edge, bend_points: DummyEdgeBendPoints::ToBeDeterminedOrStraight },
            flow_type,
            is_vertical: true,
            is_reversed,
            stroke_color: None,
            stays_within_lane: stays_from,
            attached_to_boundary_event: attached,
        });
        edges[edge_id.0].from = dummy;
        match &mut edges[original_edge.0].edge_type {
            EdgeType::ReplacedByDummies { first_dummy_edge, .. } => {
                if first_dummy_edge.0 == edge_id.0 {
                    *first_dummy_edge = new_dummy_edge_id;
                }
            },
            _ => {},
        }
        if reference_node.0 != from_id.0 {
            edges[edge_id.0].is_vertical = true;
        }
    }
}

/// Rewrites the edge lists for splitting edge `edge_id` (from `f` to `t`) at `dummy`.
#[verifier::spinoff_prover]
fn split_edge_lists(nodes: &mut Vec<Node>, edge_id: EdgeId, f: NodeId, t: NodeId, dummy: NodeId, m: usize, regular: bool)
    requires
        f.0 < dummy.0,
        t.0 < dummy.0,
        dummy.0 < old(nodes)@.len(),
        old(nodes)@[dummy.0 as int].incoming@.len() == 0,
        old(nodes)@[dummy.0 as int].outgoing@.len() == 0,
        m + 1 <= usize::MAX,
    ensures
        split_lists(old(nodes)@, final(nodes)@, edge_id, f, t, dummy, m as int, regular),
{
    let ghost n0 = nodes@;
    replace_first_in(&mut nodes[f.0].outgoing, edge_id, EdgeId(m));
    nodes[dummy.0].incoming.push(EdgeId(m));
    if regular {
        replace_first_in(&mut nodes[t.0].incoming, edge_id, EdgeId(m + 1));
        nodes[dummy.0].outgoing.push(EdgeId(m + 1));
    } else {
        nodes[dummy.0].outgoing.push(edge_id);
    }
    proof {
        assert forall|i: int| 0 <= i < n0.len() implies {
            let (a, b) = (n0[i], #[trigger] nodes@[i]);
            &&& same_but_links_and_edges(b, a)
            &&& b.node_above_in_same_lane == a.node_above_in_same_lane
            &&& b.node_below_in_same_lane == a.node_below_in_same_lane
            &&& b.outgoing@ == if i == dummy.0 {
                if regular { seq![EdgeId((m + 1) as usize)] } else { seq![edge_id] }
            } else if i == f.0 {
                replace_first(a.outgoing@, edge_id, EdgeId(m as usize))
            } else {
                a.outgoing@
            }
            &&& b.incoming@ == if i == dummy.0 {
                seq![EdgeId(m as usize)]
            } else if regular && i == t.0 {
                replace_first(a.incoming@, edge_id, EdgeId((m + 1) as usize))
            } else {
                a.incoming@
            }
        } by {
            if i == dummy.0 {
                assert(nodes@[i].incoming@ =~= seq![EdgeId(m)]);
                if regular {
                    assert(nodes@[i].outgoing@ =~= seq![EdgeId((m + 1) as usize)]);
                } else {
                    assert(nodes@[i].outgoing@ =~= seq![edge_id]);
                }
            }
        }
    }
}

/// The place where a node of `layer` goes in a lane: before the first node of that layer or a later
/// one, else at the end; only nodes of earlier layers come before it.
pub open spec fn place_in_lane(ids: Seq<NodeId>, nodes: Seq<Node>, layer: LayerId) -> int {
    match first_at_or_after_layer(ids, nodes, layer) {
        Some(pos) => pos,
        None => ids.len() as int,
    }
}

/// A first node of `layer` or later, after `k` nodes of earlier layers.
proof fn lemma_first_later(ids: Seq<NodeId>, nodes: Seq<Node>, layer: LayerId, k: int)
    requires
        0 <= k <= ids.len(),
        forall|j: int| 0 <= j < k ==> nodes[ids[j].0 as int].layer_id.0 < layer.0,
        exists|i: int| k <= i < ids.len() && nodes[ids[i].0 as int].layer_id.0 >= layer.0,
    ensures
        exists|i: int| 0 <= i < ids.len() && nodes[ids[i].0 as int].layer_id.0 >= layer.0
            && forall|j: int| 0 <= j < i ==> nodes[ids[j].0 as int].layer_id.0 < layer.0,
    decreases ids.len() - k,
{
    if nodes[ids[k].0 as int].layer_id.0 >= layer.0 {
        assert(0 <= k < ids.len() && nodes[ids[k].0 as int].layer_id.0 >= layer.0
            && forall|j: int| 0 <= j < k ==> nodes[ids[j].0 as int].layer_id.0 < layer.0);
    } else {
        lemma_first_later(ids, nodes, layer, k + 1);
    }
}

#[verifier::spinoff_prover]
proof fn lemma_place_in_lane(ids: Seq<NodeId>, nodes: Seq<Node>, layer: LayerId)
    ensures
        0 <= place_in_lane(ids, nodes, layer) <= ids.len(),
        forall|j: int| 0 <= j < place_in_lane(ids, nodes, layer) ==> nodes[(#[trigger] ids[j]).0 as int].layer_id.0 < layer.0,
{
    if exists|i: int| 0 <= i < ids.len() && nodes[ids[i].0 as int].layer_id.0 >= layer.0 {
        lemma_first_later(ids, nodes, layer, 0);
    } else {
        assert forall|j: int| 0 <= j < ids.len() implies nodes[(#[trigger] ids[j]).0 as int].layer_id.0 < layer.0 by {
            if nodes[ids[j].0 as int].layer_id.0 >= layer.0 {
                assert(0 <= j < ids.len() && nodes[ids[j].0 as int].layer_id.0 >= layer.0);
            }
        }
    }
}

/// The lanes of `g1` hold the nodes of those of `g0` and node `d`, which lies in lane `pl`, at
/// the place for its layer.
#[verifier::spinoff_prover]
proof fn lemma_new_node_in_lane(g0: Graph, g1: Graph, d: NodeId, pl: PoolAndLane, layer: LayerId)
    requires
        lane_ok(g0, pl),
        d.0 == g0.nodes@.len(),
        g1.nodes@.len() == g0.nodes@.len() + 1,
        forall|i: int| 0 <= i < g0.nodes@.len() ==> (#[trigger] g1.nodes@[i]).layer_id == g0.nodes@[i].layer_id,
        g1.nodes@[d.0 as int].layer_id == layer,
        g1.nodes@[d.0 as int].node_above_in_same_lane is None,
        g1.nodes@[d.0 as int].node_below_in_same_lane is None,
        g1.pools@.len() == g0.pools@.len(),
        forall|p: int| 0 <= p < g0.pools@.len() && p != pl.pool.0 ==> #[trigger] g1.pools@[p] == g0.pools@[p],
        g1.pools@[pl.pool.0 as int].lanes@.len() == g0.pools@[pl.pool.0 as int].lanes@.len(),
        forall|l: int| 0 <= l < g0.pools@[pl.pool.0 as int].lanes@.len() && l != pl.lane.0
            ==> #[trigger] g1.pools@[pl.pool.0 as int].lanes@[l] == g0.pools@[pl.pool.0 as int].lanes@[l],
        g1.pools@[pl.pool.0 as int].lanes@[pl.lane.0 as int].nodes@ == g0.pools@[pl.pool.0 as int].lanes@[pl.lane.0 as int].nodes@
            .insert(place_in_lane(g0.pools@[pl.pool.0 as int].lanes@[pl.lane.0 as int].nodes@, g0.nodes@, layer), d),
    ensures
        lane_ok(g1, pl),
        spec_end_node(g1, pl, layer, true) == Some(d),
        spec_end_node(g1, pl, layer, false) == Some(d),
{
    let ids = g0.pools@[pl.pool.0 as int].lanes@[pl.lane.0 as int].nodes@;
    let pos = place_in_lane(ids, g0.nodes@, layer);
    lemma_place_in_lane(ids, g0.nodes@, layer);
    assert forall|j: int| 0 <= j < pos implies g1.nodes@[(#[trigger] ids[j]).0 as int].layer_id.0 < layer.0 by {
        assert(g0.pools@[pl.pool.0 as int].lanes@[pl.lane.0 as int].nodes@[j].0 < g0.nodes@.len());
        assert(g0.nodes@[ids[j].0 as int].layer_id.0 < layer.0);
    }
    lemma_scan_lane_new_node(g1.nodes@, ids, pos, d, layer, true);
    lemma_scan_lane_new_node(g1.nodes@, ids, pos, d, layer, false);
    lemma_lanes_still_reference(g0, g1, d, pl, pos);
}

proof fn lemma_lanes_still_reference(g0: Graph, g1: Graph, d: NodeId, pl: PoolAndLane, pos: int)
    requires
        lane_ok(g0, pl),
        d.0 == g0.nodes@.len(),
        g1.nodes@.len() == g0.nodes@.len() + 1,
        0 <= pos <= g0.pools@[pl.pool.0 as int].lanes@[pl.lane.0 as int].nodes@.len(),
        g1.pools@.len() == g0.pools@.len(),
        forall|p: int| 0 <= p < g0.pools@.len() && p != pl.pool.0 ==> #[trigger] g1.pools@[p] == g0.pools@[p],
        g1.pools@[pl.pool.0 as int].lanes@.len() == g0.pools@[pl.pool.0 as int].lanes@.len(),
        forall|l: int| 0 <= l < g0.pools@[pl.pool.0 as int].lanes@.len() && l != pl.lane.0
            ==> #[trigger] g1.pools@[pl.pool.0 as int].lanes@[l] == g0.pools@[pl.pool.0 as int].lanes@[l],
        g1.pools@[pl.pool.0 as int].lanes@[pl.lane.0 as int].nodes@
            == g0.pools@[pl.pool.0 as int].lanes@[pl.lane.0 as int].nodes@.insert(pos, d),
    ensures
        lanes_reference_nodes(g1.pools@, g1.nodes@.len() as int),
{
    let ids = g0.pools@[pl.pool.0 as int].lanes@[pl.lane.0 as int].nodes@;
    let new_ids = g1.pools@[pl.pool.0 as int].lanes@[pl.lane.0 as int].nodes@;
    assert forall|p: int, l: int, i: int| 0 <= p < g1.pools@.len() && 0 <= l < g1.pools@[p].lanes@.len()
        && 0 <= i < g1.pools@[p].lanes@[l].nodes@.len() implies #[trigger] g1.pools@[p].lanes@[l].nodes@[i].0 < g1.nodes@.len() by {
        if p == pl.pool.0 && l == pl.lane.0 {
            if i < pos {
                assert(new_ids[i] == ids[i]);
                assert(g0.pools@[p].lanes@[l].nodes@[i].0 < g0.nodes@.len());
            } else if i > pos {
                assert(new_ids[i] == ids[i - 1]);
                assert(g0.pools@[p].lanes@[l].nodes@[i - 1].0 < g0.nodes@.len());
            }
        } else if p == pl.pool.0 {
            assert(g1.pools@[p].lanes@[l] == g0.pools@[p].lanes@[l]);
            assert(g0.pools@[p].lanes@[l].nodes@[i].0 < g0.nodes@.len());
        } else {
            assert(g1.pools@[p] == g0.pools@[p]);
            assert(g0.pools@[p].lanes@[l].nodes@[i].0 < g0.nodes@.len());
        }
    }
}

/// Graph `g1` is `g0` after adding bend dummy `r` for edge `edge_id` in lane `pool_and_lane` and
/// `layer` at `place_for_bend_dummy`: the node with its ports and links, its neighbours linked to
/// it, the edge split at it, and the lane holding it in layer order.
pub open spec fn bend_dummy_added(g0: Graph, g1: Graph, edge_id: EdgeId, pool_and_lane: PoolAndLane, layer: LayerId,
    place_for_bend_dummy: PlaceForBendDummy, reference_node: NodeId, relative_port_x: usize, kind: BendDummyKind, r: NodeId) -> bool {
    let n = g0.nodes@.len();
    let m = g0.edges@.len();
    let e0 = g0.edges@[edge_id.0 as int];
    let regular = e0.edge_type is Regular;
    let (above, below) = neighbours_for(g0, resolved_place(g0, pool_and_lane, layer, place_for_bend_dummy));
    &&& r == NodeId(n as usize)
    &&& is_bend_dummy(g1.nodes@[n as int], r, reference_node, kind, pool_and_lane, layer, relative_port_x,
        seq![EdgeId(m as usize)], if regular { seq![EdgeId((m + 1) as usize)] } else { seq![edge_id] }, above, below)
    &&& g1.nodes@.len() == n + 1
    &&& forall|i: int| 0 <= i < n ==> {
        let (a, b) = (g0.nodes@[i], #[trigger] g1.nodes@[i]);
        &&& same_but_links_and_edges(b, a)
        &&& b.outgoing@ == if i == e0.from.0 { replace_first(a.outgoing@, edge_id, EdgeId(m as usize)) } else { a.outgoing@ }
        &&& b.incoming@ == if regular && i == e0.to.0 { replace_first(a.incoming@, edge_id, EdgeId((m + 1) as usize)) } else { a.incoming@ }
        &&& b.node_above_in_same_lane == if below matches Some(y) && y.0 == i { Some(r) } else { a.node_above_in_same_lane }
        &&& b.node_below_in_same_lane == if above matches Some(x) && x.0 == i { Some(r) } else { a.node_below_in_same_lane }
    }
    &&& split_edges(g0.edges@, g1.edges@, edge_id, r, reference_node,
        pl_of(g0.nodes@[e0.from.0 as int]) == pool_and_lane, pool_and_lane == pl_of(g0.nodes@[e0.to.0 as int]))
    &&& g1.pools@.len() == g0.pools@.len()
    &&& forall|p: int| 0 <= p < g0.pools@.len() && p != pool_and_lane.pool.0 ==> #[trigger] g1.pools@[p] == g0.pools@[p]
    &&& g1.pools@[pool_and_lane.pool.0 as int].lanes@.len() == g0.pools@[pool_and_lane.pool.0 as int].lanes@.len()
    &&& forall|l: int| 0 <= l < g0.pools@[pool_and_lane.pool.0 as int].lanes@.len() && l != pool_and_lane.lane.0
        ==> #[trigger] g1.pools@[pool_and_lane.pool.0 as int].lanes@[l] == g0.pools@[pool_and_lane.pool.0 as int].lanes@[l]
    &&& g1.pools@[pool_and_lane.pool.0 as int].lanes@[pool_and_lane.lane.0 as int].nodes@ == match first_at_or_after_layer(
        g0.pools@[pool_and_lane.pool.0 as int].lanes@[pool_and_lane.lane.0 as int].nodes@, g0.nodes@, layer) {
        Some(pos) => g0.pools@[pool_and_lane.pool.0 as int].lanes@[pool_and_lane.lane.0 as int].nodes@.insert(pos, r),
        None => g0.pools@[pool_and_lane.pool.0 as int].lanes@[pool_and_lane.lane.0 as int].nodes@.push(r),
    }
    &&& g1.data_elements == g0.data_elements
    &&& g1.config == g0.config
    &&& g1.num_layers == g0.num_layers
    &&& g1.pe_bpmd_definitions == g0.pe_bpmd_definitions
}

/// Splits edge `edge_id` at a new bend dummy of `reference_node`, placed in lane `pool_and_lane`
/// and `layer` as `place_for_bend_dummy` says, and returns the dummy. A regular edge is replaced by
/// two dummy edges, through the dummy; a dummy edge gets a new dummy edge from its source to the
/// dummy and then starts at the dummy itself. Both ports of the dummy lie on its top side at
/// `relative_port_x`.
pub fn add_bend_dummy_node(graph: &mut Graph, edge_id: EdgeId, pool_and_lane: PoolAndLane, layer: LayerId,
    place_for_bend_dummy: PlaceForBendDummy, reference_node: NodeId, relative_port_x: usize, kind: BendDummyKind) -> (r: NodeId)
    requires
        bend_dummy_ok(*old(graph), edge_id, pool_and_lane, layer, place_for_bend_dummy),
    ensures
        bend_dummy_added(*old(graph), *final(graph), edge_id, pool_and_lane, layer, place_for_bend_dummy, reference_node,
            relative_port_x, kind, r),
        links_consistent(old(graph).nodes@) ==> links_consistent(final(graph).nodes@),
        lanes_reference_nodes(final(graph).pools@, final(graph).nodes@.len() as int),
{
    let ghost g0 = *graph;
    let r = insert_bend_dummy(graph, edge_id, pool_and_lane, layer, place_for_bend_dummy, reference_node, relative_port_x, kind);
    proof {
        let ids = g0.pools@[pool_and_lane.pool.0 as int].lanes@[pool_and_lane.lane.0 as int].nodes@;
        lemma_place_in_lane(ids, g0.nodes@, layer);
        if first_at_or_after_layer(ids, g0.nodes@, layer) is None {
            assert(ids.push(r) =~= ids.insert(ids.len() as int, r));
        }
        lemma_lanes_still_reference(g0, *graph, r, pool_and_lane, place_in_lane(ids, g0.nodes@, layer));
    }
    r
}

#[verifier::rlimit(50)]
#[verifier::spinoff_prover]
fn insert_bend_dummy(graph: &mut Graph, edge_id: EdgeId, pool_and_lane: PoolAndLane, layer: LayerId,
    place_for_bend_dummy: PlaceForBendDummy, reference_node: NodeId, relative_port_x: usize, kind: BendDummyKind) -> (r: NodeId)
    requires
        bend_dummy_ok(*old(graph), edge_id, pool_and_lane, layer, place_for_bend_dummy),
    ensures
        ({
            let g0 = *old(graph);
            let g1 = *final(graph);
            let n = g0.nodes@.len();
            let m = g0.edges@.len();
            let e0 = g0.edges@[edge_id.0 as int];
            let regular = e0.edge_type is Regular;
            let (above, below) = neighbours_for(g0, resolved_place(g0, pool_and_lane, layer, place_for_bend_dummy));
            &&& r == NodeId(n as usize)
            &&& is_bend_dummy(g1.nodes@[n as int], r, reference_node, kind, pool_and_lane, layer, relative_port_x,
                seq![EdgeId(m as usize)], if regular { seq![EdgeId((m + 1) as usize)] } else { seq![edge_id] }, above, below)
            &&& g1.nodes@.len() == n + 1
            &&& forall|i: int| 0 <= i < n ==> {
                let (a, b) = (g0.nodes@[i], #[trigger] g1.nodes@[i]);
                &&& same_but_links_and_edges(b, a)
                &&& b.outgoing@ == if i == e0.from.0 { replace_first(a.outgoing@, edge_id, EdgeId(m as usize)) } else { a.outgoing@ }
                &&& b.incoming@ == if regular && i == e0.to.0 { replace_first(a.incoming@, edge_id, EdgeId((m + 1) as usize)) } else { a.incoming@ }
                &&& b.node_above_in_same_lane == if below matches Some(y) && y.0 == i { Some(r) } else { a.node_above_in_same_lane }
                &&& b.node_below_in_same_lane == if above matches Some(x) && x.0 == i { Some(r) } else { a.node_below_in_same_lane }
            }
            &&& split_edges(g0.edges@, g1.edges@, edge_id, r, reference_node,
                pl_of(g0.nodes@[e0.from.0 as int]) == pool_and_lane, pool_and_lane == pl_of(g0.nodes@[e0.to.0 as int]))
            &&& g1.pools@.len() == g0.pools@.len()
            &&& forall|p: int| 0 <= p < g0.pools@.len() && p != pool_and_lane.pool.0 ==> #[trigger] g1.pools@[p] == g0.pools@[p]
            &&& g1.pools@[pool_and_lane.pool.0 as int].lanes@.len() == g0.pools@[pool_and_lane.pool.0 as int].lanes@.len()
            &&& forall|l: int| 0 <= l < g0.pools@[pool_and_lane.pool.0 as int].lanes@.len() && l != pool_and_lane.lane.0
                ==> #[trigger] g1.pools@[pool_and_lane.pool.0 as int].lanes@[l] == g0.pools@[pool_and_lane.pool.0 as int].lanes@[l]
            &&& g1.pools@[pool_and_lane.pool.0 as int].lanes@[pool_and_lane.lane.0 as int].nodes@ == match first_at_or_after_layer(
                g0.pools@[pool_and_lane.pool.0 as int].lanes@[pool_and_lane.lane.0 as int].nodes@, g0.nodes@, layer) {
                Some(pos) => g0.pools@[pool_and_lane.pool.0 as int].lanes@[pool_and_lane.lane.0 as int].nodes@.insert(pos, r),
                None => g0.pools@[pool_and_lane.pool.0 as int].lanes@[pool_and_lane.lane.0 as int].nodes@.push(r),
            }
            &&& g1.data_elements == g0.data_elements
            &&& g1.config == g0.config
            &&& g1.num_layers == g0.num_layers
            &&& g1.pe_bpmd_definitions == g0.pe_bpmd_definitions
        }),
        links_consistent(old(graph).nodes@) ==> links_consistent(final(graph).nodes@),
{
    let ghost g0 = *graph;
    let place = match place_for_bend_dummy {
        PlaceForBendDummy::AtTheTop => match graph.get_top_node(pool_and_lane, layer) {
            Some(top_node) => Place::Above(top_node),
            None => Place::AsOnlyNode,
        },
        PlaceForBendDummy::AtTheBottom => match graph.get_bottom_node(pool_and_lane, layer) {
            Some(bottom_node) => Place::Below(bottom_node),
            None => Place::AsOnlyNode,
        },
        PlaceForBendDummy::Above(x) => Place::Above(x),
        PlaceForBendDummy::Below(x) => Place::Below(x),
    };
    assert(place == resolved_place(g0, pool_and_lane, layer, place_for_bend_dummy));
    proof {
        let ids = g0.pools@[pool_and_lane.pool.0 as int].lanes@[pool_and_lane.lane.0 as int].nodes@;
        lemma_scan_lane_found(g0.nodes@, ids, layer, true);
        lemma_scan_lane_found(g0.nodes@, ids, layer, false);
        if let Some(x) = spec_end_node(g0, pool_and_lane, layer, true) {
            let i = choose|i: int| 0 <= i < ids.len() && ids[i] == x;
            assert(ids[i].0 < g0.nodes@.len());
        }
        if let Some(x) = spec_end_node(g0, pool_and_lane, layer, false) {
            let i = choose|i: int| 0 <= i < ids.len() && ids[i] == x;
            assert(ids[i].0 < g0.nodes@.len());
        }
        assert(place_links_ok(g0, place));
    }
    let dummy_node_id = graph.add_node(NodeType::BendDummy { originating_node: reference_node, kind }, pool_and_lane, Some(layer));
    let ghost g_added = *graph;
    let e = &graph.edges[edge_id.0];
    let (from_id, to_id) = (e.from, e.to);
    let regular = match &e.edge_type {
        EdgeType::Regular { .. } => true,
        _ => false,
    };
    let stays_from = same_pool_and_lane(graph.nodes[from_id.0].pool_and_lane(), pool_and_lane);
    let stays_to = same_pool_and_lane(pool_and_lane, graph.nodes[to_id.0].pool_and_lane());
    let m = graph.edges.len();
    split_edge_records(&mut graph.edges, edge_id, dummy_node_id, reference_node, stays_from, stays_to);
    split_edge_lists(&mut graph.nodes, edge_id, from_id, to_id, dummy_node_id, m, regular);
    let ghost g_split = *graph;
    graph.nodes[dummy_node_id.0].outgoing_ports.push(RelativePort { x: relative_port_x, y: 0 });
    graph.nodes[dummy_node_id.0].incoming_ports.push(RelativePort { x: relative_port_x, y: 0 });
    let ghost g_ports = *graph;
    proof {
        assert forall|i: int| 0 <= i < g0.nodes@.len() implies
            same_but_links_and_edges(#[trigger] g_ports.nodes@[i], g0.nodes@[i])
            && g_ports.nodes@[i].node_above_in_same_lane == g0.nodes@[i].node_above_in_same_lane
            && g_ports.nodes@[i].node_below_in_same_lane == g0.nodes@[i].node_below_in_same_lane by {
            assert(g_ports.nodes@[i] == g_split.nodes@[i]);
            assert(g_added.nodes@[i] == g0.nodes@[i]);
        }
        assert(neighbours_for(g_ports, place) == neighbours_for(g0, place));
        if place is AsOnlyNode {
            let ids = g0.pools@[pool_and_lane.pool.0 as int].lanes@[pool_and_lane.lane.0 as int].nodes@;
            lemma_place_in_lane(ids, g0.nodes@, layer);
            if first_at_or_after_layer(ids, g0.nodes@, layer) is None {
                assert(ids.push(dummy_node_id) =~= ids.insert(ids.len() as int, dummy_node_id));
            }
            lemma_new_node_in_lane(g0, g_ports, dummy_node_id, pool_and_lane, layer);
        }
        assert(can_link_in(g_ports, dummy_node_id, place));
        if links_consistent(g0.nodes@) {
            lemma_unlinked_node_keeps_links_consistent(g0.nodes@, g_ports.nodes@);
        }
    }
    graph.adjust_above_and_below_for_new_inbetween(dummy_node_id, place);
    proof {
        let n = g0.nodes@.len();
        assert(graph.nodes@[n as int].incoming_ports@ =~= seq![RelativePort { x: relative_port_x, y: 0 }]);
        assert(graph.nodes@[n as int].outgoing_ports@ =~= seq![RelativePort { x: relative_port_x, y: 0 }]);
        assert forall|i: int| 0 <= i < n implies #[trigger] graph.nodes@[i].outgoing@ == g_split.nodes@[i].outgoing@
            && graph.nodes@[i].incoming@ == g_split.nodes@[i].incoming@ by {
            assert(g_ports.nodes@[i] == g_split.nodes@[i]);
            assert(g_split.nodes@[i].outgoing@ == g_split.nodes@[i].outgoing@);
        }
    }
    dummy_node_id
}

fn same_pool_and_lane(a: PoolAndLane, b: PoolAndLane) -> (r: bool)
    ensures
        r == (a == b),
{
    a.pool.0 == b.pool.0 && a.lane.0 == b.lane.0
}

} // verus!
