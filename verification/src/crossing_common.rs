//! Helpers of crossing minimisation: shifting every node one layer to the right (so that there is
//! room left of the first layer) and back, and rerouting an edge that stays within one layer
//! through an intermediate node in a neighbouring layer.
use vstd::prelude::*;
use crate::bend_dummy::{copy_flow, same_flow};
use crate::graph::{first_index_of, DummyEdgeBendPoints, Edge, EdgeType, Graph, Node};
use crate::ids::{EdgeId, LayerId, NodeId};

verus! {

/// What is needed to undo the preparation: the number of nodes before it, and the edges it
/// rerouted with their original values and whether the intermediate node went to the left.
pub struct Undo {
    pub original_num_nodes: usize,
    pub original_edges: Vec<(EdgeId, Edge, bool)>,
}

/// `b` is `a` moved by `d` layers.
pub open spec fn shifted(a: Node, b: Node, d: int) -> bool {
    b == (Node { layer_id: LayerId((a.layer_id.0 + d) as usize), ..a })
}

/// Prepares crossing minimisation: every node moves one layer to the right. (Rerouting edges
/// within one layer through dummy nodes is not done at the moment.)
pub fn temporarily_add_dummy_nodes_for_edges_within_same_layer(graph: &mut Graph) -> (r: Undo)
    requires
        forall|i: int| 0 <= i < old(graph).nodes@.len() ==> (#[trigger] old(graph).nodes@[i]).layer_id.0 < usize::MAX,
    ensures
        r.original_num_nodes == old(graph).nodes@.len(),
        r.original_edges@.len() == 0,
        final(graph).nodes@.len() == old(graph).nodes@.len(),
        forall|i: int| 0 <= i < old(graph).nodes@.len() ==> shifted(old(graph).nodes@[i], #[trigger] final(graph).nodes@[i], 1),
        final(graph).edges == old(graph).edges,
        final(graph).pools == old(graph).pools,
        final(graph).data_elements == old(graph).data_elements,
        final(graph).config == old(graph).config,
        final(graph).num_layers == old(graph).num_layers,
        final(graph).pe_bpmd_definitions == old(graph).pe_bpmd_definitions,
{
    let undo = Undo { original_num_nodes: graph.nodes.len(), original_edges: Vec::new() };
    shift_layers(graph, true);
    undo
}

/// Undoes the preparation: every node moves one layer back to the left.
pub fn remove_temporarily_added_dummy_nodes_for_edges_within_same_layer(graph: &mut Graph, undo: Undo)
    requires
        forall|i: int| 0 <= i < old(graph).nodes@.len() ==> (#[trigger] old(graph).nodes@[i]).layer_id.0 >= 1,
    ensures
        final(graph).nodes@.len() == old(graph).nodes@.len(),
        forall|i: int| 0 <= i < old(graph).nodes@.len() ==> shifted(old(graph).nodes@[i], #[trigger] final(graph).nodes@[i], -1),
        final(graph).edges == old(graph).edges,
        final(graph).pools == old(graph).pools,
        final(graph).data_elements == old(graph).data_elements,
        final(graph).config == old(graph).config,
        final(graph).num_layers == old(graph).num_layers,
        final(graph).pe_bpmd_definitions == old(graph).pe_bpmd_definitions,
{
    shift_layers(graph, false);
}

fn shift_layers(graph: &mut Graph, right: bool)
    requires
        forall|i: int| 0 <= i < old(graph).nodes@.len() ==>
            if right { (#[trigger] old(graph).nodes@[i]).layer_id.0 < usize::MAX } else { old(graph).nodes@[i].layer_id.0 >= 1 },
    ensures
        final(graph).nodes@.len() == old(graph).nodes@.len(),
        forall|i: int| 0 <= i < old(graph).nodes@.len() ==> shifted(old(graph).nodes@[i], #[trigger] final(graph).nodes@[i], if right { 1 } else { -1 }),
        final(graph).edges == old(graph).edges,
        final(graph).pools == old(graph).pools,
        final(graph).data_elements == old(graph).data_elements,
        final(graph).config == old(graph).config,
        final(graph).num_layers == old(graph).num_layers,
        final(graph).pe_bpmd_definitions == old(graph).pe_bpmd_definitions,
{
    let ghost g0 = *graph;
    let mut i: usize = 0;
    while i < graph.nodes.len()
        invariant
            i <= graph.nodes@.len(),
            graph.nodes@.len() == g0.nodes@.len(),
            forall|j: int| 0 <= j < g0.nodes@.len() ==>
                if right { (#[trigger] g0.nodes@[j]).layer_id.0 < usize::MAX } else { g0.nodes@[j].layer_id.0 >= 1 },
            forall|j: int| i <= j < g0.nodes@.len() ==> #[trigger] graph.nodes@[j] == g0.nodes@[j],
            forall|j: int| 0 <= j < i ==> shifted(g0.nodes@[j], #[trigger] graph.nodes@[j], if right { 1 } else { -1 }),
            graph.edges == g0.edges,
            graph.pools == g0.pools,
            graph.data_elements == g0.data_elements,
            graph.config == g0.config,
            graph.num_layers == g0.num_layers,
            graph.pe_bpmd_definitions == g0.pe_bpmd_definitions,
        decreases g0.nodes@.len() - i,
    {
        assert(graph.nodes@[i as int] == g0.nodes@[i as int]);
        let l = graph.nodes[i].layer_id.0;
        graph.nodes[i].layer_id = LayerId(if right { l + 1 } else { l - 1 });
        i = i + 1;
    }
}

/// Moving every node one layer right and then one layer back leaves the nodes as they were.
pub proof fn lemma_shift_back_undoes_shift(n0: Seq<Node>, n1: Seq<Node>, n2: Seq<Node>)
    requires
        n1.len() == n0.len(),
        n2.len() == n1.len(),
        forall|i: int| 0 <= i < n0.len() ==> (#[trigger] n0[i]).layer_id.0 < usize::MAX,
        forall|i: int| 0 <= i < n0.len() ==> shifted(n0[i], #[trigger] n1[i], 1),
        forall|i: int| 0 <= i < n1.len() ==> shifted(n1[i], #[trigger] n2[i], -1),
    ensures
        n2 == n0,
{
    assert forall|i: int| 0 <= i < n0.len() implies #[trigger] n2[i] == n0[i] by {
        assert(shifted(n0[i], n1[i], 1));
        assert(shifted(n1[i], n2[i], -1));
    }
    assert(n2 =~= n0);
}

/// The new dummy edge of a rerouting: from `from` to `to`, standing for edge `original`.
pub open spec fn is_reroute_edge(e: Edge, from: NodeId, to: NodeId, original: EdgeId, flow: Edge) -> bool {
    &&& e.from == from && e.to == to
    &&& e.edge_type == (EdgeType::DummyEdge { original_edge: original, bend_points: DummyEdgeBendPoints::ToBeDeterminedOrStraight })
    &&& same_flow(e.flow_type, flow.flow_type)
    &&& !e.is_reversed && e.stays_within_lane && e.stroke_color is None && !e.is_vertical
    &&& e.attached_to_boundary_event is None
}

/// `s` without the first occurrence of `e`.
pub open spec fn without_first(s: Seq<EdgeId>, e: EdgeId) -> Seq<EdgeId> {
    s.remove(first_index_of(s, e)->0)
}

/// What rerouting edge `e` needs: the edge and the intermediate node exist, and the end of the
/// edge that gets a new edge has the edge in its list.
pub open spec fn reroute_ok(g: Graph, e: EdgeId, left: Option<NodeId>, right: Option<NodeId>) -> bool {
    let edge = g.edges@[e.0 as int];
    &&& e.0 < g.edges@.len()
    &&& edge.from.0 < g.nodes@.len() && edge.to.0 < g.nodes@.len()
    &&& g.edges@.len() < usize::MAX
    &&& match (right, left) {
        (Some(r), _) => r.0 < g.nodes@.len() && first_index_of(g.nodes@[edge.to.0 as int].incoming@, e) is Some,
        (None, Some(l)) => l.0 < g.nodes@.len() && first_index_of(g.nodes@[edge.from.0 as int].outgoing@, e) is Some,
        (None, None) => true,
    }
}

/// Reroutes edge `e`, which stays within one layer, through an intermediate node: with a right
/// one `r`, the edge now ends at `r` and a new dummy edge runs from its old target to `r`; else,
/// with a left one `l`, the edge now starts at `l` and a new dummy edge runs from `l` to its old
/// source. The old end of the edge exchanges it for the new edge, which then leaves it (right)
/// or enters it (left); the intermediate node gets both edges.
pub fn reroute_vertical_edge(graph: &mut Graph, e: EdgeId, left: Option<NodeId>, right: Option<NodeId>)
    requires
        reroute_ok(*old(graph), e, left, right),
    ensures
        ({
            let g = *old(graph);
            let edge = g.edges@[e.0 as int];
            let (f, t) = (edge.from, edge.to);
            let m = EdgeId(g.edges@.len() as usize);
            match (right, left) {
                (Some(r), _) => {
                    &&& final(graph).edges@.len() == g.edges@.len() + 1
                    &&& forall|j: int| 0 <= j < g.edges@.len() && j != e.0 ==> #[trigger] final(graph).edges@[j] == g.edges@[j]
                    &&& final(graph).edges@[e.0 as int] == (Edge { to: r, ..edge })
                    &&& is_reroute_edge(final(graph).edges@[m.0 as int], t, r, e, edge)
                    &&& final(graph).nodes@.len() == g.nodes@.len()
                    &&& forall|i: int| 0 <= i < g.nodes@.len() ==> {
                        let (a, b) = (g.nodes@[i], #[trigger] final(graph).nodes@[i]);
                        let inc = if i == t.0 { without_first(a.incoming@, e) } else { a.incoming@ };
                        &&& b == (Node { incoming: b.incoming, outgoing: b.outgoing, ..a })
                        &&& b.incoming@ == if i == r.0 { inc.push(e).push(m) } else { inc }
                        &&& b.outgoing@ == if i == t.0 { a.outgoing@.push(m) } else { a.outgoing@ }
                    }
                },
                (None, Some(l)) => {
                    &&& final(graph).edges@.len() == g.edges@.len() + 1
                    &&& forall|j: int| 0 <= j < g.edges@.len() && j != e.0 ==> #[trigger] final(graph).edges@[j] == g.edges@[j]
                    &&& final(graph).edges@[e.0 as int] == (Edge { from: l, ..edge })
                    &&& is_reroute_edge(final(graph).edges@[m.0 as int], l, f, e, edge)
                    &&& final(graph).nodes@.len() == g.nodes@.len()
                    &&& forall|i: int| 0 <= i < g.nodes@.len() ==> {
                        let (a, b) = (g.nodes@[i], #[trigger] final(graph).nodes@[i]);
                        let out = if i == f.0 { without_first(a.outgoing@, e) } else { a.outgoing@ };
                        &&& b == (Node { incoming: b.incoming, outgoing: b.outgoing, ..a })
                        &&& b.outgoing@ == if i == l.0 { out.push(e).push(m) } else { out }
                        &&& b.incoming@ == if i == f.0 { a.incoming@.push(m) } else { a.incoming@ }
                    }
                },
                (None, None) => final(graph).edges == g.edges && final(graph).nodes == g.nodes,
            }
        }),
        final(graph).pools == old(graph).pools,
        final(graph).data_elements == old(graph).data_elements,
        final(graph).config == old(graph).config,
        final(graph).num_layers == old(graph).num_layers,
        final(graph).pe_bpmd_definitions == old(graph).pe_bpmd_definitions,
{
    let ghost g = *graph;
    let from_node_id = graph.edges[e.0].from;
    let to_node_id = graph.edges[e.0].to;
    let flow_type = copy_flow(&graph.edges[e.0].flow_type);
    if let Some(r) = right {
        graph.edges[e.0].to = r;
        let second = EdgeId(graph.edges.len());
        graph.edges.push(Edge {
            from: to_node_id,
            to: r,
            edge_type: EdgeType::DummyEdge { original_edge: e, bend_points: DummyEdgeBendPoints::ToBeDeterminedOrStraight },
            flow_type,
            is_reversed: false,
            stays_within_lane: true,
            stroke_color: None,
            is_vertical: false,
            attached_to_boundary_event: None,
        });
        let i = position_of(&graph.nodes[to_node_id.0].incoming, e);
        graph.nodes[to_node_id.0].incoming.remove(i);
        graph.nodes[to_node_id.0].outgoing.push(second);
        graph.nodes[r.0].incoming.push(e);
        graph.nodes[r.0].incoming.push(second);
        proof {
            let n1 = graph.nodes@;
            assert forall|i: int| 0 <= i < g.nodes@.len() implies {
                let (a, b) = (g.nodes@[i], #[trigger] n1[i]);
                let inc = if i == to_node_id.0 { without_first(a.incoming@, e) } else { a.incoming@ };
                &&& b == (Node { incoming: b.incoming, outgoing: b.outgoing, ..a })
                &&& b.incoming@ == if i == r.0 { inc.push(e).push(second) } else { inc }
                &&& b.outgoing@ == if i == to_node_id.0 { a.outgoing@.push(second) } else { a.outgoing@ }
            } by {
            }
        }
    } else if let Some(l) = left {
        graph.edges[e.0].from = l;
        let second = EdgeId(graph.edges.len());
        graph.edges.push(Edge {
            from: l,
            to: from_node_id,
            edge_type: EdgeType::DummyEdge { original_edge: e, bend_points: DummyEdgeBendPoints::ToBeDeterminedOrStraight },
            flow_type,
            is_reversed: false,
            stays_within_lane: true,
            stroke_color: None,
            is_vertical: false,
            attached_to_boundary_event: None,
        });
        let i = position_of(&graph.nodes[from_node_id.0].outgoing, e);
        graph.nodes[from_node_id.0].outgoing.remove(i);
        graph.nodes[from_node_id.0].incoming.push(second);
        graph.nodes[l.0].outgoing.push(e);
        graph.nodes[l.0].outgoing.push(second);
    }
}

/// The first position of `e` in `v`, which holds it.
fn position_of(v: &Vec<EdgeId>, e: EdgeId) -> (r: usize)
    requires
        first_index_of(v@, e) is Some,
    ensures
        r == first_index_of(v@, e)->0,
        r < v@.len(),
{
    let mut k: usize = 0;
    while k < v.len() && v[k].0 != e.0
        invariant
            k <= v@.len(),
            first_index_of(v@, e) is Some,
            forall|j: int| 0 <= j < k ==> v@[j] != e,
        decreases v@.len() - k,
    {
        k = k + 1;
    }
    proof {
        let i = first_index_of(v@, e)->0;
        assert(v@[i] == e);
        if k == v@.len() {
            assert(false);
        }
        assert(v@[k as int] == e);
        if i < k {
            assert(v@[i] != e);
        } else if i > k {
            assert(forall|j: int| 0 <= j < i ==> v@[j] != e);
        }
    }
    k
}

} // verus!
