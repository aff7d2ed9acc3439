//! Boundary events sit on the border of the node they are attached to, centred on the start of
//! the edge that leaves them; the edge then starts at the border of the event.
use vstd::prelude::*;
use crate::bpmn_node::BoundaryEvent;
use crate::graph::{spec_port_is_left_or_right, Edge, EdgeType, Graph, Node, RegularEdgeBendPoints, EVENT_NODE_HEIGHT, EVENT_NODE_WIDTH};

verus! {

/// The edge leaves a boundary event and is fully routed.
pub open spec fn leaves_boundary_event(e: Edge) -> bool {
    &&& e.attached_to_boundary_event is Some
    &&& e.edge_type matches EdgeType::Regular { bend_points: RegularEdgeBendPoints::FullyRouted(_), .. }
}

pub open spec fn route_of(e: Edge) -> Seq<(usize, usize)> {
    e.edge_type->Regular_bend_points->FullyRouted_0@
}

/// The boundary event centred on the first bend point.
pub open spec fn placed_event(be: BoundaryEvent, start: (usize, usize)) -> BoundaryEvent {
    BoundaryEvent { x: (start.0 - EVENT_NODE_WIDTH / 2) as usize, y: (start.1 - EVENT_NODE_HEIGHT / 2) as usize, ..be }
}

/// The first bend point moved from the centre of the event to its border: to the right when the
/// edge leaves the node `from` on a side, up when it leaves at the top, down otherwise.
pub open spec fn shifted_start(from: Node, start: (usize, usize)) -> (usize, usize) {
    if spec_port_is_left_or_right(from, start.1) {
        ((start.0 + EVENT_NODE_WIDTH / 2) as usize, start.1)
    } else if start.1 <= from.y {
        (start.0, (start.1 - EVENT_NODE_HEIGHT / 2) as usize)
    } else {
        (start.0, (start.1 + EVENT_NODE_HEIGHT / 2) as usize)
    }
}

/// What placing the boundary events needs: each edge that leaves one starts at an existing node,
/// has a first bend point, and the arithmetic stays within `usize`.
pub open spec fn boundary_events_ok(g: Graph) -> bool {
    forall|j: int| 0 <= j < g.edges@.len() && leaves_boundary_event(#[trigger] g.edges@[j]) ==> {
        let e = g.edges@[j];
        let pts = route_of(e);
        &&& e.from.0 < g.nodes@.len()
        &&& pts.len() > 0
        &&& pts[0].0 >= EVENT_NODE_WIDTH / 2
        &&& pts[0].1 >= EVENT_NODE_HEIGHT / 2
        &&& pts[0].0 + EVENT_NODE_WIDTH / 2 <= usize::MAX
        &&& pts[0].1 + EVENT_NODE_HEIGHT / 2 <= usize::MAX
    }
}

/// Edge `e1` is `e0` after placing its boundary event.
pub open spec fn edge_with_placed_event(g: Graph, e0: Edge, e1: Edge) -> bool {
    if leaves_boundary_event(e0) {
        let start = route_of(e0)[0];
        &&& e1 == (Edge {
            edge_type: e1.edge_type,
            attached_to_boundary_event: Some(placed_event(e0.attached_to_boundary_event->0, start)),
            ..e0
        })
        &&& e1.edge_type matches EdgeType::Regular { text, bend_points: RegularEdgeBendPoints::FullyRouted(_) }
            && text == e0.edge_type->Regular_text
        &&& route_of(e1) == route_of(e0).update(0, shifted_start(g.nodes@[e0.from.0 as int], start))
    } else {
        e1 == e0
    }
}

/// Places every boundary event on the start of the edge that leaves it and moves that start to
/// the event's border.
pub fn fix_boundary_event_connections(graph: &mut Graph)
    requires
        boundary_events_ok(*old(graph)),
    ensures
        final(graph).edges@.len() == old(graph).edges@.len(),
        forall|j: int| 0 <= j < old(graph).edges@.len()
            ==> edge_with_placed_event(*old(graph), old(graph).edges@[j], #[trigger] final(graph).edges@[j]),
        final(graph).nodes == old(graph).nodes,
        final(graph).pools == old(graph).pools,
        final(graph).data_elements == old(graph).data_elements,
        final(graph).config == old(graph).config,
        final(graph).num_layers == old(graph).num_layers,
        final(graph).pe_bpmd_definitions == old(graph).pe_bpmd_definitions,
{
    let ghost g0 = *graph;
    let mut j: usize = 0;
    while j < graph.edges.len()
        invariant
            j <= graph.edges@.len(),
            graph.edges@.len() == g0.edges@.len(),
            boundary_events_ok(g0),
            graph.nodes == g0.nodes,
            graph.pools == g0.pools,
            graph.data_elements == g0.data_elements,
            graph.config == g0.config,
            graph.num_layers == g0.num_layers,
            graph.pe_bpmd_definitions == g0.pe_bpmd_definitions,
            forall|k: int| j <= k < g0.edges@.len() ==> #[trigger] graph.edges@[k] == g0.edges@[k],
            forall|k: int| 0 <= k < j ==> edge_with_placed_event(g0, g0.edges@[k], #[trigger] graph.edges@[k]),
        decreases g0.edges@.len() - j,
    {
        assert(graph.edges@[j as int] == g0.edges@[j as int]);
        let be = graph.edges[j].attached_to_boundary_event;
        let from = graph.edges[j].from;
        let start = match &graph.edges[j].edge_type {
            EdgeType::Regular { bend_points: RegularEdgeBendPoints::FullyRouted(v), .. } => {
                if be.is_some() { Some(v[0]) } else { None }
            },
            _ => None,
        };
        if let (Some(be), Some((sx, sy))) = (be, start) {
            let from_node = &graph.nodes[from.0];
            let moved = if from_node.port_is_left_or_right(sy) {
                (sx + EVENT_NODE_WIDTH / 2, sy)
            } else if sy <= from_node.y {
                (sx, sy - EVENT_NODE_HEIGHT / 2)
            } else {
                (sx, sy + EVENT_NODE_HEIGHT / 2)
            };
            graph.edges[j].attached_to_boundary_event = Some(BoundaryEvent {
                x: sx - EVENT_NODE_WIDTH / 2,
                y: sy - EVENT_NODE_HEIGHT / 2,
                ..be
            });
            match &mut graph.edges[j].edge_type {
                EdgeType::Regular { bend_points: RegularEdgeBendPoints::FullyRouted(v), .. } => {
                    v.set(0, moved);
                },
                _ => {},
            }
        }
        j = j + 1;
    }
}

} // verus!
