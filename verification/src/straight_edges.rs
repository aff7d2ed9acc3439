//! Sequence flows whose two ports lie at the same height, or that were found to run vertically,
//! are drawn as a straight line between their ports.
use vstd::prelude::*;
use crate::graph::{has_in_port, has_out_port, in_pair, out_pair, ports_fit, Edge, EdgeType, Graph, RegularEdgeBendPoints};
use crate::ids::EdgeId;

verus! {

/// The straight route of edge `j` (in the direction of the arrow), or `None` when it is no regular
/// sequence flow or its ports lie at different heights without it running vertically.
pub open spec fn straight_route(g: Graph, j: int) -> Option<Seq<(usize, usize)>> {
    let e = g.edges@[j];
    let s = out_pair(g.nodes@[e.from.0 as int], EdgeId(j as usize));
    let t = in_pair(g.nodes@[e.to.0 as int], EdgeId(j as usize));
    if !(e.flow_type is SequenceFlow) || !(e.edge_type is Regular) {
        None
    } else if s.1 != t.1 && !e.is_vertical {
        None
    } else {
        Some(if e.is_reversed { seq![t, s] } else { seq![s, t] })
    }
}

/// What the straight routes need: every regular sequence flow runs between existing nodes that
/// have a port for it, and those ports fit in `usize`.
pub open spec fn straight_routes_ok(g: Graph) -> bool {
    forall|j: int| 0 <= j < g.edges@.len() && (#[trigger] g.edges@[j]).flow_type is SequenceFlow
        && g.edges@[j].edge_type is Regular ==> {
        let e = g.edges@[j];
        let from = g.nodes@[e.from.0 as int];
        let to = g.nodes@[e.to.0 as int];
        &&& e.from.0 < g.nodes@.len() && e.to.0 < g.nodes@.len()
        &&& ports_fit(from.outgoing_ports@, from.x, from.y) && ports_fit(to.incoming_ports@, to.x, to.y)
        &&& has_out_port(from, EdgeId(j as usize)) && has_in_port(to, EdgeId(j as usize))
    }
}

/// Edge `e1` is edge `j` of `g` after the straight routes are drawn.
pub open spec fn edge_after_straight_routing(g: Graph, j: int, e1: Edge) -> bool {
    let e0 = g.edges@[j];
    match straight_route(g, j) {
        Some(p) => {
            &&& e1 == (Edge { edge_type: e1.edge_type, ..e0 })
            &&& e1.edge_type matches EdgeType::Regular { text, bend_points: RegularEdgeBendPoints::FullyRouted(v) }
                && text == e0.edge_type->Regular_text && v@ == p
        },
        None => e1 == e0,
    }
}

/// Draws every straight regular sequence flow as the line between its two ports.
pub fn sequence_edge_routing(graph: &mut Graph)
    requires
        straight_routes_ok(*old(graph)),
    ensures
        final(graph).edges@.len() == old(graph).edges@.len(),
        forall|j: int| 0 <= j < old(graph).edges@.len() ==> edge_after_straight_routing(*old(graph), j, #[trigger] final(graph).edges@[j]),
        final(graph).nodes == old(graph).nodes,
        final(graph).pools == old(graph).pools,
        final(graph).data_elements == old(graph).data_elements,
        final(graph).config == old(graph).config,
        final(graph).num_layers == old(graph).num_layers,
        final(graph).pe_bpmd_definitions == old(graph).pe_bpmd_definitions,
{
    let ghost g0 = *graph;
    let mut j: usize = 0;
    while j < graph.edges.len()
        invariant
            j <= graph.edges@.len(),
            graph.edges@.len() == g0.edges@.len(),
            straight_routes_ok(g0),
            graph.nodes == g0.nodes,
            graph.pools == g0.pools,
            graph.data_elements == g0.data_elements,
            graph.config == g0.config,
            graph.num_layers == g0.num_layers,
            graph.pe_bpmd_definitions == g0.pe_bpmd_definitions,
            forall|k: int| j <= k < g0.edges@.len() ==> #[trigger] graph.edges@[k] == g0.edges@[k],
            forall|k: int| 0 <= k < j ==> edge_after_straight_routing(g0, k, #[trigger] graph.edges@[k]),
        decreases g0.edges@.len() - j,
    {
        assert(graph.edges@[j as int] == g0.edges@[j as int]);
        let e = &graph.edges[j];
        if e.is_sequence_flow() && e.is_regular() {
            let ports = graph.start_and_end_ports(EdgeId(j));
            let (start, end) = (ports[0], ports[1]);
            let e = &graph.edges[j];
            if start.1 == end.1 || e.is_vertical {
                let points = if e.is_reversed { vec![end, start] } else { vec![start, end] };
                let text = match &e.edge_type {
                    EdgeType::Regular { text, .. } => text.clone(),
                    _ => None,
                };
                graph.edges[j].edge_type = EdgeType::Regular { text, bend_points: RegularEdgeBendPoints::FullyRouted(points) };
            }
        }
        j = j + 1;
    }
}

} // verus!
