//! After the y coordinates are known: the ports of gateways towards their bend dummies, and the
//! bend points of vertical dummy edges.
use vstd::prelude::*;
use crate::graph::{has_in_port, has_out_port, in_pair, out_pair};
use crate::graph::{spec_is_dummy, spec_is_gateway, ports_fit, DummyEdgeBendPoints, Edge, EdgeType, Graph, Node};
use crate::ids::{EdgeId, NodeId, RelativePort};

verus! {

/// The other end of edge `e` as seen from node `n`.
pub open spec fn other_end(e: Edge, n: Node) -> NodeId {
    if e.from == n.id { e.to } else { e.from }
}

/// Port `p`, paired with the `k`-th incoming edge of gateway `n`, after the fixup: a vertical
/// edge whose other end lies above the gateway docks at the height of its top border, one that
/// lies below at the height of its bottom border, and one within the gateway's height moves to
/// the side `side_x` at the height of the other end.
pub open spec fn fixed_port(g: Graph, n: Node, p: RelativePort, k: int, side_x: usize) -> RelativePort {
    if k >= n.incoming@.len() {
        p
    } else {
        let e = g.edges@[n.incoming@[k].0 as int];
        let other = g.nodes@[other_end(e, n).0 as int];
        if !e.is_vertical {
            p
        } else if other.y < n.y {
            RelativePort { x: p.x, y: n.y }
        } else if other.y <= n.y + n.height {
            RelativePort { x: side_x, y: other.y }
        } else {
            RelativePort { x: p.x, y: (n.y + n.height) as usize }
        }
    }
}

pub open spec fn fixed_ports(g: Graph, n: Node, ports: Seq<RelativePort>, side_x: usize) -> Seq<RelativePort> {
    Seq::new(ports.len(), |k: int| fixed_port(g, n, ports[k], k, side_x))
}

/// What the fixup of the gateway ports needs: the incoming edges of gateways exist and run
/// between existing nodes, and the bottom of a gateway fits in `usize`.
pub open spec fn gateway_ports_ok(g: Graph) -> bool {
    forall|i: int| 0 <= i < g.nodes@.len() && spec_is_gateway((#[trigger] g.nodes@[i]).node_type) ==> {
        let n = g.nodes@[i];
        &&& n.y + n.height <= usize::MAX
        &&& forall|k: int| 0 <= k < n.incoming@.len() ==> {
            let e = #[trigger] n.incoming@[k];
            &&& e.0 < g.edges@.len()
            &&& g.edges@[e.0 as int].from.0 < g.nodes@.len()
            &&& g.edges@[e.0 as int].to.0 < g.nodes@.len()
        }
    }
}

fn fix_ports(g: &Graph, i: usize, ports: &Vec<RelativePort>, side_x: usize) -> (r: Vec<RelativePort>)
    requires
        i < g.nodes@.len(),
        spec_is_gateway(g.nodes@[i as int].node_type),
        gateway_ports_ok(*g),
    ensures
        r@ == fixed_ports(*g, g.nodes@[i as int], ports@, side_x),
{
    let n = &g.nodes[i];
    assert(n.y + n.height <= usize::MAX);
    let mut r: Vec<RelativePort> = Vec::new();
    let mut k: usize = 0;
    while k < ports.len()
        invariant
            k <= ports@.len(),
            n == &g.nodes@[i as int],
            n.y + n.height <= usize::MAX,
            gateway_ports_ok(*g),
            spec_is_gateway(n.node_type),
            i < g.nodes@.len(),
            r@.len() == k,
            forall|j: int| 0 <= j < k ==> #[trigger] r@[j] == fixed_port(*g, *n, ports@[j], j, side_x),
        decreases ports@.len() - k,
    {
        let p = ports[k];
        let q = if k >= n.incoming.len() {
            p
        } else {
            let e = &g.edges[n.incoming[k].0];
            let other_id = if e.from.0 == n.id.0 { e.to } else { e.from };
            let other_y = g.nodes[other_id.0].y;
            if !e.is_vertical {
                p
            } else if other_y < n.y {
                RelativePort { x: p.x, y: n.y }
            } else if other_y <= n.y + n.height {
                RelativePort { x: side_x, y: other_y }
            } else {
                RelativePort { x: p.x, y: n.y + n.height }
            }
        };
        r.push(q);
        k = k + 1;
    }
    assert(r@ =~= fixed_ports(*g, *n, ports@, side_x));
    r
}

/// Moves the ports of gateways towards their vertical edges as `fixed_port` says: both the
/// incoming and the outgoing ports, each paired by position with the incoming edges, the
/// outgoing ones moving to the right side. Every other node is left without ports.
pub fn fixup_gateway_ports(graph: &mut Graph)
    requires
        gateway_ports_ok(*old(graph)),
    ensures
        final(graph).nodes@.len() == old(graph).nodes@.len(),
        forall|i: int| 0 <= i < old(graph).nodes@.len() ==> {
            let (a, b) = (old(graph).nodes@[i], #[trigger] final(graph).nodes@[i]);
            &&& b == (Node { incoming_ports: b.incoming_ports, outgoing_ports: b.outgoing_ports, ..a })
            &&& b.incoming_ports@ == if spec_is_gateway(a.node_type) {
                fixed_ports(*old(graph), a, a.incoming_ports@, 0)
            } else {
                Seq::empty()
            }
            &&& b.outgoing_ports@ == if spec_is_gateway(a.node_type) {
                fixed_ports(*old(graph), a, a.outgoing_ports@, a.width)
            } else {
                Seq::empty()
            }
        },
        final(graph).edges == old(graph).edges,
        final(graph).pools == old(graph).pools,
        final(graph).data_elements == old(graph).data_elements,
        final(graph).config == old(graph).config,
        final(graph).num_layers == old(graph).num_layers,
        final(graph).pe_bpmd_definitions == old(graph).pe_bpmd_definitions,
{
    let ghost g0 = *graph;
    let mut i: usize = 0;
    while i < graph.nodes.len()
        invariant
            i <= graph.nodes@.len(),
            graph.nodes@.len() == g0.nodes@.len(),
            gateway_ports_ok(g0),
            graph.edges == g0.edges,
            graph.pools == g0.pools,
            graph.data_elements == g0.data_elements,
            graph.config == g0.config,
            graph.num_layers == g0.num_layers,
            graph.pe_bpmd_definitions == g0.pe_bpmd_definitions,
            forall|j: int| i <= j < g0.nodes@.len() ==> #[trigger] graph.nodes@[j] == g0.nodes@[j],
            forall|j: int| 0 <= j < i ==> {
                let (a, b) = (g0.nodes@[j], #[trigger] graph.nodes@[j]);
                &&& b == (Node { incoming_ports: b.incoming_ports, outgoing_ports: b.outgoing_ports, ..a })
                &&& b.incoming_ports@ == if spec_is_gateway(a.node_type) {
                    fixed_ports(g0, a, a.incoming_ports@, 0)
                } else {
                    Seq::empty()
                }
                &&& b.outgoing_ports@ == if spec_is_gateway(a.node_type) {
                    fixed_ports(g0, a, a.outgoing_ports@, a.width)
                } else {
                    Seq::empty()
                }
            },
        decreases g0.nodes@.len() - i,
    {
        assert(graph.nodes@[i as int] == g0.nodes@[i as int]);
        if graph.nodes[i].is_gateway() {
            let ghost gi = *graph;
            proof {
                assert forall|j: int| 0 <= j < gi.nodes@.len() && spec_is_gateway((#[trigger] gi.nodes@[j]).node_type) implies {
                    let n = gi.nodes@[j];
                    &&& n.y + n.height <= usize::MAX
                    &&& forall|k: int| 0 <= k < n.incoming@.len() ==> {
                        let e = #[trigger] n.incoming@[k];
                        &&& e.0 < gi.edges@.len()
                        &&& gi.edges@[e.0 as int].from.0 < gi.nodes@.len()
                        &&& gi.edges@[e.0 as int].to.0 < gi.nodes@.len()
                    }
                } by {
                    assert(gi.nodes@[j] == g0.nodes@[j] || j < i);
                    assert(g0.nodes@[j].incoming == gi.nodes@[j].incoming && g0.nodes@[j].y == gi.nodes@[j].y
                        && g0.nodes@[j].height == gi.nodes@[j].height && g0.nodes@[j].node_type == gi.nodes@[j].node_type);
                }
                assert forall|k: int| 0 <= k < gi.nodes@[i as int].incoming@.len() implies
                    fixed_port(gi, gi.nodes@[i as int], #[trigger] gi.nodes@[i as int].incoming_ports@[k], k, 0)
                        == fixed_port(g0, g0.nodes@[i as int], g0.nodes@[i as int].incoming_ports@[k], k, 0) by {
                    let e = gi.edges@[gi.nodes@[i as int].incoming@[k].0 as int];
                    let o = other_end(e, gi.nodes@[i as int]).0 as int;
                    assert(gi.nodes@[o].y == g0.nodes@[o].y);
                }
            }
            let inc = fix_ports(graph, i, &graph.nodes[i].incoming_ports, 0);
            let w = graph.nodes[i].width;
            let out = fix_ports(graph, i, &graph.nodes[i].outgoing_ports, w);
            proof {
                let a = g0.nodes@[i as int];
                assert forall|k: int| 0 <= k < a.incoming_ports@.len() implies
                    #[trigger] fixed_ports(gi, gi.nodes@[i as int], a.incoming_ports@, 0)[k] == fixed_ports(g0, a, a.incoming_ports@, 0)[k] by {
                    if k < a.incoming@.len() {
                        let e = g0.edges@[a.incoming@[k].0 as int];
                        let o = other_end(e, a).0 as int;
                        assert(gi.nodes@[o].y == g0.nodes@[o].y);
                    }
                }
                assert forall|k: int| 0 <= k < a.outgoing_ports@.len() implies
                    #[trigger] fixed_ports(gi, gi.nodes@[i as int], a.outgoing_ports@, a.width)[k] == fixed_ports(g0, a, a.outgoing_ports@, a.width)[k] by {
                    if k < a.incoming@.len() {
                        let e = g0.edges@[a.incoming@[k].0 as int];
                        let o = other_end(e, a).0 as int;
                        assert(gi.nodes@[o].y == g0.nodes@[o].y);
                    }
                }
                assert(fixed_ports(gi, gi.nodes@[i as int], a.incoming_ports@, 0) =~= fixed_ports(g0, a, a.incoming_ports@, 0));
                assert(fixed_ports(gi, gi.nodes@[i as int], a.outgoing_ports@, a.width) =~= fixed_ports(g0, a, a.outgoing_ports@, a.width));
            }
            graph.nodes[i].incoming_ports = inc;
            graph.nodes[i].outgoing_ports = out;
        } else {
            graph.nodes[i].incoming_ports = Vec::new();
            graph.nodes[i].outgoing_ports = Vec::new();
        }
        i = i + 1;
    }
}

/// The bend points that vertical dummy edge `j` gets, or `None` for any other edge: collapsed when
/// the port of either end lies within the height of the other end's node, otherwise a bend at the
/// position of the end that is a dummy node.
pub open spec fn vertical_bend_points(g: Graph, j: int) -> Option<DummyEdgeBendPoints> {
    let e = g.edges@[j];
    let from = g.nodes@[e.from.0 as int];
    let to = g.nodes@[e.to.0 as int];
    if !e.is_vertical || !(e.edge_type is DummyEdge) {
        None
    } else if (from.y <= in_pair(to, EdgeId(j as usize)).1 <= from.y + from.height)
        || (to.y <= out_pair(from, EdgeId(j as usize)).1 <= to.y + to.height) {
        Some(DummyEdgeBendPoints::VerticalCollapsed)
    } else if spec_is_dummy(from.node_type) {
        Some(DummyEdgeBendPoints::VerticalBendDummy((from.x, from.y)))
    } else {
        Some(DummyEdgeBendPoints::VerticalBendDummy((to.x, to.y)))
    }
}

/// What the bend points of vertical dummy edges need: both ends exist, fit in `usize` and have a
/// port of the edge, and an edge that does not collapse has exactly one dummy end.
pub open spec fn vertical_edges_ok(g: Graph) -> bool {
    forall|j: int| 0 <= j < g.edges@.len() && (#[trigger] g.edges@[j]).is_vertical && g.edges@[j].edge_type is DummyEdge ==> {
        let e = g.edges@[j];
        let from = g.nodes@[e.from.0 as int];
        let to = g.nodes@[e.to.0 as int];
        &&& e.from.0 < g.nodes@.len() && e.to.0 < g.nodes@.len()
        &&& from.y + from.height <= usize::MAX && to.y + to.height <= usize::MAX
        &&& ports_fit(from.outgoing_ports@, from.x, from.y) && ports_fit(to.incoming_ports@, to.x, to.y)
        &&& has_out_port(from, EdgeId(j as usize)) && has_in_port(to, EdgeId(j as usize))
        &&& vertical_bend_points(g, j) != Some(DummyEdgeBendPoints::VerticalCollapsed)
            ==> spec_is_dummy(from.node_type) != spec_is_dummy(to.node_type)
    }
}

/// Edge `e1` is `e0` with the bend points of vertical dummy edges as `vertical_bend_points` says.
pub open spec fn edge_after_postprocess(g: Graph, j: int, e1: Edge) -> bool {
    let e0 = g.edges@[j];
    match vertical_bend_points(g, j) {
        Some(bp) => e1 == (Edge {
            edge_type: EdgeType::DummyEdge { original_edge: e0.edge_type->DummyEdge_original_edge, bend_points: bp },
            ..e0
        }),
        None => e1 == e0,
    }
}

fn new_vertical_bend_points(g: &Graph, j: usize) -> (r: Option<DummyEdgeBendPoints>)
    requires
        j < g.edges@.len(),
        vertical_edges_ok(*g),
    ensures
        r == vertical_bend_points(*g, j as int),
{
    let e = &g.edges[j];
    if !e.is_vertical || !e.is_dummy() {
        return None;
    }
    let from = &g.nodes[e.from.0];
    let to = &g.nodes[e.to.0];
    let from_port = from.port_of_outgoing(EdgeId(j)).unwrap();
    let to_port = to.port_of_incoming(EdgeId(j)).unwrap();
    if (from.y <= to_port.y && to_port.y <= from.y + from.height) || (to.y <= from_port.y && from_port.y <= to.y + to.height) {
        Some(DummyEdgeBendPoints::VerticalCollapsed)
    } else if from.is_dummy() {
        Some(DummyEdgeBendPoints::VerticalBendDummy((from.x, from.y)))
    } else {
        Some(DummyEdgeBendPoints::VerticalBendDummy((to.x, to.y)))
    }
}

/// Gives every vertical dummy edge its bend points as `vertical_bend_points` says.
pub fn postprocess_vertical_edges(graph: &mut Graph)
    requires
        vertical_edges_ok(*old(graph)),
    ensures
        final(graph).edges@.len() == old(graph).edges@.len(),
        forall|j: int| 0 <= j < old(graph).edges@.len() ==> edge_after_postprocess(*old(graph), j, #[trigger] final(graph).edges@[j]),
        final(graph).nodes == old(graph).nodes,
        final(graph).pools == old(graph).pools,
        final(graph).data_elements == old(graph).data_elements,
        final(graph).config == old(graph).config,
        final(graph).num_layers == old(graph).num_layers,
        final(graph).pe_bpmd_definitions == old(graph).pe_bpmd_definitions,
{
    let ghost g0 = *graph;
    let mut j: usize = 0;
    while j < graph.edges.len()
        invariant
            j <= graph.edges@.len(),
            graph.edges@.len() == g0.edges@.len(),
            vertical_edges_ok(g0),
            graph.nodes == g0.nodes,
            graph.pools == g0.pools,
            graph.data_elements == g0.data_elements,
            graph.config == g0.config,
            graph.num_layers == g0.num_layers,
            graph.pe_bpmd_definitions == g0.pe_bpmd_definitions,
            forall|k: int| j <= k < g0.edges@.len() ==> #[trigger] graph.edges@[k] == g0.edges@[k],
            forall|k: int| 0 <= k < j ==> edge_after_postprocess(g0, k, #[trigger] graph.edges@[k]),
        decreases g0.edges@.len() - j,
    {
        let ghost gj = *graph;
        proof {
            assert forall|k: int| 0 <= k < gj.edges@.len() && (#[trigger] gj.edges@[k]).is_vertical && gj.edges@[k].edge_type is DummyEdge
                implies {
                let e = gj.edges@[k];
                let from = gj.nodes@[e.from.0 as int];
                let to = gj.nodes@[e.to.0 as int];
                &&& e.from.0 < gj.nodes@.len() && e.to.0 < gj.nodes@.len()
                &&& from.y + from.height <= usize::MAX && to.y + to.height <= usize::MAX
                &&& ports_fit(from.outgoing_ports@, from.x, from.y) && ports_fit(to.incoming_ports@, to.x, to.y)
                &&& has_out_port(from, EdgeId(k as usize)) && has_in_port(to, EdgeId(k as usize))
                &&& vertical_bend_points(gj, k) != Some(DummyEdgeBendPoints::VerticalCollapsed)
                    ==> spec_is_dummy(from.node_type) != spec_is_dummy(to.node_type)
            } by {
                if k < j {
                    assert(edge_after_postprocess(g0, k, gj.edges@[k]));
                    assert(g0.edges@[k].is_vertical && g0.edges@[k].edge_type is DummyEdge);
                } else {
                    assert(gj.edges@[k] == g0.edges@[k]);
                }
            }
            assert(gj.edges@[j as int] == g0.edges@[j as int]);
        }
        let bp = new_vertical_bend_points(graph, j);
        match bp {
            Some(bp) => {
                let original_edge = match &graph.edges[j].edge_type {
                    EdgeType::DummyEdge { original_edge, .. } => *original_edge,
                    _ => EdgeId(0),
                };
                graph.edges[j].edge_type = EdgeType::DummyEdge { original_edge, bend_points: bp };
            },
            None => {},
        }
        j = j + 1;
    }
}

} // verus!
