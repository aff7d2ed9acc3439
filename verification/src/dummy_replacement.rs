//! The last phase: every edge gets its full list of bend points, and the dummy nodes and dummy
//! edges that the layout phases added are removed again.
use vstd::prelude::*;
use crate::graph::{
    has_in_port, has_out_port, in_pair, out_pair, spec_is_dummy, spec_port_of, ports_fit, DummyEdgeBendPoints, Edge, EdgeType, Graph, Lane, Node, Pool,
    RegularEdgeBendPoints,
};
use crate::ids::{EdgeId, NodeId, XY};

verus! {

/// The points in the direction of the original arrow.
pub open spec fn oriented(points: Seq<(usize, usize)>, reversed: bool) -> Seq<(usize, usize)> {
    if reversed { points.reverse() } else { points }
}

/// `s` without consecutive repetitions.
pub open spec fn dedup(s: Seq<(usize, usize)>) -> Seq<(usize, usize)>
    decreases s.len(),
{
    if s.len() == 0 {
        s
    } else {
        let d = dedup(s.drop_last());
        if d.len() > 0 && d.last() == s.last() { d } else { d.push(s.last()) }
    }
}

/// The bend points that a dummy edge contributes.
pub open spec fn dummy_points(bp: DummyEdgeBendPoints) -> Seq<(usize, usize)> {
    match bp {
        DummyEdgeBendPoints::ToBeDeterminedOrStraight => Seq::empty(),
        DummyEdgeBendPoints::SegmentEndpoints(a, b) => seq![a, b],
        DummyEdgeBendPoints::VerticalBendDummy(p) => seq![p],
        DummyEdgeBendPoints::VerticalCollapsed => Seq::empty(),
    }
}

/// Edge `cur` is a link of the chain of dummy edges that replaces edge `orig`.
pub open spec fn is_chain_link(g: Graph, orig: int, cur: EdgeId) -> bool {
    g.edges@[cur.0 as int].edge_type matches EdgeType::DummyEdge { original_edge, .. } && original_edge.0 == orig
}

/// `n`, but at most 2.
pub open spec fn capped(n: nat) -> nat {
    if n < 2 { n } else { 2 }
}

pub open spec fn differs_from(cur: EdgeId) -> spec_fn(EdgeId) -> bool {
    |e: EdgeId| e != cur
}

/// The edges at the target of `cur` other than `cur`, incoming first.
pub open spec fn other_edges(g: Graph, cur: EdgeId) -> Seq<EdgeId> {
    let n = g.nodes@[g.edges@[cur.0 as int].to.0 as int];
    (n.incoming@ + n.outgoing@).filter(differs_from(cur))
}

/// The edge after `cur` when the target of `cur` has exactly one other edge.
pub open spec fn next_hop(g: Graph, cur: EdgeId) -> Option<EdgeId> {
    let others = other_edges(g, cur);
    if others.len() == 1 { Some(others[0]) } else { None }
}

/// Walks the chain of dummy edges of edge `orig` from `cur` (`last` being the link before):
/// the bend points collected and the last link, or `None` when the walk has not ended after
/// `fuel` steps.
pub open spec fn chain_walk(g: Graph, orig: int, cur: EdgeId, last: EdgeId, fuel: nat) -> Option<(Seq<(usize, usize)>, EdgeId)>
    decreases fuel,
{
    if fuel == 0 {
        None
    } else if !is_chain_link(g, orig, cur) {
        Some((Seq::empty(), last))
    } else {
        let pts = dummy_points(g.edges@[cur.0 as int].edge_type->DummyEdge_bend_points);
        match next_hop(g, cur) {
            Some(nx) => match chain_walk(g, orig, nx, cur, (fuel - 1) as nat) {
                Some((rest, l)) => Some((pts + rest, l)),
                None => None,
            },
            None => Some((pts, cur)),
        }
    }
}

/// The number of steps the walk along a chain may take: one per edge, and one more.
pub open spec fn walk_fuel(g: Graph) -> nat {
    (g.edges@.len() + 1) as nat
}

/// The full bend points of edge `i` (in the direction of the arrow), or `None` for an edge that
/// keeps its bend points: a dummy edge or one already fully routed.
pub open spec fn routed_points(g: Graph, i: int) -> Option<Seq<(usize, usize)>> {
    let e = g.edges@[i];
    let from = g.nodes@[e.from.0 as int];
    let to = g.nodes@[e.to.0 as int];
    match e.edge_type {
        EdgeType::DummyEdge { .. } => None,
        EdgeType::Regular { bend_points, .. } => match bend_points {
            RegularEdgeBendPoints::FullyRouted(_) => None,
            RegularEdgeBendPoints::ToBeDetermined => Some(oriented(
                seq![out_pair(from, EdgeId(i as usize)), in_pair(to, EdgeId(i as usize))], e.is_reversed)),
            RegularEdgeBendPoints::SegmentEndpoints(a, b) => Some(oriented(
                seq![out_pair(from, EdgeId(i as usize)), a, b, in_pair(to, EdgeId(i as usize))], e.is_reversed)),
        },
        EdgeType::ReplacedByDummies { first_dummy_edge, .. } => {
            let (pts, last) = chain_walk(g, i, first_dummy_edge, first_dummy_edge, walk_fuel(g))->0;
            Some(oriented(dedup(seq![out_pair(from, first_dummy_edge)] + pts + seq![in_pair(to, last)]), e.is_reversed))
        },
    }
}

/// The label an edge keeps.
pub open spec fn text_of(t: EdgeType) -> Option<String> {
    match t {
        EdgeType::Regular { text, .. } => text,
        EdgeType::ReplacedByDummies { text, .. } => text,
        EdgeType::DummyEdge { .. } => None,
    }
}

/// `e1` is `e0` as a regular edge with label `text` and the bend points `pts`.
pub open spec fn routed_edge(e0: Edge, e1: Edge, text: Option<String>, pts: Seq<(usize, usize)>) -> bool {
    &&& e1.edge_type matches EdgeType::Regular { text: t, bend_points: RegularEdgeBendPoints::FullyRouted(v) }
        && t == text && v@ == pts
    &&& e1.from == e0.from && e1.to == e0.to
    &&& e1.is_reversed == e0.is_reversed && e1.flow_type == e0.flow_type
    &&& e1.stays_within_lane == e0.stays_within_lane
    &&& e1.attached_to_boundary_event == e0.attached_to_boundary_event
    &&& e1.is_vertical == e0.is_vertical && e1.stroke_color == e0.stroke_color
}

/// Edges run between existing nodes, and the edge lists of the nodes hold existing edges.
pub open spec fn lists_closed(g: Graph) -> bool {
    &&& forall|i: int| 0 <= i < g.edges@.len() ==> (#[trigger] g.edges@[i]).from.0 < g.nodes@.len()
        && g.edges@[i].to.0 < g.nodes@.len()
    &&& forall|i: int, k: int| 0 <= i < g.nodes@.len() && 0 <= k < g.nodes@[i].incoming@.len()
        ==> (#[trigger] g.nodes@[i].incoming@[k]).0 < g.edges@.len()
    &&& forall|i: int, k: int| 0 <= i < g.nodes@.len() && 0 <= k < g.nodes@[i].outgoing@.len()
        ==> (#[trigger] g.nodes@[i].outgoing@[k]).0 < g.edges@.len()
}

/// The next link of a chain is an existing edge.
proof fn lemma_next_hop_exists(g: Graph, cur: EdgeId)
    requires
        lists_closed(g),
        cur.0 < g.edges@.len(),
    ensures
        next_hop(g, cur) matches Some(nx) ==> nx.0 < g.edges@.len(),
{
    if let Some(nx) = next_hop(g, cur) {
        let t = g.edges@[cur.0 as int].to.0 as int;
        let n = g.nodes@[t];
        let all = n.incoming@ + n.outgoing@;
        assert(other_edges(g, cur).len() == 1);
        assert(all.filter(differs_from(cur))[0] == nx);
        assert(all.filter(differs_from(cur)).contains(nx));
        all.lemma_filter_contains_rev(differs_from(cur), nx);
        let k = choose|k: int| 0 <= k < all.len() && all[k] == nx;
        if k < n.incoming@.len() {
            assert(g.nodes@[t].incoming@[k] == nx);
        } else {
            assert(g.nodes@[t].outgoing@[k - n.incoming@.len()] == nx);
        }
    }
}

/// What routing the edges needs: edges between existing nodes, nodes whose edges exist and whose
/// ports fit, a port at both ends of every edge that is routed here, and chains of dummy edges
/// that end.
pub open spec fn routing_ok(g: Graph) -> bool {
    &&& forall|i: int| 0 <= i < g.nodes@.len() ==> {
        let n = #[trigger] g.nodes@[i];
        &&& ports_fit(n.incoming_ports@, n.x, n.y)
        &&& ports_fit(n.outgoing_ports@, n.x, n.y)
    }
    &&& lists_closed(g)
    &&& forall|i: int| 0 <= i < g.edges@.len() ==> {
        let e = #[trigger] g.edges@[i];
        let from = g.nodes@[e.from.0 as int];
        let to = g.nodes@[e.to.0 as int];
        &&& (e.edge_type matches EdgeType::Regular { bend_points, .. } && !(bend_points is FullyRouted)) ==>
            has_out_port(from, EdgeId(i as usize)) && has_in_port(to, EdgeId(i as usize))
        &&& e.edge_type matches EdgeType::ReplacedByDummies { first_dummy_edge, .. } ==> {
            &&& first_dummy_edge.0 < g.edges@.len()
            &&& has_out_port(from, first_dummy_edge)
            &&& chain_walk(g, i, first_dummy_edge, first_dummy_edge, walk_fuel(g)) matches Some((_, last))
                && has_in_port(to, last)
        }
    }
}

fn next_hop_of(g: &Graph, cur: EdgeId) -> (r: Option<EdgeId>)
    requires
        cur.0 < g.edges@.len(),
        g.edges@[cur.0 as int].to.0 < g.nodes@.len(),
    ensures
        r == next_hop(*g, cur),
{
    let n = &g.nodes[g.edges[cur.0].to.0];
    let ghost all = n.incoming@ + n.outgoing@;
    let ghost pred = differs_from(cur);
    let mut count: usize = 0;
    let mut first: Option<EdgeId> = None;
    proof {
        assert(all.take(0) =~= Seq::<EdgeId>::empty());
        assert(Seq::<EdgeId>::empty().filter(pred) =~= Seq::<EdgeId>::empty()) by {
            Seq::<EdgeId>::empty().lemma_filter_len(pred);
        }
    }
    let mut k: usize = 0;
    while k < n.incoming.len()
        invariant
            k <= n.incoming@.len(),
            all == n.incoming@ + n.outgoing@,
            pred == differs_from(cur),
            count == capped(all.take(k as int).filter(pred).len()),
            count > 0 ==> first == Some(all.take(k as int).filter(pred)[0]),
        decreases n.incoming@.len() - k,
    {
        let e = n.incoming[k];
        proof {
            assert(e == all[k as int]);
            assert(all.take(k + 1) =~= all.take(k as int).push(e));
            all.take(k as int).lemma_filter_push(e, pred);
        }
        if e.0 != cur.0 {
            if count == 0 {
                first = Some(e);
            }
            if count < 2 {
                count = count + 1;
            }
        } else {
            assert(e == cur);
        }
        k = k + 1;
    }
    let mut j: usize = 0;
    while j < n.outgoing.len()
        invariant
            j <= n.outgoing@.len(),
            all == n.incoming@ + n.outgoing@,
            pred == differs_from(cur),
            count == capped(all.take(n.incoming@.len() + j).filter(pred).len()),
            count > 0 ==> first == Some(all.take(n.incoming@.len() + j).filter(pred)[0]),
        decreases n.outgoing@.len() - j,
    {
        let e = n.outgoing[j];
        let ghost k = n.incoming@.len() + j;
        proof {
            assert(e == all[k]);
            assert(all.take(k + 1) =~= all.take(k).push(e));
            all.take(k).lemma_filter_push(e, pred);
        }
        if e.0 != cur.0 {
            if count == 0 {
                first = Some(e);
            }
            if count < 2 {
                count = count + 1;
            }
        } else {
            assert(e == cur);
        }
        j = j + 1;
    }
    proof {
        assert(all.take(all.len() as int) =~= all);
    }
    if count == 1 { first } else { None }
}

fn walk_chain(g: &Graph, orig: usize, first: EdgeId) -> (r: (Vec<(usize, usize)>, EdgeId))
    requires
        lists_closed(*g),
        first.0 < g.edges@.len(),
        chain_walk(*g, orig as int, first, first, walk_fuel(*g)) is Some,
    ensures
        chain_walk(*g, orig as int, first, first, walk_fuel(*g)) == Some((r.0@, r.1)),
{
    let mut pts: Vec<(usize, usize)> = Vec::new();
    let mut cur = first;
    let mut last = first;
    let ghost mut fuel = walk_fuel(*g);
    assert(pts@ + (chain_walk(*g, orig as int, cur, last, fuel)->0).0 =~= (chain_walk(*g, orig as int, cur, last, fuel)->0).0);
    loop
        invariant_except_break
            lists_closed(*g),
            cur.0 < g.edges@.len(),
            chain_walk(*g, orig as int, cur, last, fuel) is Some,
            chain_walk(*g, orig as int, first, first, walk_fuel(*g)) == Some((
                pts@ + (chain_walk(*g, orig as int, cur, last, fuel)->0).0,
                (chain_walk(*g, orig as int, cur, last, fuel)->0).1,
            )),
        ensures
            chain_walk(*g, orig as int, first, first, walk_fuel(*g)) == Some((pts@, last)),
        decreases fuel,
    {
        let edge = &g.edges[cur.0];
        let link = match &edge.edge_type {
            EdgeType::DummyEdge { original_edge, bend_points } => if original_edge.0 == orig {
                Some(bend_points)
            } else {
                None
            },
            _ => None,
        };
        match link {
            None => {
                assert(pts@ + Seq::<(usize, usize)>::empty() =~= pts@);
                break;
            },
            Some(bp) => {
                let ghost before = pts@;
                match bp {
                    DummyEdgeBendPoints::ToBeDeterminedOrStraight => {},
                    DummyEdgeBendPoints::SegmentEndpoints(a, b) => {
                        pts.push(*a);
                        pts.push(*b);
                    },
                    DummyEdgeBendPoints::VerticalBendDummy(p) => {
                        pts.push(*p);
                    },
                    DummyEdgeBendPoints::VerticalCollapsed => {},
                }
                assert(pts@ =~= before + dummy_points(*bp));
                let e_to = g.edges[cur.0].to;
                assert(e_to.0 < g.nodes@.len());
                last = cur;
                match next_hop_of(g, cur) {
                    Some(nx) => {
                        proof {
                            lemma_next_hop_exists(*g, cur);
                            let rest = (chain_walk(*g, orig as int, nx, last, (fuel - 1) as nat)->0).0;
                            assert(before + dummy_points(*bp) + rest =~= before + (dummy_points(*bp) + rest));
                        }
                        cur = nx;
                        proof {
                            fuel = (fuel - 1) as nat;
                        }
                    },
                    None => {
                        break;
                    },
                }
            },
        }
    }
    (pts, last)
}

fn dedup_points(v: &Vec<(usize, usize)>) -> (r: Vec<(usize, usize)>)
    ensures
        r@ == dedup(v@),
{
    let mut r: Vec<(usize, usize)> = Vec::new();
    let mut i: usize = 0;
    assert(v@.take(0) =~= Seq::<(usize, usize)>::empty());
    while i < v.len()
        invariant
            i <= v@.len(),
            r@ == dedup(v@.take(i as int)),
        decreases v@.len() - i,
    {
        let x = v[i];
        proof {
            assert(v@.take(i + 1).drop_last() =~= v@.take(i as int));
            assert(v@.take(i + 1).last() == x);
        }
        let n = r.len();
        if n > 0 && r[n - 1].0 == x.0 && r[n - 1].1 == x.1 {
        } else {
            r.push(x);
        }
        i = i + 1;
    }
    assert(v@.take(v@.len() as int) =~= v@);
    r
}

fn oriented_points(v: Vec<(usize, usize)>, reversed: bool) -> (r: Vec<(usize, usize)>)
    ensures
        r@ == oriented(v@, reversed),
{
    if !reversed {
        return v;
    }
    let mut r: Vec<(usize, usize)> = Vec::new();
    let n = v.len();
    let mut k: usize = 0;
    while k < n
        invariant
            k <= n,
            n == v@.len(),
            r@.len() == k,
            forall|j: int| 0 <= j < k ==> r@[j] == v@[n - 1 - j],
        decreases n - k,
    {
        r.push(v[n - 1 - k]);
        k = k + 1;
    }
    assert(r@ =~= v@.reverse());
    r
}

fn out_port_pair(n: &Node, e: EdgeId) -> (r: (usize, usize))
    requires
        ports_fit(n.outgoing_ports@, n.x, n.y),
        has_out_port(*n, e),
    ensures
        r == out_pair(*n, e),
{
    let p = n.port_of_outgoing(e).unwrap();
    (p.x, p.y)
}

fn in_port_pair(n: &Node, e: EdgeId) -> (r: (usize, usize))
    requires
        ports_fit(n.incoming_ports@, n.x, n.y),
        has_in_port(*n, e),
    ensures
        r == in_pair(*n, e),
{
    let p = n.port_of_incoming(e).unwrap();
    (p.x, p.y)
}

/// The label and full bend points of edge `i`, or `None` for an edge that keeps its bend points.
fn routed(g: &Graph, i: usize) -> (r: Option<(Option<String>, Vec<(usize, usize)>)>)
    requires
        routing_ok(*g),
        i < g.edges@.len(),
    ensures
        match routed_points(*g, i as int) {
            Some(p) => r matches Some((t, v)) && t == text_of(g.edges@[i as int].edge_type) && v@ == p,
            None => r is None,
        },
{
    let e = &g.edges[i];
    assert(e.from.0 < g.nodes@.len() && e.to.0 < g.nodes@.len());
    let from = &g.nodes[e.from.0];
    let to = &g.nodes[e.to.0];
    match &e.edge_type {
        EdgeType::DummyEdge { .. } => None,
        EdgeType::Regular { text, bend_points } => match bend_points {
            RegularEdgeBendPoints::FullyRouted(_) => None,
            RegularEdgeBendPoints::ToBeDetermined => {
                let v = vec![out_port_pair(from, EdgeId(i)), in_port_pair(to, EdgeId(i))];
                Some((text.clone(), oriented_points(v, e.is_reversed)))
            },
            RegularEdgeBendPoints::SegmentEndpoints(a, b) => {
                let v = vec![out_port_pair(from, EdgeId(i)), *a, *b, in_port_pair(to, EdgeId(i))];
                Some((text.clone(), oriented_points(v, e.is_reversed)))
            },
        },
        EdgeType::ReplacedByDummies { first_dummy_edge, text } => {
            let start = out_port_pair(from, *first_dummy_edge);
            let (mut pts, last) = walk_chain(g, i, *first_dummy_edge);
            let mut v = vec![start];
            let ghost mid = pts@;
            v.append(&mut pts);
            v.push(in_port_pair(to, last));
            assert(v@ =~= seq![start] + mid + seq![in_pair(*to, last)]);
            let d = dedup_points(&v);
            Some((text.clone(), oriented_points(d, e.is_reversed)))
        },
    }
}

/// What edge `j` of `g` becomes: routed as `routed_points` says, or unchanged.
pub open spec fn edge_after_routing(g: Graph, j: int, e1: Edge) -> bool {
    match routed_points(g, j) {
        Some(p) => routed_edge(g.edges@[j], e1, text_of(g.edges@[j].edge_type), p),
        None => e1 == g.edges@[j],
    }
}

/// A route for edge `i` as `routed` gives it.
pub open spec fn route_matches(g: Graph, i: int, r: Option<(Option<String>, Vec<(usize, usize)>)>) -> bool {
    match routed_points(g, i) {
        Some(p) => r matches Some((t, v)) && t == text_of(g.edges@[i].edge_type) && v@ == p,
        None => r is None,
    }
}

fn route_all(g: &Graph) -> (r: Vec<Option<(Option<String>, Vec<(usize, usize)>)>>)
    requires
        routing_ok(*g),
    ensures
        r@.len() == g.edges@.len(),
        forall|i: int| 0 <= i < g.edges@.len() ==> route_matches(*g, i, #[trigger] r@[i]),
{
    let mut routes: Vec<Option<(Option<String>, Vec<(usize, usize)>)>> = Vec::new();
    let mut i: usize = 0;
    while i < g.edges.len()
        invariant
            i <= g.edges@.len(),
            routing_ok(*g),
            routes@.len() == i,
            forall|j: int| 0 <= j < i ==> route_matches(*g, j, #[trigger] routes@[j]),
        decreases g.edges@.len() - i,
    {
        let r = routed(g, i);
        routes.push(r);
        i = i + 1;
    }
    routes
}

fn apply_routes(edges: &mut Vec<Edge>, routes: Vec<Option<(Option<String>, Vec<(usize, usize)>)>>, Ghost(g): Ghost<Graph>)
    requires
        old(edges)@ == g.edges@,
        routes@.len() == g.edges@.len(),
        forall|i: int| 0 <= i < g.edges@.len() ==> route_matches(g, i, #[trigger] routes@[i]),
    ensures
        final(edges)@.len() == g.edges@.len(),
        forall|j: int| 0 <= j < g.edges@.len() ==> edge_after_routing(g, j, #[trigger] final(edges)@[j]),
{
    let mut routes = routes;
    let mut k: usize = edges.len();
    while k > 0
        invariant
            k <= g.edges@.len(),
            edges@.len() == g.edges@.len(),
            routes@.len() == k,
            forall|i: int| 0 <= i < k ==> route_matches(g, i, #[trigger] routes@[i]),
            forall|j: int| 0 <= j < k ==> #[trigger] edges@[j] == g.edges@[j],
            forall|j: int| k <= j < g.edges@.len() ==> edge_after_routing(g, j, #[trigger] edges@[j]),
        decreases k,
    {
        k = k - 1;
        let r = routes.pop().unwrap();
        assert(route_matches(g, k as int, r));
        match r {
            Some((text, pts)) => {
                edges[k].edge_type = EdgeType::Regular { text, bend_points: RegularEdgeBendPoints::FullyRouted(pts) };
            },
            None => {},
        }
        assert(edge_after_routing(g, k as int, edges@[k as int]));
    }
}

/// The number of nodes left when the dummy nodes at the end are dropped.
pub open spec fn kept_nodes(nodes: Seq<Node>) -> nat
    decreases nodes.len(),
{
    if nodes.len() == 0 {
        0
    } else if spec_is_dummy(nodes.last().node_type) {
        kept_nodes(nodes.drop_last())
    } else {
        nodes.len()
    }
}

/// The number of edges left when the dummy edges at the end are dropped.
pub open spec fn kept_edges(edges: Seq<Edge>) -> nat
    decreases edges.len(),
{
    if edges.len() == 0 {
        0
    } else if edges.last().edge_type is DummyEdge {
        kept_edges(edges.drop_last())
    } else {
        edges.len()
    }
}

proof fn lemma_kept_nodes(nodes: Seq<Node>)
    ensures
        kept_nodes(nodes) <= nodes.len(),
        kept_nodes(nodes) > 0 ==> !spec_is_dummy(nodes[kept_nodes(nodes) - 1].node_type),
        forall|k: int| 0 <= k <= nodes.len() && kept_nodes(nodes) <= k ==> #[trigger] kept_nodes(nodes.take(k)) == kept_nodes(nodes),
        forall|j: int| kept_nodes(nodes) <= j < nodes.len() ==> spec_is_dummy(#[trigger] nodes[j].node_type),
    decreases nodes.len(),
{
    if nodes.len() > 0 {
        lemma_kept_nodes(nodes.drop_last());
        assert forall|j: int| kept_nodes(nodes) <= j < nodes.len() implies spec_is_dummy(#[trigger] nodes[j].node_type) by {
            if j < nodes.len() - 1 {
                assert(nodes.drop_last()[j] == nodes[j]);
            }
        }
        assert forall|k: int| 0 <= k <= nodes.len() && kept_nodes(nodes) <= k implies #[trigger] kept_nodes(nodes.take(k)) == kept_nodes(nodes) by {
            if k == nodes.len() {
                assert(nodes.take(k) =~= nodes);
            } else {
                assert(nodes.take(k) =~= nodes.drop_last().take(k));
            }
        }
    } else {
        assert forall|k: int| 0 <= k <= nodes.len() && kept_nodes(nodes) <= k implies #[trigger] kept_nodes(nodes.take(k)) == kept_nodes(nodes) by {
            assert(nodes.take(k) =~= nodes);
        }
    }
}

proof fn lemma_kept_edges(edges: Seq<Edge>)
    ensures
        kept_edges(edges) <= edges.len(),
        kept_edges(edges) > 0 ==> !(edges[kept_edges(edges) - 1].edge_type is DummyEdge),
        forall|k: int| 0 <= k <= edges.len() && kept_edges(edges) <= k ==> #[trigger] kept_edges(edges.take(k)) == kept_edges(edges),
        forall|j: int| kept_edges(edges) <= j < edges.len() ==> (#[trigger] edges[j]).edge_type is DummyEdge,
    decreases edges.len(),
{
    if edges.len() > 0 {
        lemma_kept_edges(edges.drop_last());
        assert forall|j: int| kept_edges(edges) <= j < edges.len() implies (#[trigger] edges[j]).edge_type is DummyEdge by {
            if j < edges.len() - 1 {
                assert(edges.drop_last()[j] == edges[j]);
            }
        }
        assert forall|k: int| 0 <= k <= edges.len() && kept_edges(edges) <= k implies #[trigger] kept_edges(edges.take(k)) == kept_edges(edges) by {
            if k == edges.len() {
                assert(edges.take(k) =~= edges);
            } else {
                assert(edges.take(k) =~= edges.drop_last().take(k));
            }
        }
    } else {
        assert forall|k: int| 0 <= k <= edges.len() && kept_edges(edges) <= k implies #[trigger] kept_edges(edges.take(k)) == kept_edges(edges) by {
            assert(edges.take(k) =~= edges);
        }
    }
}

fn drop_trailing_dummy_nodes(nodes: &mut Vec<Node>)
    ensures
        final(nodes)@ == old(nodes)@.take(kept_nodes(old(nodes)@) as int),
{
    proof {
        lemma_kept_nodes(old(nodes)@);
    }
    while nodes.len() > 0 && nodes[nodes.len() - 1].is_dummy()
        invariant
            kept_nodes(old(nodes)@) <= nodes@.len() <= old(nodes)@.len(),
            nodes@ == old(nodes)@.take(nodes@.len() as int),
            forall|k: int| 0 <= k <= old(nodes)@.len() && kept_nodes(old(nodes)@) <= k
                ==> #[trigger] kept_nodes(old(nodes)@.take(k)) == kept_nodes(old(nodes)@),
            kept_nodes(old(nodes)@) > 0 ==> !spec_is_dummy(old(nodes)@[kept_nodes(old(nodes)@) - 1].node_type),
        decreases nodes@.len(),
    {
        let ghost n = nodes@.len();
        nodes.pop();
        assert(nodes@ =~= old(nodes)@.take(n - 1));
    }
    proof {
        let n = nodes@.len() as int;
        assert(kept_nodes(old(nodes)@.take(n)) == kept_nodes(old(nodes)@));
        if n > 0 {
            assert(old(nodes)@.take(n).last() == nodes@[n - 1]);
            assert(kept_nodes(nodes@) == n);
        }
    }
}

fn drop_trailing_dummy_edges(edges: &mut Vec<Edge>)
    ensures
        final(edges)@ == old(edges)@.take(kept_edges(old(edges)@) as int),
{
    proof {
        lemma_kept_edges(old(edges)@);
    }
    while edges.len() > 0 && edges[edges.len() - 1].is_dummy()
        invariant
            kept_edges(old(edges)@) <= edges@.len() <= old(edges)@.len(),
            edges@ == old(edges)@.take(edges@.len() as int),
            forall|k: int| 0 <= k <= old(edges)@.len() && kept_edges(old(edges)@) <= k
                ==> #[trigger] kept_edges(old(edges)@.take(k)) == kept_edges(old(edges)@),
            kept_edges(old(edges)@) > 0 ==> !(old(edges)@[kept_edges(old(edges)@) - 1].edge_type is DummyEdge),
        decreases edges@.len(),
    {
        let ghost n = edges@.len();
        edges.pop();
        assert(edges@ =~= old(edges)@.take(n - 1));
    }
    proof {
        let n = edges@.len() as int;
        assert(kept_edges(old(edges)@.take(n)) == kept_edges(old(edges)@));
        if n > 0 {
            assert(old(edges)@.take(n).last() == edges@[n - 1]);
        }
    }
}

/// The edge that `e` stands for after the dummies are gone: a dummy edge stands for the edge it
/// replaced, any other edge for itself.
pub open spec fn remap(edges: Seq<Edge>, e: EdgeId) -> EdgeId {
    match edges[e.0 as int].edge_type {
        EdgeType::DummyEdge { original_edge, .. } => original_edge,
        _ => e,
    }
}

pub open spec fn remapped(edges: Seq<Edge>, list: Seq<EdgeId>) -> Seq<EdgeId> {
    list.map_values(|e: EdgeId| remap(edges, e))
}

fn remap_list(edges: &Vec<Edge>, list: &Vec<EdgeId>) -> (r: Vec<EdgeId>)
    requires
        forall|k: int| 0 <= k < list@.len() ==> (#[trigger] list@[k]).0 < edges@.len(),
    ensures
        r@ == remapped(edges@, list@),
{
    let mut r: Vec<EdgeId> = Vec::new();
    let mut k: usize = 0;
    while k < list.len()
        invariant
            k <= list@.len(),
            forall|q: int| 0 <= q < list@.len() ==> (#[trigger] list@[q]).0 < edges@.len(),
            r@ == remapped(edges@, list@.take(k as int)),
        decreases list@.len() - k,
    {
        let e = list[k];
        let m = match &edges[e.0].edge_type {
            EdgeType::DummyEdge { original_edge, .. } => *original_edge,
            _ => e,
        };
        r.push(m);
        assert(list@.take(k + 1) =~= list@.take(k as int).push(e));
        assert(r@ =~= remapped(edges@, list@.take(k + 1)));
        k = k + 1;
    }
    assert(list@.take(list@.len() as int) =~= list@);
    r
}

/// `b` is `a` but for its lists of incoming and outgoing edges.
pub open spec fn same_but_edge_lists(a: Node, b: Node) -> bool {
    b == Node { incoming: b.incoming, outgoing: b.outgoing, ..a }
}

fn remap_lists(nodes: &mut Vec<Node>, edges: &Vec<Edge>)
    requires
        forall|i: int, k: int| 0 <= i < old(nodes)@.len() && 0 <= k < old(nodes)@[i].incoming@.len()
            ==> (#[trigger] old(nodes)@[i].incoming@[k]).0 < edges@.len(),
        forall|i: int, k: int| 0 <= i < old(nodes)@.len() && 0 <= k < old(nodes)@[i].outgoing@.len()
            ==> (#[trigger] old(nodes)@[i].outgoing@[k]).0 < edges@.len(),
    ensures
        final(nodes)@.len() == old(nodes)@.len(),
        forall|i: int| 0 <= i < old(nodes)@.len() ==> {
            let (a, b) = (old(nodes)@[i], #[trigger] final(nodes)@[i]);
            &&& same_but_edge_lists(a, b)
            &&& b.incoming@ == remapped(edges@, a.incoming@)
            &&& b.outgoing@ == remapped(edges@, a.outgoing@)
        },
{
    let mut i: usize = 0;
    while i < nodes.len()
        invariant
            i <= nodes@.len(),
            nodes@.len() == old(nodes)@.len(),
            forall|j: int| i <= j < nodes@.len() ==> #[trigger] nodes@[j] == old(nodes)@[j],
            forall|j: int| 0 <= j < i ==> {
                let (a, b) = (old(nodes)@[j], #[trigger] nodes@[j]);
                &&& same_but_edge_lists(a, b)
                &&& b.incoming@ == remapped(edges@, a.incoming@)
                &&& b.outgoing@ == remapped(edges@, a.outgoing@)
            },
            forall|j: int, k: int| 0 <= j < old(nodes)@.len() && 0 <= k < old(nodes)@[j].incoming@.len()
                ==> (#[trigger] old(nodes)@[j].incoming@[k]).0 < edges@.len(),
            forall|j: int, k: int| 0 <= j < old(nodes)@.len() && 0 <= k < old(nodes)@[j].outgoing@.len()
                ==> (#[trigger] old(nodes)@[j].outgoing@[k]).0 < edges@.len(),
        decreases nodes@.len() - i,
    {
        proof {
            assert(nodes@[i as int] == old(nodes)@[i as int]);
            assert forall|k: int| 0 <= k < nodes@[i as int].incoming@.len() implies (#[trigger] nodes@[i as int].incoming@[k]).0 < edges@.len() by {
                assert(old(nodes)@[i as int].incoming@[k] == nodes@[i as int].incoming@[k]);
            }
            assert forall|k: int| 0 <= k < nodes@[i as int].outgoing@.len() implies (#[trigger] nodes@[i as int].outgoing@[k]).0 < edges@.len() by {
                assert(old(nodes)@[i as int].outgoing@[k] == nodes@[i as int].outgoing@[k]);
            }
        }
        let inc = remap_list(edges, &nodes[i].incoming);
        let out = remap_list(edges, &nodes[i].outgoing);
        nodes[i].incoming = inc;
        nodes[i].outgoing = out;
        i = i + 1;
    }
}

pub open spec fn below(n: nat) -> spec_fn(NodeId) -> bool {
    |id: NodeId| id.0 < n
}

/// `b` is the pool `a` with only the nodes below `n` left in its lanes.
pub open spec fn pool_kept(a: Pool, b: Pool, n: nat) -> bool {
    &&& b == Pool { lanes: b.lanes, ..a }
    &&& b.lanes@.len() == a.lanes@.len()
    &&& forall|l: int| 0 <= l < a.lanes@.len() ==> {
        let (la, lb) = (a.lanes@[l], #[trigger] b.lanes@[l]);
        &&& lb == Lane { nodes: lb.nodes, ..la }
        &&& lb.nodes@ == la.nodes@.filter(below(n))
    }
}

fn retain_below(v: &Vec<NodeId>, n: usize) -> (r: Vec<NodeId>)
    ensures
        r@ == v@.filter(below(n as nat)),
{
    let mut r: Vec<NodeId> = Vec::new();
    let mut k: usize = 0;
    proof {
        assert(v@.take(0) =~= Seq::<NodeId>::empty());
        Seq::<NodeId>::empty().lemma_filter_len(below(n as nat));
        assert(Seq::<NodeId>::empty().filter(below(n as nat)) =~= Seq::<NodeId>::empty());
    }
    while k < v.len()
        invariant
            k <= v@.len(),
            r@ == v@.take(k as int).filter(below(n as nat)),
        decreases v@.len() - k,
    {
        let x = v[k];
        proof {
            assert(v@.take(k + 1) =~= v@.take(k as int).push(x));
            v@.take(k as int).lemma_filter_push(x, below(n as nat));
        }
        if x.0 < n {
            r.push(x);
        }
        k = k + 1;
    }
    assert(v@.take(v@.len() as int) =~= v@);
    r
}

impl Pool {
    /// Drops the nodes with an id of `n` or more from the lanes.
    fn keep_nodes_below(&mut self, n: usize)
        ensures
            pool_kept(*old(self), *final(self), n as nat),
    {
        let mut l: usize = 0;
        while l < self.lanes.len()
            invariant
                l <= self.lanes@.len(),
                *self == (Pool { lanes: self.lanes, ..*old(self) }),
                self.lanes@.len() == old(self).lanes@.len(),
                forall|j: int| l <= j < self.lanes@.len() ==> #[trigger] self.lanes@[j] == old(self).lanes@[j],
                forall|j: int| 0 <= j < l ==> {
                    let (la, lb) = (old(self).lanes@[j], #[trigger] self.lanes@[j]);
                    &&& lb == Lane { nodes: lb.nodes, ..la }
                    &&& lb.nodes@ == la.nodes@.filter(below(n as nat))
                },
            decreases self.lanes@.len() - l,
        {
            let kept = retain_below(&self.lanes[l].nodes, n);
            self.lanes[l].nodes = kept;
            l = l + 1;
        }
    }
}

fn keep_lane_nodes_below(pools: &mut Vec<Pool>, n: usize)
    ensures
        final(pools)@.len() == old(pools)@.len(),
        forall|p: int| 0 <= p < old(pools)@.len() ==> pool_kept(old(pools)@[p], #[trigger] final(pools)@[p], n as nat),
{
    let mut p: usize = 0;
    while p < pools.len()
        invariant
            p <= pools@.len(),
            pools@.len() == old(pools)@.len(),
            forall|j: int| p <= j < pools@.len() ==> #[trigger] pools@[j] == old(pools)@[j],
            forall|j: int| 0 <= j < p ==> pool_kept(old(pools)@[j], #[trigger] pools@[j], n as nat),
        decreases pools@.len() - p,
    {
        pools[p].keep_nodes_below(n);
        p = p + 1;
    }
}

/// The dummy nodes are all at the end, and so are the dummy edges.
pub open spec fn dummies_at_the_end(g: Graph) -> bool {
    &&& forall|i: int| 0 <= i < kept_nodes(g.nodes@) ==> !spec_is_dummy(#[trigger] g.nodes@[i].node_type)
    &&& forall|j: int| 0 <= j < kept_edges(g.edges@) ==> !(#[trigger] g.edges@[j].edge_type is DummyEdge)
}

proof fn lemma_kept_edges_by_kind(a: Seq<Edge>, b: Seq<Edge>)
    requires
        a.len() == b.len(),
        forall|j: int| 0 <= j < a.len() ==> ((#[trigger] a[j]).edge_type is DummyEdge <==> b[j].edge_type is DummyEdge),
    ensures
        kept_edges(a) == kept_edges(b),
    decreases a.len(),
{
    if a.len() > 0 {
        assert forall|j: int| 0 <= j < a.drop_last().len() implies
            ((#[trigger] a.drop_last()[j]).edge_type is DummyEdge <==> b.drop_last()[j].edge_type is DummyEdge) by {
            assert(a.drop_last()[j] == a[j] && b.drop_last()[j] == b[j]);
        }
        lemma_kept_edges_by_kind(a.drop_last(), b.drop_last());
        assert(a.last() == a[a.len() - 1]);
    }
}

/// Gives every edge its full list of bend points, then removes the dummy nodes and dummy edges:
/// the edge lists of the nodes name the edges that the dummy edges stood for, and the lanes
/// keep only nodes that are left.
pub fn replace_dummy_nodes(graph: &mut Graph)
    requires
        routing_ok(*old(graph)),
        dummies_at_the_end(*old(graph)),
    ensures
        final(graph).edges@.len() == kept_edges(old(graph).edges@),
        forall|j: int| 0 <= j < final(graph).edges@.len() ==> edge_after_routing(*old(graph), j, #[trigger] final(graph).edges@[j]),
        forall|j: int| 0 <= j < final(graph).edges@.len() ==> (#[trigger] final(graph).edges@[j]).edge_type is Regular,
        final(graph).nodes@.len() == kept_nodes(old(graph).nodes@),
        forall|i: int| 0 <= i < final(graph).nodes@.len() ==> {
            let (a, b) = (old(graph).nodes@[i], #[trigger] final(graph).nodes@[i]);
            &&& same_but_edge_lists(a, b)
            &&& b.incoming@ == remapped(old(graph).edges@, a.incoming@)
            &&& b.outgoing@ == remapped(old(graph).edges@, a.outgoing@)
            &&& !spec_is_dummy(b.node_type)
        },
        final(graph).pools@.len() == old(graph).pools@.len(),
        forall|p: int| 0 <= p < old(graph).pools@.len()
            ==> pool_kept(old(graph).pools@[p], #[trigger] final(graph).pools@[p], kept_nodes(old(graph).nodes@)),
        final(graph).data_elements == old(graph).data_elements,
        final(graph).config == old(graph).config,
        final(graph).num_layers == old(graph).num_layers,
        final(graph).pe_bpmd_definitions == old(graph).pe_bpmd_definitions,
{
    let ghost g0 = *graph;
    let routes = route_all(graph);
    apply_routes(&mut graph.edges, routes, Ghost(g0));
    let ghost e1 = graph.edges@;
    proof {
        assert forall|j: int| 0 <= j < e1.len() implies ((#[trigger] e1[j]).edge_type is DummyEdge <==> g0.edges@[j].edge_type is DummyEdge)
            && remap(e1, EdgeId(j as usize)) == remap(g0.edges@, EdgeId(j as usize)) by {
            assert(edge_after_routing(g0, j, e1[j]));
        }
        lemma_kept_edges_by_kind(e1, g0.edges@);
    }
    drop_trailing_dummy_nodes(&mut graph.nodes);
    let ghost n1 = graph.nodes@;
    proof {
        lemma_kept_nodes(g0.nodes@);
        assert forall|i: int, k: int| 0 <= i < n1.len() && 0 <= k < n1[i].incoming@.len()
            implies (#[trigger] n1[i].incoming@[k]).0 < graph.edges@.len() by {
            assert(n1[i] == g0.nodes@[i]);
            assert(g0.nodes@[i].incoming@[k] == n1[i].incoming@[k]);
        }
        assert forall|i: int, k: int| 0 <= i < n1.len() && 0 <= k < n1[i].outgoing@.len()
            implies (#[trigger] n1[i].outgoing@[k]).0 < graph.edges@.len() by {
            assert(n1[i] == g0.nodes@[i]);
            assert(g0.nodes@[i].outgoing@[k] == n1[i].outgoing@[k]);
        }
    }
    remap_lists(&mut graph.nodes, &graph.edges);
    proof {
        assert forall|i: int| 0 <= i < n1.len() implies
            remapped(e1, (#[trigger] n1[i]).incoming@) == remapped(g0.edges@, n1[i].incoming@)
            && remapped(e1, n1[i].outgoing@) == remapped(g0.edges@, n1[i].outgoing@) by {
            assert(n1[i] == g0.nodes@[i]);
            assert forall|k: int| 0 <= k < n1[i].incoming@.len() implies
                remap(e1, #[trigger] n1[i].incoming@[k]) == remap(g0.edges@, n1[i].incoming@[k]) by {
                let e = n1[i].incoming@[k];
                assert(g0.nodes@[i].incoming@[k] == e);
                assert(e == EdgeId(e.0));
                assert(e1[e.0 as int] == e1[e.0 as int]);
            }
            assert forall|k: int| 0 <= k < n1[i].outgoing@.len() implies
                remap(e1, #[trigger] n1[i].outgoing@[k]) == remap(g0.edges@, n1[i].outgoing@[k]) by {
                let e = n1[i].outgoing@[k];
                assert(g0.nodes@[i].outgoing@[k] == e);
                assert(e == EdgeId(e.0));
                assert(e1[e.0 as int] == e1[e.0 as int]);
            }
            assert(remapped(e1, n1[i].incoming@) =~= remapped(g0.edges@, n1[i].incoming@));
            assert(remapped(e1, n1[i].outgoing@) =~= remapped(g0.edges@, n1[i].outgoing@));
        }
    }
    drop_trailing_dummy_edges(&mut graph.edges);
    proof {
        assert forall|j: int| 0 <= j < graph.edges@.len() implies (#[trigger] graph.edges@[j]).edge_type is Regular by {
            assert(graph.edges@[j] == e1[j]);
            assert(edge_after_routing(g0, j, e1[j]));
            assert(!(g0.edges@[j].edge_type is DummyEdge));
        }
        assert forall|i: int| 0 <= i < graph.nodes@.len() implies !spec_is_dummy((#[trigger] graph.nodes@[i]).node_type) by {
            assert(n1[i] == g0.nodes@[i]);
        }
    }
    let n = graph.nodes.len();
    keep_lane_nodes_below(&mut graph.pools, n);
}

} // verus!
