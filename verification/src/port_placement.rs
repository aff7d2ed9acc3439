//! Phase three of the port assignment of a node that is no gateway: a bend dummy above or below
//! the node for each port on the top or bottom border that needs one, then the port coordinates
//! written into the node.
use vstd::prelude::*;
use crate::bend_dummy::{add_bend_dummy_node, bend_dummy_added, bend_dummy_ok, pl_of};
use crate::graph::{lanes_reference_nodes, BendDummyKind, EdgeType, Graph, Node, DUMMY_NODE_WIDTH};
use crate::lane_neighbours::links_consistent;
use crate::ids::{pool_and_lane_lt, LayerId, NodeId, PoolAndLane};
use crate::port_assignment::{BarrierInfo, PlaceForBendDummy, PortFlowType, PortInfo};
use crate::port_plan::{PortPlan, PortRef};

verus! {

/// One bend dummy to add: for which edge, in which lane, where in the lane, and where its ports
/// sit on its top side.
#[derive(Debug, Clone, Copy)]
pub struct BendDummyStep {
    pub edge_id: crate::ids::EdgeId,
    pub pool_and_lane: PoolAndLane,
    pub place: PlaceForBendDummy,
    pub relative_port_x: usize,
}

/// The order of bend dummies along a border turns at the first port whose other end is in this
/// layer or later (for an outgoing message flow to a pool above: a later layer).
pub open spec fn turns_here(p: PortInfo, layer: LayerId) -> bool {
    if p.flow_type is MessageAbove && !p.is_incoming {
        p.other_layer.0 > layer.0
    } else {
        p.other_layer.0 >= layer.0
    }
}

/// The position of the first port at which the order turns (the length if none does).
pub open spec fn turn_point(ports: Seq<PortInfo>, layer: LayerId) -> int
    decreases ports.len(),
{
    if ports.len() == 0 {
        0
    } else if turns_here(ports[0], layer) {
        0
    } else {
        1 + turn_point(ports.drop_first(), layer)
    }
}

proof fn lemma_turn_point_bound(ports: Seq<PortInfo>, layer: LayerId)
    ensures
        0 <= turn_point(ports, layer) <= ports.len(),
    decreases ports.len(),
{
    if ports.len() > 0 {
        lemma_turn_point_bound(ports.drop_first(), layer);
    }
}

/// The ports before the turn point in reverse order, then the rest in order.
pub open spec fn dummy_order(ports: Seq<PortInfo>, layer: LayerId) -> Seq<PortInfo> {
    let k = turn_point(ports, layer);
    Seq::new(ports.len(), |i: int| if i < k { ports[k - 1 - i] } else { ports[i] })
}

/// The larger of two lanes, in the order of pools first, lanes second.
pub open spec fn lane_max(a: PoolAndLane, b: PoolAndLane) -> PoolAndLane {
    if pool_and_lane_lt(b, a) { a } else { b }
}

/// The smaller of two lanes.
pub open spec fn lane_min(a: PoolAndLane, b: PoolAndLane) -> PoolAndLane {
    if pool_and_lane_lt(b, a) { b } else { a }
}

/// Where a port at `x` of a node of width `width` lies on a bend dummy.
pub open spec fn dummy_port_x(x: usize, width: usize) -> usize {
    (x + DUMMY_NODE_WIDTH / 2 - width / 2) as usize
}

/// The bend dummy of a port on the top (`top`) or bottom border of node `n_id` in lane `from`:
/// in the lane of the other end, but not beyond the barrier; right above (below) the node when
/// that is its own lane, else at the bottom (top) of that lane.
pub open spec fn step_for(p: PortInfo, top: bool, barrier: Option<BarrierInfo>, n_id: NodeId, from: PoolAndLane, width: usize) -> BendDummyStep {
    let pl = match barrier {
        Some(b) => if top { lane_max(p.other_pool_lane, b.pool_and_lane) } else { lane_min(p.other_pool_lane, b.pool_and_lane) },
        None => p.other_pool_lane,
    };
    let place = if from == pl {
        if top { PlaceForBendDummy::Above(n_id) } else { PlaceForBendDummy::Below(n_id) }
    } else {
        if top { PlaceForBendDummy::AtTheBottom } else { PlaceForBendDummy::AtTheTop }
    };
    BendDummyStep { edge_id: p.edge_id, pool_and_lane: pl, place, relative_port_x: dummy_port_x(p.coordinate.x, width) }
}

/// The bend dummies for the ports of `ordered` that need one, in that order.
pub open spec fn steps_of(ordered: Seq<PortInfo>, top: bool, barrier: Option<BarrierInfo>, n_id: NodeId, from: PoolAndLane, width: usize) -> Seq<BendDummyStep>
    decreases ordered.len(),
{
    if ordered.len() == 0 {
        Seq::empty()
    } else {
        let rest = steps_of(ordered.drop_last(), top, barrier, n_id, from, width);
        if ordered.last().requires_bend_dummy {
            rest.push(step_for(ordered.last(), top, barrier, n_id, from, width))
        } else {
            rest
        }
    }
}

/// The port that `r` refers to.
pub open spec fn port_at(plan: PortPlan, r: PortRef) -> PortInfo {
    if r.0 { plan.incoming@[r.1 as int] } else { plan.outgoing@[r.1 as int] }
}

pub open spec fn ports_at(plan: PortPlan, refs: Seq<PortRef>) -> Seq<PortInfo> {
    refs.map_values(|r: PortRef| port_at(plan, r))
}

pub open spec fn refs_valid(plan: PortPlan, refs: Seq<PortRef>) -> bool {
    forall|i: int| 0 <= i < refs.len() ==> (if (#[trigger] refs[i]).0 { refs[i].1 < plan.incoming@.len() } else { refs[i].1 < plan.outgoing@.len() })
}

/// All bend dummies of node `n_id` (in lane `from` and layer `layer`, of width `width`): those of
/// the top border first, then those of the bottom border.
pub open spec fn bend_steps(plan: PortPlan, n_id: NodeId, from: PoolAndLane, layer: LayerId, width: usize) -> Seq<BendDummyStep> {
    steps_of(dummy_order(ports_at(plan, plan.top@), layer), true, plan.top_barrier, n_id, from, width)
        + steps_of(dummy_order(ports_at(plan, plan.bottom@), layer), false, plan.bottom_barrier, n_id, from, width)
}

fn lane_max_exec(a: PoolAndLane, b: PoolAndLane) -> (r: PoolAndLane)
    ensures
        r == lane_max(a, b),
{
    if b.less_than(&a) { a } else { b }
}

fn lane_min_exec(a: PoolAndLane, b: PoolAndLane) -> (r: PoolAndLane)
    ensures
        r == lane_min(a, b),
{
    if b.less_than(&a) { b } else { a }
}

fn turns_here_exec(p: &PortInfo, layer: LayerId) -> (r: bool)
    ensures
        r == turns_here(*p, layer),
{
    let above = match p.flow_type {
        PortFlowType::MessageAbove { .. } => true,
        _ => false,
    };
    if above && !p.is_incoming {
        p.other_layer.0 > layer.0
    } else {
        p.other_layer.0 >= layer.0
    }
}

/// The ports of `refs` in the order their bend dummies are added.
fn ordered_ports(plan: &PortPlan, refs: &Vec<PortRef>, layer: LayerId) -> (r: Vec<PortInfo>)
    requires
        refs_valid(*plan, refs@),
    ensures
        r@ == dummy_order(ports_at(*plan, refs@), layer),
{
    let ghost ports = ports_at(*plan, refs@);
    let mut k: usize = 0;
    let mut found = false;
    assert(ports.skip(0) =~= ports);
    while !found && k < refs.len()
        invariant
            0 <= k <= refs@.len(),
            ports == ports_at(*plan, refs@),
            refs_valid(*plan, refs@),
            turn_point(ports, layer) == k + turn_point(ports.skip(k as int), layer),
            found ==> k < refs@.len() && turns_here(ports[k as int], layer),
        decreases refs@.len() - k, if found { 0int } else { 1int },
    {
        let r = refs[k];
        let p = if r.0 { &plan.incoming[r.1] } else { &plan.outgoing[r.1] };
        assert(ports.skip(k as int)[0] == *p);
        assert(ports.skip(k as int).drop_first() =~= ports.skip(k + 1));
        if turns_here_exec(p, layer) {
            found = true;
        } else {
            k = k + 1;
        }
    }
    let ghost kk = turn_point(ports, layer);
    assert(kk == k) by {
        if found {
            assert(ports.skip(k as int)[0] == ports[k as int]);
        } else {
            assert(ports.skip(k as int).len() == 0);
        }
    }
    let mut out: Vec<PortInfo> = Vec::new();
    let mut j: usize = k;
    while j > 0
        invariant
            0 <= j <= k,
            k == kk,
            k <= refs@.len(),
            ports == ports_at(*plan, refs@),
            refs_valid(*plan, refs@),
            out@ =~= Seq::new((k - j) as nat, |i: int| ports[k - 1 - i]),
        decreases j,
    {
        j = j - 1;
        let r = refs[j];
        let p = if r.0 { plan.incoming[r.1] } else { plan.outgoing[r.1] };
        out.push(p);
    }
    let mut i: usize = k;
    while i < refs.len()
        invariant
            k <= i <= refs@.len(),
            k == kk,
            ports == ports_at(*plan, refs@),
            refs_valid(*plan, refs@),
            out@ =~= Seq::new(i as nat, |t: int| if t < k { ports[k - 1 - t] } else { ports[t] }),
        decreases refs@.len() - i,
    {
        let r = refs[i];
        let p = if r.0 { plan.incoming[r.1] } else { plan.outgoing[r.1] };
        out.push(p);
        i = i + 1;
    }
    out
}

/// The coordinates of the plan's ports leave room to move them onto a bend dummy.
pub open spec fn coordinates_fit(plan: PortPlan) -> bool {
    &&& forall|i: int| 0 <= i < plan.incoming@.len() ==> (#[trigger] plan.incoming@[i]).coordinate.x + DUMMY_NODE_WIDTH <= usize::MAX
    &&& forall|i: int| 0 <= i < plan.outgoing@.len() ==> (#[trigger] plan.outgoing@[i]).coordinate.x + DUMMY_NODE_WIDTH <= usize::MAX
}

/// Appends the bend dummies for the ports of `ordered` that need one.
fn push_steps(steps: &mut Vec<BendDummyStep>, ordered: &Vec<PortInfo>, top: bool, barrier: Option<BarrierInfo>, n_id: NodeId,
    from: PoolAndLane, width: usize)
    requires
        width <= DUMMY_NODE_WIDTH,
        forall|i: int| 0 <= i < ordered@.len() ==> (#[trigger] ordered@[i]).coordinate.x + DUMMY_NODE_WIDTH <= usize::MAX,
    ensures
        final(steps)@ == old(steps)@ + steps_of(ordered@, top, barrier, n_id, from, width),
{
    let ghost start = steps@;
    let mut i: usize = 0;
    assert(ordered@.take(0) =~= Seq::<PortInfo>::empty());
    assert(start + Seq::<BendDummyStep>::empty() =~= start);
    while i < ordered.len()
        invariant
            0 <= i <= ordered@.len(),
            width <= DUMMY_NODE_WIDTH,
            forall|k: int| 0 <= k < ordered@.len() ==> (#[trigger] ordered@[k]).coordinate.x + DUMMY_NODE_WIDTH <= usize::MAX,
            steps@ == start + steps_of(ordered@.take(i as int), top, barrier, n_id, from, width),
        decreases ordered@.len() - i,
    {
        let p = ordered[i];
        assert(ordered@.take(i + 1).drop_last() =~= ordered@.take(i as int));
        assert(ordered@.take(i + 1).last() == p);
        if p.requires_bend_dummy {
            let pl = match barrier {
                Some(b) => if top { lane_max_exec(p.other_pool_lane, b.pool_and_lane) } else { lane_min_exec(p.other_pool_lane, b.pool_and_lane) },
                None => p.other_pool_lane,
            };
            let place = if from.pool.0 == pl.pool.0 && from.lane.0 == pl.lane.0 {
                if top { PlaceForBendDummy::Above(n_id) } else { PlaceForBendDummy::Below(n_id) }
            } else {
                if top { PlaceForBendDummy::AtTheBottom } else { PlaceForBendDummy::AtTheTop }
            };
            let x = p.coordinate.x + DUMMY_NODE_WIDTH / 2 - width / 2;
            steps.push(BendDummyStep { edge_id: p.edge_id, pool_and_lane: pl, place, relative_port_x: x });
            assert(steps@ =~= start + steps_of(ordered@.take(i + 1), top, barrier, n_id, from, width));
        } else {
            assert(steps@ =~= start + steps_of(ordered@.take(i + 1), top, barrier, n_id, from, width));
        }
        i = i + 1;
    }
    assert(ordered@.take(i as int) =~= ordered@);
}

/// All bend dummies of a node in lane `from` and `layer` and of width `width` (see `bend_steps`).
pub fn plan_bend_dummies(plan: &PortPlan, n_id: NodeId, from: PoolAndLane, layer: LayerId, width: usize) -> (r: Vec<BendDummyStep>)
    requires
        refs_valid(*plan, plan.top@),
        refs_valid(*plan, plan.bottom@),
        coordinates_fit(*plan),
        width <= DUMMY_NODE_WIDTH,
    ensures
        r@ == bend_steps(*plan, n_id, from, layer, width),
{
    let top = ordered_ports(plan, &plan.top, layer);
    let bottom = ordered_ports(plan, &plan.bottom, layer);
    proof {
        assert forall|k: int| 0 <= k < top@.len() implies (#[trigger] top@[k]).coordinate.x + DUMMY_NODE_WIDTH <= usize::MAX by {
            let ports = ports_at(*plan, plan.top@);
            let kk = turn_point(ports, layer);
            lemma_turn_point_bound(ports, layer);
            let idx = if k < kk { kk - 1 - k } else { k };
            assert(top@[k] == ports[idx]);
            assert(refs_valid(*plan, plan.top@));
            let r = plan.top@[idx];
            if r.0 { assert(plan.incoming@[r.1 as int] == ports[idx]); } else { assert(plan.outgoing@[r.1 as int] == ports[idx]); }
        }
        assert forall|k: int| 0 <= k < bottom@.len() implies (#[trigger] bottom@[k]).coordinate.x + DUMMY_NODE_WIDTH <= usize::MAX by {
            let ports = ports_at(*plan, plan.bottom@);
            let kk = turn_point(ports, layer);
            lemma_turn_point_bound(ports, layer);
            let idx = if k < kk { kk - 1 - k } else { k };
            assert(bottom@[k] == ports[idx]);
            let r = plan.bottom@[idx];
            if r.0 { assert(plan.incoming@[r.1 as int] == ports[idx]); } else { assert(plan.outgoing@[r.1 as int] == ports[idx]); }
        }
    }
    let mut steps: Vec<BendDummyStep> = Vec::new();
    push_steps(&mut steps, &top, true, plan.top_barrier, n_id, from, width);
    push_steps(&mut steps, &bottom, false, plan.bottom_barrier, n_id, from, width);
    assert(steps@ =~= bend_steps(*plan, n_id, from, layer, width));
    steps
}

/// Every edge joins existing nodes, and a dummy edge belongs to an existing edge that has been
/// replaced by dummies.
pub open spec fn edges_sane(g: Graph) -> bool {
    forall|k: int| 0 <= k < g.edges@.len() ==> {
        let e = #[trigger] g.edges@[k];
        &&& e.from.0 < g.nodes@.len()
        &&& e.to.0 < g.nodes@.len()
        &&& e.edge_type is DummyEdge ==> e.edge_type->DummyEdge_original_edge.0 < g.edges@.len()
            && g.edges@[e.edge_type->DummyEdge_original_edge.0 as int].edge_type is ReplacedByDummies
    }
}

/// Adding a bend dummy keeps the edges sane and leaves every other edge that was not replaced by
/// dummies as it was.
pub proof fn lemma_edges_stay_sane(g0: Graph, g1: Graph, edge_id: crate::ids::EdgeId, pl: PoolAndLane, layer: LayerId,
    place: PlaceForBendDummy, reference_node: NodeId, x: usize, kind: BendDummyKind, r: NodeId)
    requires
        edges_sane(g0),
        bend_dummy_ok(g0, edge_id, pl, layer, place),
        bend_dummy_added(g0, g1, edge_id, pl, layer, place, reference_node, x, kind, r),
    ensures
        edges_sane(g1),
        g1.edges@.len() <= g0.edges@.len() + 2,
        forall|k: int| 0 <= k < g0.edges@.len() && k != edge_id.0 && !(g0.edges@[k].edge_type is ReplacedByDummies)
            ==> #[trigger] g1.edges@[k] == g0.edges@[k],
{
    let e = g0.edges@[edge_id.0 as int];
    let m = g0.edges@.len() as int;
    assert forall|k: int| 0 <= k < g1.edges@.len() implies {
        let f = #[trigger] g1.edges@[k];
        &&& f.from.0 < g1.nodes@.len()
        &&& f.to.0 < g1.nodes@.len()
        &&& f.edge_type is DummyEdge ==> f.edge_type->DummyEdge_original_edge.0 < g1.edges@.len()
            && g1.edges@[f.edge_type->DummyEdge_original_edge.0 as int].edge_type is ReplacedByDummies
    } by {
        if k < m {
            let f0 = g0.edges@[k];
            assert(f0.from.0 < g0.nodes@.len() && f0.to.0 < g0.nodes@.len());
            if f0.edge_type is DummyEdge {
                let q = f0.edge_type->DummyEdge_original_edge.0 as int;
                assert(g0.edges@[q].edge_type is ReplacedByDummies);
            }
        }
    }
}

/// A bend dummy placed next to a node is placed next to node `n_id` itself.
pub open spec fn next_to(s: BendDummyStep, n_id: NodeId) -> bool {
    &&& s.place matches PlaceForBendDummy::Above(x) ==> x == n_id
    &&& s.place matches PlaceForBendDummy::Below(x) ==> x == n_id
}

proof fn lemma_steps_next_to(ordered: Seq<PortInfo>, top: bool, barrier: Option<BarrierInfo>, n_id: NodeId, from: PoolAndLane, width: usize)
    ensures
        forall|i: int| 0 <= i < steps_of(ordered, top, barrier, n_id, from, width).len()
            ==> next_to(#[trigger] steps_of(ordered, top, barrier, n_id, from, width)[i], n_id),
    decreases ordered.len(),
{
    if ordered.len() > 0 {
        let rest = steps_of(ordered.drop_last(), top, barrier, n_id, from, width);
        lemma_steps_next_to(ordered.drop_last(), top, barrier, n_id, from, width);
        let all = steps_of(ordered, top, barrier, n_id, from, width);
        assert forall|i: int| 0 <= i < all.len() implies next_to(#[trigger] all[i], n_id) by {
            if i < rest.len() {
                assert(all[i] == rest[i]);
            } else {
                assert(all[i] == step_for(ordered.last(), top, barrier, n_id, from, width));
            }
        }
    }
}

proof fn lemma_node_steps_next_to(g: Graph, n_id: NodeId, plan: PortPlan)
    ensures
        forall|i: int| 0 <= i < node_steps(g, n_id, plan).len() ==> next_to(#[trigger] node_steps(g, n_id, plan)[i], n_id),
{
    let n = g.nodes@[n_id.0 as int];
    let a = steps_of(dummy_order(ports_at(plan, plan.top@), n.layer_id), true, plan.top_barrier, n_id, pl_of(n), n.width);
    let b = steps_of(dummy_order(ports_at(plan, plan.bottom@), n.layer_id), false, plan.bottom_barrier, n_id, pl_of(n), n.width);
    lemma_steps_next_to(dummy_order(ports_at(plan, plan.top@), n.layer_id), true, plan.top_barrier, n_id, pl_of(n), n.width);
    lemma_steps_next_to(dummy_order(ports_at(plan, plan.bottom@), n.layer_id), false, plan.bottom_barrier, n_id, pl_of(n), n.width);
    assert forall|i: int| 0 <= i < node_steps(g, n_id, plan).len() implies next_to(#[trigger] node_steps(g, n_id, plan)[i], n_id) by {
        if i < a.len() {
            assert(node_steps(g, n_id, plan)[i] == a[i]);
        } else {
            assert(node_steps(g, n_id, plan)[i] == b[i - a.len()]);
        }
    }
}

/// The graph reached after `i` bend dummies is ready for the next one.
proof fn lemma_step_ready(g0: Graph, g: Graph, n_id: NodeId, plan: PortPlan, i: int)
    requires
        placement_ok(g0, n_id, plan),
        0 <= i < node_steps(g0, n_id, plan).len(),
        g.nodes@.len() == g0.nodes@.len() + i,
        g0.edges@.len() <= g.edges@.len() <= g0.edges@.len() + 2 * i,
        links_consistent(g.nodes@),
        lanes_reference_nodes(g.pools@, g.nodes@.len() as int),
        edges_sane(g),
        g.pools@.len() == g0.pools@.len(),
        forall|p: int| 0 <= p < g0.pools@.len() ==> (#[trigger] g.pools@[p]).lanes@.len() == g0.pools@[p].lanes@.len(),
        !(g.edges@[node_steps(g0, n_id, plan)[i].edge_id.0 as int].edge_type is ReplacedByDummies),
    ensures
        ({
            let s = node_steps(g0, n_id, plan)[i];
            bend_dummy_ok(g, s.edge_id, s.pool_and_lane, g0.nodes@[n_id.0 as int].layer_id, s.place)
        }),
{
    let s = node_steps(g0, n_id, plan)[i];
    lemma_node_steps_next_to(g0, n_id, plan);
    assert(next_to(s, n_id));
    assert(s.edge_id.0 < g0.edges@.len());
    let e = g.edges@[s.edge_id.0 as int];
    assert(e.from.0 < g.nodes@.len() && e.to.0 < g.nodes@.len());
    assert(g.pools@[s.pool_and_lane.pool.0 as int].lanes@.len() == g0.pools@[s.pool_and_lane.pool.0 as int].lanes@.len());
    let n = n_id.0 as int;
    assert(g.nodes@[n].node_above_in_same_lane matches Some(a) ==> a.0 < g.nodes@.len()
        && g.nodes@[a.0 as int].node_below_in_same_lane == Some(n_id));
    assert(g.nodes@[n].node_below_in_same_lane matches Some(b) ==> b.0 < g.nodes@.len()
        && g.nodes@[b.0 as int].node_above_in_same_lane == Some(n_id));
}

/// `gs` runs from its first graph through one added bend dummy per step, each of node `n_id`
/// in `layer`, the `i`-th getting the next free node id.
pub open spec fn dummies_chained(gs: Seq<Graph>, steps: Seq<BendDummyStep>, n_id: NodeId, layer: LayerId) -> bool {
    &&& gs.len() == steps.len() + 1
    &&& forall|i: int| 0 <= i < steps.len() ==> bend_dummy_added(#[trigger] gs[i], gs[i + 1], steps[i].edge_id,
        steps[i].pool_and_lane, layer, steps[i].place, n_id, steps[i].relative_port_x, BendDummyKind::FromBoundaryEvent,
        NodeId((gs[0].nodes@.len() + i) as usize))
}

/// `g1` is `g0` with the coordinates of the plan's ports written into node `n_id`.
pub open spec fn ports_written(g0: Graph, g1: Graph, n_id: NodeId, plan: PortPlan) -> bool {
    let n = n_id.0 as int;
    &&& g1 == (Graph { nodes: g1.nodes, ..g0 })
    &&& g1.nodes@.len() == g0.nodes@.len()
    &&& forall|i: int| 0 <= i < g0.nodes@.len() && i != n ==> #[trigger] g1.nodes@[i] == g0.nodes@[i]
    &&& g1.nodes@[n] == (Node { incoming_ports: g1.nodes@[n].incoming_ports, outgoing_ports: g1.nodes@[n].outgoing_ports, ..g0.nodes@[n] })
    &&& g1.nodes@[n].incoming_ports@ == plan.incoming@.map_values(|p: PortInfo| p.coordinate)
    &&& g1.nodes@[n].outgoing_ports@ == plan.outgoing@.map_values(|p: PortInfo| p.coordinate)
}

/// The bend dummies that node `n_id` of `g` needs by `plan`.
pub open spec fn node_steps(g: Graph, n_id: NodeId, plan: PortPlan) -> Seq<BendDummyStep> {
    let n = g.nodes@[n_id.0 as int];
    bend_steps(plan, n_id, pl_of(n), n.layer_id, n.width)
}

/// What placing the plan of node `n_id` needs: the node exists and is no wider than a bend dummy,
/// the plan's references and coordinates are in range, the lane links, lanes and edges of the
/// graph are consistent, each bend dummy's edge exists, is not replaced by dummies and is split
/// only once, each bend dummy's lane exists, and the ids of the new nodes and edges fit.
pub open spec fn placement_ok(g: Graph, n_id: NodeId, plan: PortPlan) -> bool {
    let n = g.nodes@[n_id.0 as int];
    let steps = node_steps(g, n_id, plan);
    &&& n_id.0 < g.nodes@.len()
    &&& n.width <= DUMMY_NODE_WIDTH
    &&& refs_valid(plan, plan.top@)
    &&& refs_valid(plan, plan.bottom@)
    &&& coordinates_fit(plan)
    &&& links_consistent(g.nodes@)
    &&& lanes_reference_nodes(g.pools@, g.nodes@.len() as int)
    &&& edges_sane(g)
    &&& forall|i: int| 0 <= i < steps.len() ==> {
        let s = #[trigger] steps[i];
        &&& s.edge_id.0 < g.edges@.len()
        &&& !(g.edges@[s.edge_id.0 as int].edge_type is ReplacedByDummies)
        &&& s.pool_and_lane.pool.0 < g.pools@.len()
        &&& s.pool_and_lane.lane.0 < g.pools@[s.pool_and_lane.pool.0 as int].lanes@.len()
    }
    &&& forall|i: int, j: int| 0 <= i < j < steps.len() ==> #[trigger] steps[i].edge_id != #[trigger] steps[j].edge_id
    &&& g.nodes@.len() + steps.len() < usize::MAX
    &&& g.edges@.len() + 2 * steps.len() + 2 <= usize::MAX
}

/// Phase three of the port assignment of node `n_id`: adds the bend dummies that `plan` asks for
/// (see `bend_steps`), one after the other, then writes the coordinates of the plan's ports into
/// the node.
#[verifier::rlimit(50)]
pub fn place_ports_and_bend_dummies(graph: &mut Graph, n_id: NodeId, plan: &PortPlan)
    requires
        placement_ok(*old(graph), n_id, *plan),
    ensures
        exists|gs: Seq<Graph>| gs[0] == *old(graph)
            && dummies_chained(gs, node_steps(*old(graph), n_id, *plan), n_id, old(graph).nodes@[n_id.0 as int].layer_id)
            && ports_written(gs.last(), *final(graph), n_id, *plan),
        links_consistent(final(graph).nodes@),
        edges_sane(*final(graph)),
{
    let ghost g0 = *graph;
    let n = &graph.nodes[n_id.0];
    let from = PoolAndLane { pool: n.pool, lane: n.lane };
    let layer = n.layer_id;
    let width = n.width;
    let steps = plan_bend_dummies(plan, n_id, from, layer, width);
    assert(steps@ == node_steps(g0, n_id, *plan));
    let ghost mut gs = seq![g0];
    let mut i: usize = 0;
    while i < steps.len()
        invariant
            0 <= i <= steps@.len(),
            steps@ == node_steps(g0, n_id, *plan),
            placement_ok(g0, n_id, *plan),
            layer == g0.nodes@[n_id.0 as int].layer_id,
            gs.len() == i + 1,
            gs[0] == g0,
            gs.last() == *graph,
            forall|k: int| 0 <= k < i ==> bend_dummy_added(#[trigger] gs[k], gs[k + 1], steps@[k].edge_id,
                steps@[k].pool_and_lane, layer, steps@[k].place, n_id, steps@[k].relative_port_x, BendDummyKind::FromBoundaryEvent,
                NodeId((gs[0].nodes@.len() + k) as usize)),
            graph.nodes@.len() == g0.nodes@.len() + i,
            g0.edges@.len() <= graph.edges@.len() <= g0.edges@.len() + 2 * i,
            links_consistent(graph.nodes@),
            lanes_reference_nodes(graph.pools@, graph.nodes@.len() as int),
            edges_sane(*graph),
            graph.pools@.len() == g0.pools@.len(),
            forall|p: int| 0 <= p < g0.pools@.len() ==> (#[trigger] graph.pools@[p]).lanes@.len() == g0.pools@[p].lanes@.len(),
            forall|j: int| i <= j < steps@.len() ==> !(graph.edges@[(#[trigger] steps@[j]).edge_id.0 as int].edge_type is ReplacedByDummies),
        decreases steps@.len() - i,
    {
        let s = steps[i];
        assert(steps@[i as int] == s);
        proof {
            lemma_step_ready(g0, *graph, n_id, *plan, i as int);
        }
        let ghost before = *graph;
        let r = add_bend_dummy_node(graph, s.edge_id, s.pool_and_lane, layer, s.place, n_id, s.relative_port_x, BendDummyKind::FromBoundaryEvent);
        proof {
            lemma_edges_stay_sane(before, *graph, s.edge_id, s.pool_and_lane, layer, s.place, n_id, s.relative_port_x,
                BendDummyKind::FromBoundaryEvent, r);
            let pl = s.pool_and_lane;
            assert forall|p: int| 0 <= p < g0.pools@.len() implies (#[trigger] graph.pools@[p]).lanes@.len() == g0.pools@[p].lanes@.len() by {
                if p != pl.pool.0 {
                    assert(graph.pools@[p] == before.pools@[p]);
                }
            }
            assert forall|j: int| i + 1 <= j < steps@.len() implies !(graph.edges@[(#[trigger] steps@[j]).edge_id.0 as int].edge_type is ReplacedByDummies) by {
                assert(steps@[j].edge_id != steps@[i as int].edge_id);
                assert(steps@[j].edge_id.0 < g0.edges@.len());
            }
            gs = gs.push(*graph);
            assert forall|k: int| 0 <= k < i + 1 implies bend_dummy_added(#[trigger] gs[k], gs[k + 1], steps@[k].edge_id,
                steps@[k].pool_and_lane, layer, steps@[k].place, n_id, steps@[k].relative_port_x, BendDummyKind::FromBoundaryEvent,
                NodeId((gs[0].nodes@.len() + k) as usize)) by {
                if k < i {
                    assert(gs[k] == gs.drop_last()[k] && gs[k + 1] == gs.drop_last()[k + 1]);
                }
            }
        }
        i = i + 1;
    }
    let ghost ga = *graph;
    let mut ins: Vec<crate::ids::RelativePort> = Vec::new();
    let mut k: usize = 0;
    while k < plan.incoming.len()
        invariant
            0 <= k <= plan.incoming@.len(),
            ins@ =~= plan.incoming@.take(k as int).map_values(|p: PortInfo| p.coordinate),
        decreases plan.incoming@.len() - k,
    {
        ins.push(plan.incoming[k].coordinate);
        k = k + 1;
    }
    let mut outs: Vec<crate::ids::RelativePort> = Vec::new();
    let mut k: usize = 0;
    while k < plan.outgoing.len()
        invariant
            0 <= k <= plan.outgoing@.len(),
            outs@ =~= plan.outgoing@.take(k as int).map_values(|p: PortInfo| p.coordinate),
        decreases plan.outgoing@.len() - k,
    {
        outs.push(plan.outgoing[k].coordinate);
        k = k + 1;
    }
    assert(plan.incoming@.take(plan.incoming@.len() as int) =~= plan.incoming@);
    assert(plan.outgoing@.take(plan.outgoing@.len() as int) =~= plan.outgoing@);
    graph.nodes[n_id.0].incoming_ports = ins;
    graph.nodes[n_id.0].outgoing_ports = outs;
    proof {
        assert(ports_written(ga, *graph, n_id, *plan));
        assert(links_consistent(graph.nodes@)) by {
            assert forall|j: int| 0 <= j < graph.nodes@.len() implies #[trigger] graph.nodes@[j].node_above_in_same_lane == ga.nodes@[j].node_above_in_same_lane
                && graph.nodes@[j].node_below_in_same_lane == ga.nodes@[j].node_below_in_same_lane by {}
        }
        assert(dummies_chained(gs, node_steps(g0, n_id, *plan), n_id, g0.nodes@[n_id.0 as int].layer_id));
    }
}

} // verus!
