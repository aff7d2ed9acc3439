//! Port assignment of a gateway with several flows on one side: each of those edges is split at a
//! new bend dummy in the gateway's layer. Going down the lanes from the previous dummy (or the
//! barrier above), the dummy is pushed as far as it can go without more edge crossings, counted
//! against the order of the other ends in their layer, and never past the lane of the other end.
use vstd::prelude::*;
use crate::bend_dummy::{add_bend_dummy_node, bend_dummy_added, bend_dummy_ok, pl_of};
use crate::graph::{lanes_reference_nodes, BendDummyKind, EdgeType, Graph, NodeType, DUMMY_NODE_WIDTH};
use crate::ids::{pool_and_lane_lt, Coord3, EdgeId, LayerId, NodeId, PoolAndLane, RelativePort};
use crate::layer_walk::{checked_pool_walk, StartAt};
use crate::port_assignment::{all_exist, first_blocking, maybe_update_best_position, PlaceForBendDummy};
use crate::port_placement::lane_max;

verus! {

/// The edges on the outgoing (`outgoing`) or incoming side of node `n`.
pub open spec fn side_edges(g: Graph, n: NodeId, outgoing: bool) -> Seq<EdgeId> {
    if outgoing { g.nodes@[n.0 as int].outgoing@ } else { g.nodes@[n.0 as int].incoming@ }
}

/// The node at the other end of edge `e`, seen from the outgoing (`outgoing`) or incoming side.
pub open spec fn far_end(g: Graph, e: EdgeId, outgoing: bool) -> NodeId {
    if outgoing { g.edges@[e.0 as int].to } else { g.edges@[e.0 as int].from }
}

/// A walk within one pool that is allowed, ends, and meets only existing nodes.
pub open spec fn checked_walk(g: Graph, start: StartAt, fin: Option<PoolAndLane>, down: bool) -> Option<Seq<NodeId>> {
    match checked_pool_walk(g, start, fin, down) {
        Some(s) => if all_exist(g, s) { Some(s) } else { None },
        None => None,
    }
}

/// How many nodes of `s` come before the first that is `stop`.
pub open spec fn until_len(s: Seq<NodeId>, stop: Option<NodeId>) -> int
    decreases s.len(),
{
    if s.len() == 0 {
        0
    } else if stop == Some(s[0]) {
        0
    } else {
        1 + until_len(s.drop_first(), stop)
    }
}

/// What a walk down the lanes looks at: its nodes before the bottom barrier, then the barrier
/// (or nothing, if there is none).
pub open spec fn scan_items(walk: Seq<NodeId>, barrier: Option<NodeId>) -> Seq<Option<NodeId>> {
    Seq::new(until_len(walk, barrier) as nat, |i: int| Some(walk[i])).push(barrier)
}

/// A position for a bend dummy: whether it is above the gateway, its lane, its place in the lane
/// and its crossing number (lower is better).
pub type Pos = (bool, PoolAndLane, PlaceForBendDummy, int);

/// The other end of the first edge of node `c` on the same side, if that edge exists.
pub open spec fn crossing_other(g: Graph, c: NodeId, outgoing: bool) -> Option<NodeId> {
    let es = side_edges(g, c, outgoing);
    if es.len() == 0 || es[0].0 >= g.edges@.len() { None } else { Some(far_end(g, es[0], outgoing)) }
}

/// The walk down the lanes for the edge to `o` (in lane `opl`): a node in a lane below `opl`, or
/// the end, stops it (moving the position into `opl` if it is still above); each node's lane
/// pulls the position down to that lane; the bottom barrier stops it; passing the gateway `n`
/// itself means being below it; crossing another node's edge counts one crossing less when that
/// edge's other end is above `o` (in `above`) and one more when it is below, and the position
/// moves below that node when this is no worse (above the gateway) or strictly better (below).
/// `None` where a crossed node has no edge on that side.
pub open spec fn scan_positions(g: Graph, items: Seq<Option<NodeId>>, n: NodeId, outgoing: bool, o: NodeId, opl: PoolAndLane,
    above: Set<NodeId>, is_above_gw: bool, barrier: Option<NodeId>, best: Pos, cn: int, local: bool) -> Option<Pos>
    decreases items.len(),
{
    if items.len() == 0 {
        Some(best)
    } else if items[0] is Some && !pool_and_lane_lt(opl, pl_of(g.nodes@[(items[0]->0).0 as int])) {
        let c = items[0]->0;
        let cpl = pl_of(g.nodes@[c.0 as int]);
        let b1 = if pool_and_lane_lt(best.1, cpl) { (local, cpl, PlaceForBendDummy::AtTheTop, cn) } else { best };
        if barrier == Some(c) {
            Some(b1)
        } else if c == n {
            scan_positions(g, items.drop_first(), n, outgoing, o, opl, above, is_above_gw, barrier, b1, cn, false)
        } else {
            match crossing_other(g, c, outgoing) {
                None => None,
                Some(co) => {
                    let cn1 = if above.contains(co) { cn - 1 } else if co != o { cn + 1 } else { cn };
                    let b2 = if (is_above_gw && cn1 <= b1.3) || (!is_above_gw && cn1 < b1.3) {
                        (local, cpl, PlaceForBendDummy::Below(c), cn1)
                    } else {
                        b1
                    };
                    scan_positions(g, items.drop_first(), n, outgoing, o, opl, above, is_above_gw, barrier, b2, cn1, local)
                },
            }
        }
    } else {
        Some(if pool_and_lane_lt(best.1, opl) { (local, opl, PlaceForBendDummy::AtTheTop, cn) } else { best })
    }
}

/// The lane of the other end of the first (`first`) or last edge of the side.
pub open spec fn end_lane(g: Graph, n: NodeId, outgoing: bool, first: bool) -> PoolAndLane {
    let es = side_edges(g, n, outgoing);
    pl_of(g.nodes@[far_end(g, if first { es[0] } else { es.last() }, outgoing).0 as int])
}

/// The decision for edge `e` on graph `g`, given the barrier above (`top`, the previous dummy
/// once there is one), the nodes known to lie above the previous other end (`above`), whether the
/// previous dummy was above the gateway, and the previous other end: the other end `o`, the
/// nodes above `o`, and the position of the bend dummy. `None` where an edge, node or walk that
/// the decision needs is missing, or the walk is too long to count crossings in an `i32`.
pub open spec fn edge_plan(g: Graph, n: NodeId, outgoing: bool, this_pl: PoolAndLane, this_layer: LayerId, top_most: PoolAndLane,
    bottom_most: PoolAndLane, barrier: Option<NodeId>, e: EdgeId, top: Option<NodeId>, above: Set<NodeId>, is_above: bool,
    prev: Option<NodeId>) -> Option<(NodeId, Set<NodeId>, Pos)> {
    let o = far_end(g, e, outgoing);
    if e.0 >= g.edges@.len() || o.0 >= g.nodes@.len() {
        None
    } else {
        let opl = pl_of(g.nodes@[o.0 as int]);
        let above1 = match prev {
            None => Some(above),
            Some(pv) => match checked_walk(g, StartAt::Node(o), None, false) {
                None => None,
                Some(w) => Some(above + w.take(until_len(w, Some(pv))).to_set() + set![pv]),
            },
        };
        let start = match top {
            Some(t) => if t.0 < g.nodes@.len() {
                Some(((is_above, pl_of(g.nodes@[t.0 as int]), PlaceForBendDummy::Below(t), 0int), StartAt::Node(t)))
            } else {
                None
            },
            None => Some(((is_above, top_most, PlaceForBendDummy::AtTheTop, 0int),
                StartAt::PoolLane(Coord3 { pool_and_lane: top_most, layer: this_layer, half_layer: false }))),
        };
        match (above1, start) {
            (Some(a1), Some((best0, st))) => match checked_walk(g, st, Some(lane_max(this_pl, bottom_most)), true) {
                None => None,
                Some(w) => {
                    let items = scan_items(w, barrier);
                    if items.len() >= 0x7fff_ffff {
                        None
                    } else {
                        match scan_positions(g, items, n, outgoing, o, opl, a1, is_above, barrier, best0, 0, is_above) {
                            None => None,
                            Some(best) => Some((o, a1, best)),
                        }
                    }
                },
            },
            _ => None,
        }
    }
}

/// The kind of the bend dummy for the edge from gateway `n` to `o`: to the gateway's own lane,
/// kept in the gateway's lane by a blocker, or free to leave it.
pub open spec fn gateway_kind(n: NodeId, o: NodeId, this_pl: PoolAndLane, opl: PoolAndLane, dummy_pl: PoolAndLane) -> BendDummyKind {
    if this_pl == opl {
        BendDummyKind::FromGatewayToSameLane { gateway_node: n, target_node: o }
    } else if dummy_pl == this_pl {
        BendDummyKind::FromGatewayBlockedLaneCrossing { gateway_node: n, target_node: o }
    } else {
        BendDummyKind::FromGatewayFreeLaneCrossing { gateway_node: n, target_node: o }
    }
}

/// What is carried from one edge to the next: the barrier above, the nodes above the previous
/// other end, whether the previous dummy was above the gateway, the previous other end, and
/// whether some dummy went into the gateway's own lane.
pub type SideState = (Option<NodeId>, Set<NodeId>, bool, Option<NodeId>, bool);

/// What is fixed before the first edge: the barrier above, the bottom barrier, and the nodes above
/// the first other end. `None` where an edge, node or walk it needs is missing.
pub open spec fn side_start(g: Graph, n: NodeId, outgoing: bool) -> Option<(Option<NodeId>, Option<NodeId>, Set<NodeId>)> {
    let es = side_edges(g, n, outgoing);
    let (f, l) = (far_end(g, es[0], outgoing), far_end(g, es.last(), outgoing));
    if es[0].0 >= g.edges@.len() || es.last().0 >= g.edges@.len() || f.0 >= g.nodes@.len() || l.0 >= g.nodes@.len() {
        None
    } else {
        match (checked_walk(g, StartAt::Node(n), Some(end_lane(g, n, outgoing, true)), false),
            checked_walk(g, StartAt::Node(n), Some(end_lane(g, n, outgoing, false)), true),
            checked_walk(g, StartAt::Node(f), None, false)) {
            (Some(u), Some(d), Some(a)) => Some((first_blocking(g, u), first_blocking(g, d), a.to_set())),
            _ => None,
        }
    }
}

/// One edge `e` handled in the lane `this_pl` and `layer` of gateway `n`: its decision on `g`
/// exists, the bend dummy can be added, `g1` is `g` with it added, and the state moves on.
#[verifier::opaque]
pub open spec fn edge_done(g: Graph, g1: Graph, n: NodeId, outgoing: bool, this_pl: PoolAndLane, layer: LayerId, top_most: PoolAndLane,
    bottom_most: PoolAndLane, barrier: Option<NodeId>, e: EdgeId, st: SideState, st1: SideState) -> bool {
    match edge_plan(g, n, outgoing, this_pl, layer, top_most, bottom_most, barrier, e, st.0, st.1, st.2, st.3) {
        None => false,
        Some((o, a1, best)) => {
            let d = NodeId(g.nodes@.len() as usize);
            &&& bend_dummy_ok(g, e, best.1, layer, best.2)
            &&& bend_dummy_added(g, g1, e, best.1, layer, best.2, n, DUMMY_NODE_WIDTH / 2,
                gateway_kind(n, o, this_pl, pl_of(g.nodes@[o.0 as int]), best.1), d)
            &&& st1 == (Some(d), a1, best.0, Some(o), st.4 || best.1 == this_pl)
        },
    }
}

/// Edge `e` cannot be handled on `g`: its decision is missing or the dummy cannot be added.
#[verifier::opaque]
pub open spec fn edge_blocked(g: Graph, n: NodeId, outgoing: bool, this_pl: PoolAndLane, layer: LayerId, top_most: PoolAndLane,
    bottom_most: PoolAndLane, barrier: Option<NodeId>, e: EdgeId, st: SideState) -> bool {
    match edge_plan(g, n, outgoing, this_pl, layer, top_most, bottom_most, barrier, e, st.0, st.1, st.2, st.3) {
        None => true,
        Some((o, a1, best)) => !bend_dummy_ok(g, e, best.1, layer, best.2),
    }
}

/// `edge_done` for the side of gateway `n` of `g0`.
pub open spec fn side_step(g0: Graph, n: NodeId, outgoing: bool, barrier: Option<NodeId>, g: Graph, g1: Graph, e: EdgeId,
    st: SideState, st1: SideState) -> bool {
    edge_done(g, g1, n, outgoing, pl_of(g0.nodes@[n.0 as int]), g0.nodes@[n.0 as int].layer_id, end_lane(g0, n, outgoing, true),
        end_lane(g0, n, outgoing, false), barrier, e, st, st1)
}

/// `edge_blocked` for the side of gateway `n` of `g0`.
pub open spec fn side_stops(g0: Graph, n: NodeId, outgoing: bool, barrier: Option<NodeId>, g: Graph, e: EdgeId, st: SideState) -> bool {
    edge_blocked(g, n, outgoing, pl_of(g0.nodes@[n.0 as int]), g0.nodes@[n.0 as int].layer_id, end_lane(g0, n, outgoing, true),
        end_lane(g0, n, outgoing, false), barrier, e, st)
}

/// `g1` is `g` with node `n` taken out of its lane's chain: its neighbours above and below are
/// linked to each other, and it has none.
pub open spec fn detached(g: Graph, g1: Graph, n: NodeId) -> bool {
    let a = g.nodes@[n.0 as int].node_above_in_same_lane;
    let b = g.nodes@[n.0 as int].node_below_in_same_lane;
    &&& g1 == (Graph { nodes: g1.nodes, ..g })
    &&& g1.nodes@.len() == g.nodes@.len()
    &&& forall|i: int| 0 <= i < g.nodes@.len() ==> #[trigger] g1.nodes@[i] == (crate::graph::Node {
        node_above_in_same_lane: if b == Some(NodeId(i as usize)) { a } else if i == n.0 { None } else { g.nodes@[i].node_above_in_same_lane },
        node_below_in_same_lane: if a == Some(NodeId(i as usize)) { b } else if i == n.0 { None } else { g.nodes@[i].node_below_in_same_lane },
        ..g.nodes@[i]
    })
}

/// A run over the side's edges from the start state: `gs` are the graphs and `sts` the states,
/// one more than the edges handled; it either stops at an edge that cannot be handled, leaving
/// the graph as it is, or handles every edge and then, if a dummy went into the gateway's own
/// lane, takes the gateway out of its lane's chain.
pub open spec fn side_run(g0: Graph, g1: Graph, n: NodeId, outgoing: bool, top: Option<NodeId>, barrier: Option<NodeId>,
    above: Set<NodeId>, gs: Seq<Graph>, sts: Seq<SideState>) -> bool {
    let es = side_edges(g0, n, outgoing);
    &&& gs.len() == sts.len()
    &&& 1 <= gs.len() <= es.len() + 1
    &&& gs[0] == g0
    &&& sts[0] == (top, above, false, None::<NodeId>, false)
    &&& forall|k: int| 0 <= k < gs.len() - 1 ==> side_step(g0, n, outgoing, barrier, #[trigger] gs[k], gs[k + 1], es[k], sts[k], sts[k + 1])
    &&& if gs.len() - 1 < es.len() {
        side_stops(g0, n, outgoing, barrier, gs.last(), es[gs.len() - 1], sts.last()) && g1 == gs.last()
    } else if sts.last().4 {
        detached(gs.last(), g1, n)
    } else {
        g1 == gs.last()
    }
}

/// The side of gateway `n` handled: nothing changes where what the start needs is missing;
/// otherwise the graph is the end of a run over its edges.
pub open spec fn gateway_side_done(g0: Graph, g1: Graph, n: NodeId, outgoing: bool) -> bool {
    let start = side_start(g0, n, outgoing);
    &&& start is None ==> g1 == g0
    &&& start is Some ==> exists|gs: Seq<Graph>, sts: Seq<SideState>|
        #[trigger] side_run(g0, g1, n, outgoing, (start->0).0, (start->0).1, (start->0).2, gs, sts)
}

fn copy_vec<T: Copy>(v: &Vec<T>) -> (r: Vec<T>)
    ensures
        r@ == v@,
{
    let mut r: Vec<T> = Vec::new();
    let mut i: usize = 0;
    while i < v.len()
        invariant
            0 <= i <= v@.len(),
            r@ == v@.take(i as int),
        decreases v@.len() - i,
    {
        r.push(v[i]);
        assert(v@.take(i + 1) =~= v@.take(i as int).push(v@[i as int]));
        i = i + 1;
    }
    assert(v@.take(i as int) =~= v@);
    r
}

fn contains_id(v: &Vec<NodeId>, x: NodeId) -> (r: bool)
    ensures
        r == v@.contains(x),
{
    let mut i: usize = 0;
    while i < v.len()
        invariant
            0 <= i <= v@.len(),
            forall|j: int| 0 <= j < i ==> v@[j] != x,
        decreases v@.len() - i,
    {
        if v[i].0 == x.0 {
            assert(v@[i as int] == x);
            return true;
        }
        i = i + 1;
    }
    false
}

fn same_id(a: Option<NodeId>, b: Option<NodeId>) -> (r: bool)
    ensures
        r == (a == b),
{
    match (a, b) {
        (Some(x), Some(y)) => x.0 == y.0,
        (None, None) => true,
        _ => false,
    }
}

fn first_blocking_exec(g: &Graph, ids: &Vec<NodeId>) -> (r: Option<NodeId>)
    requires
        all_exist(*g, ids@),
    ensures
        r == first_blocking(*g, ids@),
{
    let mut k: usize = 0;
    assert(ids@.skip(0) =~= ids@);
    while k < ids.len()
        invariant
            0 <= k <= ids@.len(),
            all_exist(*g, ids@),
            first_blocking(*g, ids@) == first_blocking(*g, ids@.skip(k as int)),
        decreases ids@.len() - k,
    {
        let id = ids[k];
        assert(ids@.skip(k as int)[0] == id);
        assert(ids@.skip(k as int).drop_first() =~= ids@.skip(k + 1));
        assert(id.0 < g.nodes@.len());
        match g.nodes[id.0].node_type {
            NodeType::LongEdgeDummy => {},
            _ => {
                return Some(id);
            },
        }
        k = k + 1;
    }
    assert(ids@.skip(k as int).len() == 0);
    None
}

fn checked_walk_exec(g: &Graph, start: StartAt, fin: Option<PoolAndLane>, down: bool) -> (r: Option<Vec<NodeId>>)
    requires
        lanes_reference_nodes(g.pools@, g.nodes@.len() as int),
    ensures
        match r {
            Some(v) => checked_walk(*g, start, fin, down) == Some(v@),
            None => checked_walk(*g, start, fin, down) is None,
        },
{
    match g.try_walk_same_pool(start, fin, down) {
        None => None,
        Some(w) => {
            let mut i: usize = 0;
            while i < w.len()
                invariant
                    0 <= i <= w@.len(),
                    checked_pool_walk(*g, start, fin, down) == Some(w@),
                    forall|j: int| 0 <= j < i ==> (#[trigger] w@[j]).0 < g.nodes@.len(),
                decreases w@.len() - i,
            {
                if w[i].0 >= g.nodes.len() {
                    assert(!((w@[i as int]).0 < g.nodes@.len()));
                    assert(!all_exist(*g, w@));
                    assert(checked_pool_walk(*g, start, fin, down) == Some(w@));
                    assert(checked_walk(*g, start, fin, down) is None);
                    return None;
                }
                i = i + 1;
            }
            Some(w)
        },
    }
}

proof fn lemma_until_len(s: Seq<NodeId>, stop: Option<NodeId>)
    ensures
        0 <= until_len(s, stop) <= s.len(),
        until_len(s, stop) < s.len() ==> stop == Some(s[until_len(s, stop)]),
        forall|j: int| 0 <= j < until_len(s, stop) ==> stop != Some(#[trigger] s[j]),
    decreases s.len(),
{
    if s.len() > 0 && stop != Some(s[0]) {
        lemma_until_len(s.drop_first(), stop);
        assert forall|j: int| 0 <= j < until_len(s, stop) implies stop != Some(#[trigger] s[j]) by {
            if j > 0 {
                assert(s[j] == s.drop_first()[j - 1]);
            }
        }
    }
}

fn until_len_exec(s: &Vec<NodeId>, stop: Option<NodeId>) -> (r: usize)
    ensures
        r == until_len(s@, stop),
{
    let mut k: usize = 0;
    assert(s@.skip(0) =~= s@);
    while k < s.len()
        invariant
            0 <= k <= s@.len(),
            until_len(s@, stop) == k + until_len(s@.skip(k as int), stop),
        decreases s@.len() - k,
    {
        assert(s@.skip(k as int)[0] == s@[k as int]);
        assert(s@.skip(k as int).drop_first() =~= s@.skip(k + 1));
        if same_id(stop, Some(s[k])) {
            return k;
        }
        k = k + 1;
    }
    k
}

fn scan_items_exec(walk: &Vec<NodeId>, barrier: Option<NodeId>) -> (r: Vec<Option<NodeId>>)
    ensures
        r@ == scan_items(walk@, barrier),
{
    let k = until_len_exec(walk, barrier);
    proof {
        lemma_until_len(walk@, barrier);
    }
    let mut r: Vec<Option<NodeId>> = Vec::new();
    let mut i: usize = 0;
    while i < k
        invariant
            0 <= i <= k,
            k <= walk@.len(),
            r@ =~= Seq::new(i as nat, |j: int| Some(walk@[j])),
        decreases k - i,
    {
        r.push(Some(walk[i]));
        i = i + 1;
    }
    r.push(barrier);
    r
}

pub open spec fn to_pos(b: (bool, PoolAndLane, PlaceForBendDummy, i32)) -> Pos {
    (b.0, b.1, b.2, b.3 as int)
}

/// The walk down the lanes of `scan_positions`, from `best0` with crossing number 0.
fn scan_exec(g: &Graph, items: &Vec<Option<NodeId>>, n: NodeId, outgoing: bool, o: NodeId, opl: PoolAndLane, above: &Vec<NodeId>,
    is_above_gw: bool, barrier: Option<NodeId>, best0: (bool, PoolAndLane, PlaceForBendDummy, i32)) -> (r: Option<(bool, PoolAndLane, PlaceForBendDummy, i32)>)
    requires
        items@.len() < 0x7fff_ffff,
        forall|k: int| 0 <= k < items@.len() ==> (#[trigger] items@[k] matches Some(c) ==> c.0 < g.nodes@.len()),
        best0.3 == 0,
    ensures
        match r {
            Some(b) => scan_positions(*g, items@, n, outgoing, o, opl, above@.to_set(), is_above_gw, barrier, to_pos(best0), 0, is_above_gw) == Some(to_pos(b)),
            None => scan_positions(*g, items@, n, outgoing, o, opl, above@.to_set(), is_above_gw, barrier, to_pos(best0), 0, is_above_gw) is None,
        },
{
    let ghost a = above@.to_set();
    let ghost total = scan_positions(*g, items@, n, outgoing, o, opl, a, is_above_gw, barrier, to_pos(best0), 0, is_above_gw);
    let mut best = best0;
    let mut cn: i32 = 0;
    let mut local = is_above_gw;
    let mut i: usize = 0;
    assert(items@.skip(0) =~= items@);
    while i < items.len()
        invariant
            0 <= i <= items@.len(),
            items@.len() < 0x7fff_ffff,
            forall|k: int| 0 <= k < items@.len() ==> (#[trigger] items@[k] matches Some(c) ==> c.0 < g.nodes@.len()),
            -(i as int) <= cn <= i,
            -(i as int) <= best.3 <= i,
            a == above@.to_set(),
            total == scan_positions(*g, items@, n, outgoing, o, opl, a, is_above_gw, barrier, to_pos(best0), 0, is_above_gw),
            total == scan_positions(*g, items@.skip(i as int), n, outgoing, o, opl, a, is_above_gw, barrier, to_pos(best), cn as int, local),
        decreases items@.len() - i,
    {
        let ghost rest = items@.skip(i as int);
        assert(rest[0] == items@[i as int]);
        assert(rest.drop_first() =~= items@.skip(i + 1));
        let item = items[i];
        let c = match item {
            Some(c) => c,
            None => {
                let r = if best.1.less_than(&opl) { (local, opl, PlaceForBendDummy::AtTheTop, cn) } else { best };
                return Some(r);
            },
        };
        assert(c.0 < g.nodes@.len());
        let cpl = g.nodes[c.0].pool_and_lane();
        if opl.less_than(&cpl) {
            let r = if best.1.less_than(&opl) { (local, opl, PlaceForBendDummy::AtTheTop, cn) } else { best };
            return Some(r);
        }
        if best.1.less_than(&cpl) {
            best = (local, cpl, PlaceForBendDummy::AtTheTop, cn);
        }
        if same_id(barrier, Some(c)) {
            return Some(best);
        }
        if c.0 == n.0 {
            assert(c == n);
            local = false;
        } else {
            let es = if outgoing { &g.nodes[c.0].outgoing } else { &g.nodes[c.0].incoming };
            if es.len() == 0 || es[0].0 >= g.edges.len() {
                return None;
            }
            let co = if outgoing { g.edges[es[0].0].to } else { g.edges[es[0].0].from };
            assert(crossing_other(*g, c, outgoing) == Some(co));
            if contains_id(above, co) {
                cn = cn - 1;
            } else if co.0 != o.0 {
                cn = cn + 1;
            }
            maybe_update_best_position(&mut best, (local, cpl, PlaceForBendDummy::Below(c), cn), is_above_gw);
        }
        i = i + 1;
    }
    assert(items@.skip(i as int).len() == 0);
    Some(best)
}

/// `above` extended by the nodes of `w` before `stop`, and by `stop`.
fn extend_above(above: &Vec<NodeId>, w: &Vec<NodeId>, stop: NodeId) -> (r: Vec<NodeId>)
    ensures
        r@.to_set() == above@.to_set() + w@.take(until_len(w@, Some(stop))).to_set() + set![stop],
{
    let k = until_len_exec(w, Some(stop));
    proof {
        lemma_until_len(w@, Some(stop));
    }
    let mut v = copy_vec(above);
    let mut j: usize = 0;
    assert(w@.take(0).to_set() =~= Set::<NodeId>::empty());
    assert(v@.to_set() =~= above@.to_set() + w@.take(0).to_set());
    while j < k
        invariant
            0 <= j <= k,
            k <= w@.len(),
            v@.to_set() == above@.to_set() + w@.take(j as int).to_set(),
        decreases k - j,
    {
        let ghost before = v@;
        v.push(w[j]);
        proof {
            before.lemma_push_to_set_commute(w@[j as int]);
            assert(w@.take(j + 1) =~= w@.take(j as int).push(w@[j as int]));
            w@.take(j as int).lemma_push_to_set_commute(w@[j as int]);
            assert(v@.to_set() =~= above@.to_set() + w@.take(j + 1).to_set());
        }
        j = j + 1;
    }
    let ghost before = v@;
    v.push(stop);
    proof {
        before.lemma_push_to_set_commute(stop);
        assert(v@.to_set() =~= above@.to_set() + w@.take(k as int).to_set() + set![stop]);
    }
    v
}

fn lane_max_exec(a: PoolAndLane, b: PoolAndLane) -> (r: PoolAndLane)
    ensures
        r == lane_max(a, b),
{
    if b.less_than(&a) { a } else { b }
}

/// The decision for one edge (see `edge_plan`).
fn plan_edge_exec(g: &Graph, n: NodeId, outgoing: bool, this_pl: PoolAndLane, this_layer: LayerId, top_most: PoolAndLane,
    bottom_most: PoolAndLane, barrier: Option<NodeId>, e: EdgeId, top: Option<NodeId>, above: &Vec<NodeId>, is_above: bool,
    prev: Option<NodeId>) -> (r: Option<(NodeId, Vec<NodeId>, (bool, PoolAndLane, PlaceForBendDummy, i32))>)
    requires
        lanes_reference_nodes(g.pools@, g.nodes@.len() as int),
        barrier matches Some(b) ==> b.0 < g.nodes@.len(),
    ensures
        match r {
            Some((o, a1, b)) => edge_plan(*g, n, outgoing, this_pl, this_layer, top_most, bottom_most, barrier, e, top,
                above@.to_set(), is_above, prev) == Some((o, a1@.to_set(), to_pos(b))),
            None => edge_plan(*g, n, outgoing, this_pl, this_layer, top_most, bottom_most, barrier, e, top,
                above@.to_set(), is_above, prev) is None,
        },
{
    if e.0 >= g.edges.len() {
        return None;
    }
    let o = if outgoing { g.edges[e.0].to } else { g.edges[e.0].from };
    if o.0 >= g.nodes.len() {
        return None;
    }
    let opl = g.nodes[o.0].pool_and_lane();
    let a1: Vec<NodeId> = match prev {
        None => copy_vec(above),
        Some(pv) => match checked_walk_exec(g, StartAt::Node(o), None, false) {
            None => {
                return None;
            },
            Some(w) => extend_above(above, &w, pv),
        },
    };
    let (best0, start) = match top {
        Some(t) => {
            if t.0 >= g.nodes.len() {
                return None;
            }
            ((is_above, g.nodes[t.0].pool_and_lane(), PlaceForBendDummy::Below(t), 0i32), StartAt::Node(t))
        },
        None => ((is_above, top_most, PlaceForBendDummy::AtTheTop, 0i32),
            StartAt::PoolLane(Coord3 { pool_and_lane: top_most, layer: this_layer, half_layer: false })),
    };
    let fin = lane_max_exec(this_pl, bottom_most);
    let w = match checked_walk_exec(g, start, Some(fin), true) {
        None => {
            return None;
        },
        Some(w) => w,
    };
    let items = scan_items_exec(&w, barrier);
    if items.len() >= 0x7fff_ffff {
        return None;
    }
    proof {
        lemma_until_len(w@, barrier);
        assert forall|k: int| 0 <= k < items@.len() implies (#[trigger] items@[k] matches Some(c) ==> c.0 < g.nodes@.len()) by {
            if k < until_len(w@, barrier) {
                assert(items@[k] == Some(w@[k]));
            }
        }
    }
    match scan_exec(g, &items, n, outgoing, o, opl, &a1, is_above, barrier, best0) {
        None => None,
        Some(b) => Some((o, a1, b)),
    }
}

fn same_lane(a: PoolAndLane, b: PoolAndLane) -> (r: bool)
    ensures
        r == (a == b),
{
    a.pool.0 == b.pool.0 && a.lane.0 == b.lane.0
}

/// Whether `bend_dummy_ok` holds.
fn bend_dummy_ok_exec(g: &Graph, e: EdgeId, pl: PoolAndLane, layer: LayerId, place: PlaceForBendDummy) -> (r: bool)
    requires
        lanes_reference_nodes(g.pools@, g.nodes@.len() as int),
    ensures
        r == bend_dummy_ok(*g, e, pl, layer, place),
{
    if e.0 >= g.edges.len() {
        return false;
    }
    let edge = &g.edges[e.0];
    if edge.from.0 >= g.nodes.len() || edge.to.0 >= g.nodes.len() {
        return false;
    }
    match &edge.edge_type {
        EdgeType::ReplacedByDummies { .. } => {
            return false;
        },
        EdgeType::DummyEdge { original_edge, .. } => {
            if original_edge.0 >= g.edges.len() {
                return false;
            }
            match &g.edges[original_edge.0].edge_type {
                EdgeType::ReplacedByDummies { .. } => {},
                _ => {
                    return false;
                },
            }
        },
        EdgeType::Regular { .. } => {},
    }
    if pl.pool.0 >= g.pools.len() || pl.lane.0 >= g.pools[pl.pool.0].lanes.len() {
        return false;
    }
    match place {
        PlaceForBendDummy::Above(x) => {
            if x.0 >= g.nodes.len() {
                return false;
            }
            match g.nodes[x.0].node_above_in_same_lane {
                Some(a) => {
                    if a.0 >= g.nodes.len() || !same_id(g.nodes[a.0].node_below_in_same_lane, Some(x)) {
                        return false;
                    }
                },
                None => {},
            }
        },
        PlaceForBendDummy::Below(x) => {
            if x.0 >= g.nodes.len() {
                return false;
            }
            match g.nodes[x.0].node_below_in_same_lane {
                Some(b) => {
                    if b.0 >= g.nodes.len() || !same_id(g.nodes[b.0].node_above_in_same_lane, Some(x)) {
                        return false;
                    }
                },
                None => {},
            }
        },
        _ => {},
    }
    g.nodes.len() < usize::MAX && g.edges.len() <= usize::MAX - 2
}

/// Takes node `n` out of its lane's chain (see `detached`).
fn detach(graph: &mut Graph, n: NodeId)
    requires
        n.0 < old(graph).nodes@.len(),
    ensures
        detached(*old(graph), *final(graph), n),
{
    let a = graph.nodes[n.0].node_above_in_same_lane;
    let b = graph.nodes[n.0].node_below_in_same_lane;
    graph.nodes[n.0].node_above_in_same_lane = None;
    graph.nodes[n.0].node_below_in_same_lane = None;
    match a {
        Some(x) => {
            if x.0 < graph.nodes.len() {
                graph.nodes[x.0].node_below_in_same_lane = b;
            }
        },
        None => {},
    }
    match b {
        Some(y) => {
            if y.0 < graph.nodes.len() {
                graph.nodes[y.0].node_above_in_same_lane = a;
            }
        },
        None => {},
    }
}

/// Handles edge `e` (see `edge_done`), or leaves the graph as it is where it cannot be handled.
/// Gives the new dummy, the other end, the nodes above it, and where the dummy went.
fn edge_step(graph: &mut Graph, n: NodeId, outgoing: bool, this_pl: PoolAndLane, this_layer: LayerId, top_most: PoolAndLane,
    bottom_most: PoolAndLane, barrier: Option<NodeId>, e: EdgeId, top: Option<NodeId>, above: &Vec<NodeId>, is_above: bool,
    prev: Option<NodeId>, has_same: bool) -> (r: Option<(NodeId, NodeId, Vec<NodeId>, bool, bool)>)
    requires
        lanes_reference_nodes(old(graph).pools@, old(graph).nodes@.len() as int),
        barrier matches Some(b) ==> b.0 < old(graph).nodes@.len(),
    ensures
        lanes_reference_nodes(final(graph).pools@, final(graph).nodes@.len() as int),
        final(graph).nodes@.len() >= old(graph).nodes@.len(),
        match r {
            None => *final(graph) == *old(graph) && edge_blocked(*old(graph), n, outgoing, this_pl, this_layer, top_most,
                bottom_most, barrier, e, (top, above@.to_set(), is_above, prev, has_same)),
            Some((d, o, a1, b0, same)) => edge_done(*old(graph), *final(graph), n, outgoing, this_pl, this_layer, top_most,
                bottom_most, barrier, e, (top, above@.to_set(), is_above, prev, has_same),
                (Some(d), a1@.to_set(), b0, Some(o), has_same || same)),
        },
{
    reveal(edge_done);
    reveal(edge_blocked);
    let plan = plan_edge_exec(graph, n, outgoing, this_pl, this_layer, top_most, bottom_most, barrier, e, top, above, is_above, prev);
    let (o, a1, best) = match plan {
        None => {
            return None;
        },
        Some(p) => p,
    };
    if !bend_dummy_ok_exec(graph, e, best.1, this_layer, best.2) {
        return None;
    }
    let opl = graph.nodes[o.0].pool_and_lane();
    let same = same_lane(best.1, this_pl);
    let kind = if same_lane(this_pl, opl) {
        BendDummyKind::FromGatewayToSameLane { gateway_node: n, target_node: o }
    } else if same {
        BendDummyKind::FromGatewayBlockedLaneCrossing { gateway_node: n, target_node: o }
    } else {
        BendDummyKind::FromGatewayFreeLaneCrossing { gateway_node: n, target_node: o }
    };
    let d = add_bend_dummy_node(graph, e, best.1, this_layer, best.2, n, DUMMY_NODE_WIDTH / 2, kind);
    Some((d, o, a1, best.0, same))
}

/// What is fixed before the first edge (see `side_start`), with the lanes of the first and the
/// last other end.
fn start_exec(graph: &Graph, n: NodeId, outgoing: bool) -> (r: Option<(PoolAndLane, PoolAndLane, Option<NodeId>, Option<NodeId>, Vec<NodeId>)>)
    requires
        n.0 < graph.nodes@.len(),
        side_edges(*graph, n, outgoing).len() > 0,
        lanes_reference_nodes(graph.pools@, graph.nodes@.len() as int),
    ensures
        match r {
            None => side_start(*graph, n, outgoing) is None,
            Some((top_most, bottom_most, top, barrier, above)) => {
                &&& side_start(*graph, n, outgoing) == Some((top, barrier, above@.to_set()))
                &&& top_most == end_lane(*graph, n, outgoing, true)
                &&& bottom_most == end_lane(*graph, n, outgoing, false)
                &&& barrier matches Some(b) ==> b.0 < graph.nodes@.len()
            },
        },
{
    let edges = if outgoing { &graph.nodes[n.0].outgoing } else { &graph.nodes[n.0].incoming };
    let first = edges[0];
    let last = edges[edges.len() - 1];
    if first.0 >= graph.edges.len() || last.0 >= graph.edges.len() {
        return None;
    }
    let f = if outgoing { graph.edges[first.0].to } else { graph.edges[first.0].from };
    let l = if outgoing { graph.edges[last.0].to } else { graph.edges[last.0].from };
    if f.0 >= graph.nodes.len() || l.0 >= graph.nodes.len() {
        return None;
    }
    let top_most = graph.nodes[f.0].pool_and_lane();
    let bottom_most = graph.nodes[l.0].pool_and_lane();
    let up = match checked_walk_exec(graph, StartAt::Node(n), Some(top_most), false) {
        Some(w) => w,
        None => {
            return None;
        },
    };
    let down = match checked_walk_exec(graph, StartAt::Node(n), Some(bottom_most), true) {
        Some(w) => w,
        None => {
            return None;
        },
    };
    let above = match checked_walk_exec(graph, StartAt::Node(f), None, false) {
        Some(w) => w,
        None => {
            return None;
        },
    };
    let top = first_blocking_exec(graph, &up);
    let barrier = first_blocking_exec(graph, &down);
    proof {
        lemma_first_blocking_in(*graph, down@);
    }
    Some((top_most, bottom_most, top, barrier, above))
}

/// Splits each edge on the outgoing (`outgoing`) or incoming side of gateway `this_node_id` at a
/// new bend dummy in the gateway's layer, placed as `edge_plan` decides, from the first edge to
/// the last; each dummy becomes the barrier above for the next. If a dummy went into the gateway's
/// own lane, the gateway is then taken out of its lane's chain. Stops, leaving the graph as it is,
/// at an edge whose decision cannot be made (see `gateway_side_done`).
#[verifier::rlimit(60)]
pub fn handle_gateway_node_one_side(graph: &mut Graph, this_node_id: NodeId, outgoing: bool)
    requires
        this_node_id.0 < old(graph).nodes@.len(),
        side_edges(*old(graph), this_node_id, outgoing).len() > 0,
        lanes_reference_nodes(old(graph).pools@, old(graph).nodes@.len() as int),
    ensures
        gateway_side_done(*old(graph), *final(graph), this_node_id, outgoing),
        lanes_reference_nodes(final(graph).pools@, final(graph).nodes@.len() as int),
        final(graph).nodes@.len() >= old(graph).nodes@.len(),
{
    let ghost g0 = *graph;
    let n = this_node_id;
    let edges = if outgoing { copy_vec(&graph.nodes[n.0].outgoing) } else { copy_vec(&graph.nodes[n.0].incoming) };
    let this_pl = graph.nodes[n.0].pool_and_lane();
    let this_layer = graph.nodes[n.0].layer_id;
    let (top_most, bottom_most, mut top, barrier, mut above) = match start_exec(graph, n, outgoing) {
        Some(x) => x,
        None => {
            return;
        },
    };
    let ghost top0 = top;
    let ghost above0 = above@.to_set();
    let mut is_above = false;
    let mut prev: Option<NodeId> = None;
    let mut has_same = false;
    let ghost mut gs: Seq<Graph> = seq![g0];
    let ghost mut sts: Seq<SideState> = seq![(top0, above0, false, None::<NodeId>, false)];
    let mut k: usize = 0;
    while k < edges.len()
        invariant
            0 <= k <= edges@.len(),
            g0 == *old(graph),
            n == this_node_id,
            edges@ == side_edges(g0, n, outgoing),
            n.0 < g0.nodes@.len(),
            this_pl == pl_of(g0.nodes@[n.0 as int]),
            this_layer == g0.nodes@[n.0 as int].layer_id,
            top_most == end_lane(g0, n, outgoing, true),
            bottom_most == end_lane(g0, n, outgoing, false),
            side_start(g0, n, outgoing) == Some((top0, barrier, above0)),
            barrier matches Some(b) ==> b.0 < graph.nodes@.len(),
            graph.nodes@.len() >= g0.nodes@.len(),
            lanes_reference_nodes(graph.pools@, graph.nodes@.len() as int),
            gs.len() == k + 1,
            sts.len() == k + 1,
            gs[0] == g0,
            sts[0] == (top0, above0, false, None::<NodeId>, false),
            gs.last() == *graph,
            sts.last() == (top, above@.to_set(), is_above, prev, has_same),
            forall|j: int| 0 <= j < k ==> side_step(g0, n, outgoing, barrier, #[trigger] gs[j], gs[j + 1], edges@[j], sts[j], sts[j + 1]),
        decreases edges@.len() - k,
    {
        let e = edges[k];
        let ghost before = *graph;
        let ghost st_before = sts.last();
        match edge_step(graph, n, outgoing, this_pl, this_layer, top_most, bottom_most, barrier, e, top, &above, is_above, prev, has_same) {
            None => {
                proof {
                    assert(side_stops(g0, n, outgoing, barrier, gs.last(), edges@[k as int], sts.last()));
                    assert(side_run(g0, *graph, n, outgoing, top0, barrier, above0, gs, sts));
                    lemma_done(g0, *graph, n, outgoing, top0, barrier, above0, gs, sts);
                }
                return;
            },
            Some((d, o, a1, b0, same)) => {
                has_same = has_same || same;
                is_above = b0;
                top = Some(d);
                prev = Some(o);
                above = a1;
            },
        }
        proof {
            let st1 = (top, above@.to_set(), is_above, prev, has_same);
            assert(side_step(g0, n, outgoing, barrier, before, *graph, edges@[k as int], st_before, st1));
            gs = gs.push(*graph);
            sts = sts.push(st1);
            assert forall|j: int| 0 <= j < k + 1 implies side_step(g0, n, outgoing, barrier, #[trigger] gs[j], gs[j + 1], edges@[j], sts[j], sts[j + 1]) by {
                if j < k {
                    assert(gs[j] == gs.drop_last()[j] && gs[j + 1] == gs.drop_last()[j + 1]);
                    assert(sts[j] == sts.drop_last()[j] && sts[j + 1] == sts.drop_last()[j + 1]);
                }
            }
        }
        k = k + 1;
    }
    let ghost g_end = *graph;
    if has_same {
        detach(graph, n);
    }
    proof {
        assert(side_run(g0, *graph, n, outgoing, top0, barrier, above0, gs, sts));
        lemma_done(g0, *graph, n, outgoing, top0, barrier, above0, gs, sts);
    }
}

proof fn lemma_done(g0: Graph, g1: Graph, n: NodeId, outgoing: bool, top: Option<NodeId>, barrier: Option<NodeId>,
    above: Set<NodeId>, gs: Seq<Graph>, sts: Seq<SideState>)
    requires
        side_start(g0, n, outgoing) == Some((top, barrier, above)),
        side_run(g0, g1, n, outgoing, top, barrier, above, gs, sts),
    ensures
        gateway_side_done(g0, g1, n, outgoing),
{
    let start = side_start(g0, n, outgoing);
    assert(start is Some);
    assert((start->0).0 == top && (start->0).1 == barrier && (start->0).2 == above);
    assert(side_run(g0, g1, n, outgoing, (start->0).0, (start->0).1, (start->0).2, gs, sts));
}

proof fn lemma_first_blocking_in(g: Graph, ids: Seq<NodeId>)
    requires
        all_exist(g, ids),
    ensures
        first_blocking(g, ids) matches Some(b) ==> b.0 < g.nodes@.len(),
    decreases ids.len(),
{
    if ids.len() > 0 {
        assert(ids[0].0 < g.nodes@.len());
        assert forall|i: int| 0 <= i < ids.drop_first().len() implies (#[trigger] ids.drop_first()[i]).0 < g.nodes@.len() by {
            assert(ids.drop_first()[i] == ids[i + 1]);
        }
        lemma_first_blocking_in(g, ids.drop_first());
    }
}

/// The ports of one side of gateway `n` (its outgoing side if `outgoing`): one flow leaves from
/// the middle of that border (right or left), several all start at the centre of the box for now.
pub open spec fn gateway_ports(g: Graph, n: NodeId, outgoing: bool) -> Seq<RelativePort> {
    let node = g.nodes@[n.0 as int];
    let k = side_edges(g, n, outgoing).len();
    if k == 1 {
        seq![RelativePort { x: if outgoing { node.width } else { 0 }, y: node.height / 2 }]
    } else if k >= 2 {
        Seq::new(k, |i: int| RelativePort { x: node.width / 2, y: node.height / 2 })
    } else {
        Seq::empty()
    }
}

/// `g1` is `g` with the ports of one side of gateway `n` appended (see `gateway_ports`).
pub open spec fn ports_appended(g: Graph, g1: Graph, n: NodeId, outgoing: bool) -> bool {
    let node = g.nodes@[n.0 as int];
    let node1 = g1.nodes@[n.0 as int];
    &&& g1 == (Graph { nodes: g1.nodes, ..g })
    &&& g1.nodes@.len() == g.nodes@.len()
    &&& forall|i: int| 0 <= i < g.nodes@.len() && i != n.0 ==> #[trigger] g1.nodes@[i] == g.nodes@[i]
    &&& if outgoing {
        &&& node1 == (crate::graph::Node { outgoing_ports: node1.outgoing_ports, ..node })
        &&& node1.outgoing_ports@ == node.outgoing_ports@ + gateway_ports(g, n, true)
    } else {
        &&& node1 == (crate::graph::Node { incoming_ports: node1.incoming_ports, ..node })
        &&& node1.incoming_ports@ == node.incoming_ports@ + gateway_ports(g, n, false)
    }
}

/// The neighbour that a gateway keeps: a bend dummy in the gateway's lane stands for the node it
/// was made for.
pub open spec fn kept_neighbour(g: Graph, n: NodeId, x: Option<NodeId>) -> Option<NodeId> {
    match x {
        None => None,
        Some(id) => match g.nodes@[id.0 as int].node_type {
            NodeType::BendDummy { originating_node, .. } => if originating_node.0 < g.nodes@.len()
                && pl_of(g.nodes@[originating_node.0 as int]) == pl_of(g.nodes@[n.0 as int]) {
                Some(originating_node)
            } else {
                Some(id)
            },
            _ => Some(id),
        },
    }
}

/// `g1` is `g` with the neighbours of gateway `n` set back to `above` and `below`, each as
/// `kept_neighbour` gives it.
pub open spec fn neighbours_restored(g: Graph, g1: Graph, n: NodeId, above: Option<NodeId>, below: Option<NodeId>) -> bool {
    &&& g1 == (Graph { nodes: g1.nodes, ..g })
    &&& g1.nodes@.len() == g.nodes@.len()
    &&& forall|i: int| 0 <= i < g.nodes@.len() && i != n.0 ==> #[trigger] g1.nodes@[i] == g.nodes@[i]
    &&& g1.nodes@[n.0 as int] == (crate::graph::Node {
        node_above_in_same_lane: kept_neighbour(g, n, above),
        node_below_in_same_lane: kept_neighbour(g, n, below),
        ..g.nodes@[n.0 as int]
    })
}

/// One side of gateway `n`: its ports appended, then, with several flows, the side handled.
pub open spec fn side_assigned(g: Graph, g1: Graph, n: NodeId, outgoing: bool) -> bool {
    exists|gp: Graph| #[trigger] ports_appended(g, gp, n, outgoing) && if side_edges(g, n, outgoing).len() >= 2 {
        gateway_side_done(gp, g1, n, outgoing)
    } else {
        g1 == gp
    }
}

fn append_gateway_ports(graph: &mut Graph, n: NodeId, outgoing: bool)
    requires
        n.0 < old(graph).nodes@.len(),
    ensures
        ports_appended(*old(graph), *final(graph), n, outgoing),
{
    let k = if outgoing { graph.nodes[n.0].outgoing.len() } else { graph.nodes[n.0].incoming.len() };
    let w = graph.nodes[n.0].width;
    let h = graph.nodes[n.0].height;
    let mut ports: Vec<RelativePort> = Vec::new();
    if k == 1 {
        ports.push(RelativePort { x: if outgoing { w } else { 0 }, y: h / 2 });
    } else if k >= 2 {
        let mut i: usize = 0;
        while i < k
            invariant
                0 <= i <= k,
                ports@ =~= Seq::new(i as nat, |j: int| RelativePort { x: w / 2, y: h / 2 }),
            decreases k - i,
        {
            ports.push(RelativePort { x: w / 2, y: h / 2 });
            i = i + 1;
        }
    }
    assert(ports@ =~= gateway_ports(*old(graph), n, outgoing));
    if outgoing {
        let mut v = copy_vec(&graph.nodes[n.0].outgoing_ports);
        v.append(&mut ports);
        graph.nodes[n.0].outgoing_ports = v;
    } else {
        let mut v = copy_vec(&graph.nodes[n.0].incoming_ports);
        v.append(&mut ports);
        graph.nodes[n.0].incoming_ports = v;
    }
}

fn kept_neighbour_exec(graph: &Graph, n: NodeId, x: Option<NodeId>) -> (r: Option<NodeId>)
    requires
        n.0 < graph.nodes@.len(),
        x matches Some(id) ==> id.0 < graph.nodes@.len(),
    ensures
        r == kept_neighbour(*graph, n, x),
{
    match x {
        None => None,
        Some(id) => match &graph.nodes[id.0].node_type {
            NodeType::BendDummy { originating_node, .. } => {
                let o = *originating_node;
                if o.0 < graph.nodes.len() && same_lane(graph.nodes[o.0].pool_and_lane(), graph.nodes[n.0].pool_and_lane()) {
                    Some(o)
                } else {
                    Some(id)
                }
            },
            _ => Some(id),
        },
    }
}

fn assign_side(graph: &mut Graph, n: NodeId, outgoing: bool)
    requires
        n.0 < old(graph).nodes@.len(),
        lanes_reference_nodes(old(graph).pools@, old(graph).nodes@.len() as int),
    ensures
        side_assigned(*old(graph), *final(graph), n, outgoing),
        lanes_reference_nodes(final(graph).pools@, final(graph).nodes@.len() as int),
        final(graph).nodes@.len() >= old(graph).nodes@.len(),
{
    let ghost g0 = *graph;
    let k = if outgoing { graph.nodes[n.0].outgoing.len() } else { graph.nodes[n.0].incoming.len() };
    append_gateway_ports(graph, n, outgoing);
    let ghost gp = *graph;
    assert(side_edges(gp, n, outgoing) == side_edges(g0, n, outgoing));
    if k >= 2 {
        handle_gateway_node_one_side(graph, n, outgoing);
    }
    assert(ports_appended(g0, gp, n, outgoing));
}

/// The ports of gateway `this_node_id`: outgoing side first, then incoming side, each as
/// `side_assigned` says; then its neighbours within the lane are set back to those it had before
/// (a bend dummy in its lane standing for the node it was made for), since bend dummies in its
/// lane may have taken it out of the chain.
pub fn handle_gateway_node(graph: &mut Graph, this_node_id: NodeId)
    requires
        this_node_id.0 < old(graph).nodes@.len(),
        lanes_reference_nodes(old(graph).pools@, old(graph).nodes@.len() as int),
        old(graph).nodes@[this_node_id.0 as int].node_above_in_same_lane matches Some(a) ==> a.0 < old(graph).nodes@.len(),
        old(graph).nodes@[this_node_id.0 as int].node_below_in_same_lane matches Some(b) ==> b.0 < old(graph).nodes@.len(),
    ensures
        exists|g1: Graph, g2: Graph| #[trigger] side_assigned(*old(graph), g1, this_node_id, true)
            && #[trigger] side_assigned(g1, g2, this_node_id, false)
            && neighbours_restored(g2, *final(graph), this_node_id,
                old(graph).nodes@[this_node_id.0 as int].node_above_in_same_lane,
                old(graph).nodes@[this_node_id.0 as int].node_below_in_same_lane),
{
    let n = this_node_id;
    let above = graph.nodes[n.0].node_above_in_same_lane;
    let below = graph.nodes[n.0].node_below_in_same_lane;
    assign_side(graph, n, true);
    let ghost g1 = *graph;
    assign_side(graph, n, false);
    let ghost g2 = *graph;
    let new_above = kept_neighbour_exec(graph, n, above);
    let new_below = kept_neighbour_exec(graph, n, below);
    graph.nodes[n.0].node_above_in_same_lane = new_above;
    graph.nodes[n.0].node_below_in_same_lane = new_below;
    assert(neighbours_restored(g2, *graph, n, above, below));
}

} // verus!
