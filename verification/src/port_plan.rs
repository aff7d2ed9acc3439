//! Port assignment of nodes that are no gateways, phase one: what each port needs to know (where
//! the other end is, what kind of flow it is, whether it must go up or down), the split of the
//! ports of each side over the areas of the box, and the order of the ports on the top and bottom
//! border. Phase two, evenly spaced coordinates along each border, is computed in floating point
//! outside this library; phase three is in `port_placement`.
use vstd::prelude::*;
use crate::graph::{Graph, Node};
use crate::layer_walk::{all_pools_down, all_pools_up, start_ok, StartAt};
use crate::ids::{EdgeId, NodeId, PoolAndLane, PoolId, RelativePort};
use crate::port_assignment::{
    all_exist, barrier_of, bend_flag, bottom_barrier, first_blocking, partition_ports, spec_partition, split_top, above_end,
    split_above, split_below, has_middle_sf, top_barrier, BarrierInfo, PartitionedPortIndices, PortFlowType, PortInfo,
    VerticalEdgeDocks,
};

verus! {

/// The pool after which a message flow from pool `from` to pool `to` bends: the sender's pool
/// when it goes down, the pool just above the sender's when it goes up.
pub open spec fn bend_pool(from: PoolId, to: PoolId) -> int {
    if from.0 < to.0 { from.0 as int } else { from.0 - 1 }
}

/// Whether the edge to a node with id `other` must go up or down because that node is the top or
/// the bottom barrier. Only where there is no top barrier does the bottom one count.
pub open spec fn must_go_vertical_for(top: Option<BarrierInfo>, bottom: Option<BarrierInfo>, other: NodeId) -> Option<VerticalEdgeDocks> {
    match top {
        Some(b) => if b.blocking_real_node == other { Some(VerticalEdgeDocks::Above) } else { None },
        None => match bottom {
            Some(b) => if b.blocking_real_node == other { Some(VerticalEdgeDocks::Below) } else { None },
            None => None,
        },
    }
}

/// A message flow would like to go up: nothing is above, or it bends above the top barrier.
pub open spec fn free_above(top: Option<BarrierInfo>, from: PoolId, to: PoolId) -> bool {
    match top {
        None => true,
        Some(b) => bend_pool(from, to) >= b.pool_and_lane.pool.0,
    }
}

/// A message flow would like to go down: nothing is below, or it bends above the bottom barrier.
pub open spec fn free_below(bottom: Option<BarrierInfo>, from: PoolId, to: PoolId) -> bool {
    match bottom {
        None => true,
        Some(b) => bend_pool(from, to) < b.pool_and_lane.pool.0,
    }
}

/// The port of edge `e` at node `n` (incoming when `incoming`), with the barriers of `n`.
pub open spec fn port_info_of(g: Graph, n: Node, n_id: NodeId, e: EdgeId, incoming: bool, top: Option<BarrierInfo>,
    bottom: Option<BarrierInfo>) -> PortInfo {
    let edge = g.edges@[e.0 as int];
    let other = g.nodes@[(if incoming { edge.from } else { edge.to }).0 as int];
    let flow = match edge.flow_type {
        crate::graph::FlowType::SequenceFlow => PortFlowType::Sequence,
        crate::graph::FlowType::DataFlow(_) => PortFlowType::Data,
        crate::graph::FlowType::MessageFlow(_) => if incoming {
            if other.pool.0 < n.pool.0 {
                PortFlowType::MessageAbove { would_like_to_go_vertical: free_above(top, other.pool, n.pool) }
            } else {
                PortFlowType::MessageBelow { would_like_to_go_vertical: free_below(bottom, other.pool, n.pool) }
            }
        } else {
            if n.pool.0 < other.pool.0 {
                PortFlowType::MessageBelow { would_like_to_go_vertical: free_below(bottom, n.pool, other.pool) }
            } else {
                PortFlowType::MessageAbove { would_like_to_go_vertical: free_above(top, n.pool, other.pool) }
            }
        },
    };
    PortInfo {
        edge_id: e,
        is_incoming: incoming,
        coordinate: RelativePort { x: 0, y: 0 },
        must_go_vertical: must_go_vertical_for(top, bottom, other.id),
        other_pool_lane: PoolAndLane { pool: other.pool, lane: other.lane },
        other_layer: other.layer_id,
        flow_type: flow,
        requires_bend_dummy: false,
        is_boundary_event: edge.attached_to_boundary_event is Some
            && (if edge.is_reversed { edge.to == n_id } else { edge.from == n_id }),
    }
}

/// The ports of the edges `es` of node `n`, in their order.
pub open spec fn port_infos(g: Graph, n: Node, n_id: NodeId, es: Seq<EdgeId>, incoming: bool, top: Option<BarrierInfo>,
    bottom: Option<BarrierInfo>) -> Seq<PortInfo> {
    Seq::new(es.len(), |k: int| port_info_of(g, n, n_id, es[k], incoming, top, bottom))
}

/// What gathering the ports of node `n_id` needs: its edges exist and run between existing
/// nodes, and a message flow whose pool of bending is looked up runs between two pools whose
/// borders fit in `usize`.
pub open spec fn ports_gatherable(g: Graph, n_id: NodeId, top: Option<BarrierInfo>, bottom: Option<BarrierInfo>) -> bool {
    let n = g.nodes@[n_id.0 as int];
    &&& n_id.0 < g.nodes@.len()
    &&& forall|k: int| 0 <= k < n.incoming@.len() ==> edge_gatherable(g, n, #[trigger] n.incoming@[k], true, top, bottom)
    &&& forall|k: int| 0 <= k < n.outgoing@.len() ==> edge_gatherable(g, n, #[trigger] n.outgoing@[k], false, top, bottom)
}

pub open spec fn edge_gatherable(g: Graph, n: Node, e: EdgeId, incoming: bool, top: Option<BarrierInfo>,
    bottom: Option<BarrierInfo>) -> bool {
    let edge = g.edges@[e.0 as int];
    let other = g.nodes@[(if incoming { edge.from } else { edge.to }).0 as int];
    let (from, to) = if incoming { (other.pool, n.pool) } else { (n.pool, other.pool) };
    let looks_up = if incoming {
        if other.pool.0 < n.pool.0 { top is Some } else { bottom is Some }
    } else {
        if n.pool.0 < other.pool.0 { bottom is Some } else { top is Some }
    };
    &&& e.0 < g.edges@.len()
    &&& edge.from.0 < g.nodes@.len() && edge.to.0 < g.nodes@.len()
    &&& (edge.flow_type is MessageFlow && looks_up) ==> {
        &&& from != to
        &&& from.0 < g.pools@.len() && to.0 < g.pools@.len()
        &&& g.pools@[bend_pool(from, to)].y + g.pools@[bend_pool(from, to)].height <= usize::MAX
    }
}

fn port_info(g: &Graph, n_id: NodeId, e: EdgeId, incoming: bool, top: Option<BarrierInfo>, bottom: Option<BarrierInfo>) -> (r: PortInfo)
    requires
        n_id.0 < g.nodes@.len(),
        edge_gatherable(*g, g.nodes@[n_id.0 as int], e, incoming, top, bottom),
    ensures
        r == port_info_of(*g, g.nodes@[n_id.0 as int], n_id, e, incoming, top, bottom),
{
    let n = &g.nodes[n_id.0];
    let edge = &g.edges[e.0];
    let other = &g.nodes[(if incoming { edge.from } else { edge.to }).0];
    let flow = match &edge.flow_type {
        crate::graph::FlowType::SequenceFlow => PortFlowType::Sequence,
        crate::graph::FlowType::DataFlow(_) => PortFlowType::Data,
        crate::graph::FlowType::MessageFlow(_) => {
            let (from, to) = if incoming { (other.pool, n.pool) } else { (n.pool, other.pool) };
            let goes_up = if incoming { other.pool.0 < n.pool.0 } else { !(n.pool.0 < other.pool.0) };
            if goes_up {
                let free = match top {
                    None => true,
                    Some(b) => g.interpool_y(from, to).0.0 >= b.pool_and_lane.pool.0,
                };
                PortFlowType::MessageAbove { would_like_to_go_vertical: free }
            } else {
                let free = match bottom {
                    None => true,
                    Some(b) => g.interpool_y(from, to).0.0 < b.pool_and_lane.pool.0,
                };
                PortFlowType::MessageBelow { would_like_to_go_vertical: free }
            }
        },
    };
    let must_go_vertical = match top {
        Some(b) => if b.blocking_real_node.0 == other.id.0 { Some(VerticalEdgeDocks::Above) } else { None },
        None => match bottom {
            Some(b) => if b.blocking_real_node.0 == other.id.0 { Some(VerticalEdgeDocks::Below) } else { None },
            None => None,
        },
    };
    PortInfo {
        edge_id: e,
        is_incoming: incoming,
        coordinate: RelativePort { x: 0, y: 0 },
        must_go_vertical,
        other_pool_lane: other.pool_and_lane(),
        other_layer: other.layer_id,
        flow_type: flow,
        requires_bend_dummy: false,
        is_boundary_event: g.attached_to_boundary_event(n_id, e),
    }
}

fn port_infos_of(g: &Graph, n_id: NodeId, incoming: bool, top: Option<BarrierInfo>, bottom: Option<BarrierInfo>) -> (r: Vec<PortInfo>)
    requires
        ports_gatherable(*g, n_id, top, bottom),
    ensures
        r@ == port_infos(*g, g.nodes@[n_id.0 as int], n_id,
            if incoming { g.nodes@[n_id.0 as int].incoming@ } else { g.nodes@[n_id.0 as int].outgoing@ }, incoming, top, bottom),
{
    let n = &g.nodes[n_id.0];
    let es = if incoming { &n.incoming } else { &n.outgoing };
    let mut r: Vec<PortInfo> = Vec::new();
    let mut k: usize = 0;
    while k < es.len()
        invariant
            k <= es@.len(),
            n == &g.nodes@[n_id.0 as int],
            es@ == (if incoming { n.incoming@ } else { n.outgoing@ }),
            ports_gatherable(*g, n_id, top, bottom),
            r@.len() == k,
            forall|j: int| 0 <= j < k ==> #[trigger] r@[j] == port_info_of(*g, *n, n_id, es@[j], incoming, top, bottom),
        decreases es@.len() - k,
    {
        let e = es[k];
        assert(edge_gatherable(*g, *n, e, incoming, top, bottom));
        r.push(port_info(g, n_id, e, incoming, top, bottom));
        k = k + 1;
    }
    assert(r@ =~= port_infos(*g, *n, n_id, es@, incoming, top, bottom));
    r
}

pub open spec fn is_message(f: PortFlowType) -> bool {
    f is MessageAbove || f is MessageBelow
}

pub open spec fn abs_diff(a: int, b: int) -> int {
    if a >= b { a - b } else { b - a }
}

/// The start of the source location of message flow `e`.
pub open spec fn message_start(g: Graph, e: EdgeId) -> usize {
    g.edges@[e.0 as int].flow_type->MessageFlow_0.tc.start
}

/// The two ports come to the comparison of their source locations: the incoming one is no
/// sequence or data flow free to go sideways, nor is the outgoing one, the incoming one is no
/// message flow or crosses one gap between pools, and both other ends lie in one layer.
pub open spec fn compares_locations(n: Node, inc: PortInfo, outg: PortInfo) -> bool {
    &&& !(inc.must_go_vertical is None && (inc.flow_type is Sequence || inc.flow_type is Data))
    &&& !(outg.must_go_vertical is None && (outg.flow_type is Sequence || outg.flow_type is Data))
    &&& (!is_message(inc.flow_type) || abs_diff(n.pool.0 as int, inc.other_pool_lane.pool.0 as int) == 1)
    &&& inc.other_layer.0 == outg.other_layer.0
}

/// On the top or bottom border of node `n`, the incoming port `inc` comes before the outgoing
/// port `outg`.
pub open spec fn incoming_first(g: Graph, n: Node, inc: PortInfo, outg: PortInfo) -> bool {
    if inc.must_go_vertical is None && (inc.flow_type is Sequence || inc.flow_type is Data) {
        true
    } else if outg.must_go_vertical is None && (outg.flow_type is Sequence || outg.flow_type is Data) {
        true
    } else if !is_message(inc.flow_type) || abs_diff(n.pool.0 as int, inc.other_pool_lane.pool.0 as int) == 1 {
        if inc.other_layer.0 < outg.other_layer.0 {
            true
        } else if inc.other_layer.0 > outg.other_layer.0 {
            false
        } else {
            message_start(g, inc.edge_id) < message_start(g, outg.edge_id)
        }
    } else if inc.other_layer.0 < n.layer_id.0 {
        !(outg.other_layer.0 < n.layer_id.0)
    } else {
        outg.other_layer.0 <= n.layer_id.0
    }
}

/// A reference to a port: incoming or outgoing, and its position in that list.
pub type PortRef = (bool, usize);

/// Merges the incoming ports `a` with the outgoing ports `b` (of `ins` and `outs`), keeping the
/// order within each: at each step the head of `a` comes first if `incoming_first` says so.
pub open spec fn merged(g: Graph, n: Node, ins: Seq<PortInfo>, outs: Seq<PortInfo>, a: Seq<PortRef>, b: Seq<PortRef>) -> Seq<PortRef>
    decreases a.len() + b.len(),
{
    if a.len() == 0 {
        b
    } else if b.len() == 0 {
        a
    } else if incoming_first(g, n, ins[a[0].1 as int], outs[b[0].1 as int]) {
        seq![a[0]] + merged(g, n, ins, outs, a.drop_first(), b)
    } else {
        seq![b[0]] + merged(g, n, ins, outs, a, b.drop_first())
    }
}

/// Every comparison of the merge that comes to the source locations compares two message flows.
pub open spec fn merge_ok(g: Graph, n: Node, ins: Seq<PortInfo>, outs: Seq<PortInfo>, a: Seq<PortRef>, b: Seq<PortRef>) -> bool
    decreases a.len() + b.len(),
{
    if a.len() == 0 || b.len() == 0 {
        true
    } else {
        let (inc, outg) = (ins[a[0].1 as int], outs[b[0].1 as int]);
        &&& compares_locations(n, inc, outg) ==> g.edges@[inc.edge_id.0 as int].flow_type is MessageFlow
            && g.edges@[outg.edge_id.0 as int].flow_type is MessageFlow
        &&& if incoming_first(g, n, inc, outg) {
            merge_ok(g, n, ins, outs, a.drop_first(), b)
        } else {
            merge_ok(g, n, ins, outs, a, b.drop_first())
        }
    }
}

/// The references to the ports `lo..hi`, in order (`incoming` ones), or reversed.
pub open spec fn refs(incoming: bool, lo: int, hi: int, reversed: bool) -> Seq<PortRef> {
    Seq::new((hi - lo) as nat, |k: int| (incoming, (if reversed { hi - 1 - k } else { lo + k }) as usize))
}

fn refs_of(incoming: bool, lo: usize, hi: usize, reversed: bool) -> (r: Vec<PortRef>)
    requires
        lo <= hi,
    ensures
        r@ == refs(incoming, lo as int, hi as int, reversed),
{
    let mut r: Vec<PortRef> = Vec::new();
    let mut k: usize = 0;
    while k < hi - lo
        invariant
            lo <= hi,
            k <= hi - lo,
            r@.len() == k,
            forall|j: int| 0 <= j < k ==> #[trigger] r@[j] == (incoming, (if reversed { hi - 1 - j } else { lo + j }) as usize),
        decreases hi - lo - k,
    {
        r.push((incoming, if reversed { hi - 1 - k } else { lo + k }));
        k = k + 1;
    }
    assert(r@ =~= refs(incoming, lo as int, hi as int, reversed));
    r
}

fn incoming_first_exec(g: &Graph, n: &Node, inc: &PortInfo, outg: &PortInfo) -> (r: bool)
    requires
        compares_locations(*n, *inc, *outg) ==> inc.edge_id.0 < g.edges@.len() && outg.edge_id.0 < g.edges@.len()
            && g.edges@[inc.edge_id.0 as int].flow_type is MessageFlow && g.edges@[outg.edge_id.0 as int].flow_type is MessageFlow,
    ensures
        r == incoming_first(*g, *n, *inc, *outg),
{
    let plain = |f: &PortFlowType| -> (b: bool)
        ensures b == (*f is Sequence || *f is Data)
    {
        match f {
            PortFlowType::Sequence => true,
            PortFlowType::Data => true,
            _ => false,
        }
    };
    if inc.must_go_vertical.is_none() && plain(&inc.flow_type) {
        return true;
    }
    if outg.must_go_vertical.is_none() && plain(&outg.flow_type) {
        return true;
    }
    let message = match inc.flow_type {
        PortFlowType::MessageAbove { .. } => true,
        PortFlowType::MessageBelow { .. } => true,
        _ => false,
    };
    let diff = if n.pool.0 >= inc.other_pool_lane.pool.0 {
        n.pool.0 - inc.other_pool_lane.pool.0
    } else {
        inc.other_pool_lane.pool.0 - n.pool.0
    };
    if !message || diff == 1 {
        if inc.other_layer.0 < outg.other_layer.0 {
            true
        } else if inc.other_layer.0 > outg.other_layer.0 {
            false
        } else {
            g.edges[inc.edge_id.0].tc().start < g.edges[outg.edge_id.0].tc().start
        }
    } else if inc.other_layer.0 < n.layer_id.0 {
        !(outg.other_layer.0 < n.layer_id.0)
    } else {
        outg.other_layer.0 <= n.layer_id.0
    }
}

/// Merges as `merged` says.
fn merge_ports(g: &Graph, n: &Node, ins: &Vec<PortInfo>, outs: &Vec<PortInfo>, a: &Vec<PortRef>, b: &Vec<PortRef>) -> (r: Vec<PortRef>)
    requires
        forall|k: int| 0 <= k < a@.len() ==> (#[trigger] a@[k]).1 < ins@.len(),
        forall|k: int| 0 <= k < b@.len() ==> (#[trigger] b@[k]).1 < outs@.len(),
        forall|k: int| 0 <= k < ins@.len() ==> (#[trigger] ins@[k]).edge_id.0 < g.edges@.len(),
        forall|k: int| 0 <= k < outs@.len() ==> (#[trigger] outs@[k]).edge_id.0 < g.edges@.len(),
        merge_ok(*g, *n, ins@, outs@, a@, b@),
    ensures
        r@ == merged(*g, *n, ins@, outs@, a@, b@),
{
    let mut r: Vec<PortRef> = Vec::new();
    let mut i: usize = 0;
    let mut j: usize = 0;
    assert(a@.skip(0) =~= a@ && b@.skip(0) =~= b@);
    assert(r@ + merged(*g, *n, ins@, outs@, a@, b@) =~= merged(*g, *n, ins@, outs@, a@, b@));
    while i < a.len() || j < b.len()
        invariant
            i <= a@.len(),
            j <= b@.len(),
            forall|k: int| 0 <= k < a@.len() ==> (#[trigger] a@[k]).1 < ins@.len(),
            forall|k: int| 0 <= k < b@.len() ==> (#[trigger] b@[k]).1 < outs@.len(),
            forall|k: int| 0 <= k < ins@.len() ==> (#[trigger] ins@[k]).edge_id.0 < g.edges@.len(),
            forall|k: int| 0 <= k < outs@.len() ==> (#[trigger] outs@[k]).edge_id.0 < g.edges@.len(),
            merge_ok(*g, *n, ins@, outs@, a@.skip(i as int), b@.skip(j as int)),
            r@ + merged(*g, *n, ins@, outs@, a@.skip(i as int), b@.skip(j as int)) == merged(*g, *n, ins@, outs@, a@, b@),
        decreases a@.len() + b@.len() - i - j,
    {
        let ghost (sa, sb) = (a@.skip(i as int), b@.skip(j as int));
        if i < a.len() && j < b.len() {
            assert(sa[0] == a@[i as int] && sb[0] == b@[j as int]);
            let first = incoming_first_exec(g, n, &ins[a[i].1], &outs[b[j].1]);
            if first {
                r.push(a[i]);
                assert(sa.drop_first() =~= a@.skip(i + 1));
                i = i + 1;
            } else {
                r.push(b[j]);
                assert(sb.drop_first() =~= b@.skip(j + 1));
                j = j + 1;
            }
            assert(r@ + merged(*g, *n, ins@, outs@, a@.skip(i as int), b@.skip(j as int)) =~= merged(*g, *n, ins@, outs@, a@, b@));
        } else if i < a.len() {
            assert(sb.len() == 0);
            assert(sa[0] == a@[i as int]);
            r.push(a[i]);
            assert(sa.drop_first() =~= a@.skip(i + 1));
            i = i + 1;
            assert(r@ + merged(*g, *n, ins@, outs@, a@.skip(i as int), b@.skip(j as int)) =~= merged(*g, *n, ins@, outs@, a@, b@));
        } else {
            assert(sa.len() == 0);
            assert(sb[0] == b@[j as int]);
            r.push(b[j]);
            assert(sb.drop_first() =~= b@.skip(j + 1));
            j = j + 1;
            assert(r@ + merged(*g, *n, ins@, outs@, a@.skip(i as int), b@.skip(j as int)) =~= merged(*g, *n, ins@, outs@, a@, b@));
        }
    }
    assert(a@.skip(i as int).len() == 0 && b@.skip(j as int).len() == 0);
    assert(r@ =~= merged(*g, *n, ins@, outs@, a@, b@));
    r
}

/// The ports of one side after splitting them over the areas of the box: each with its bend
/// dummy flag.
pub open spec fn partitioned(raw: Seq<PortInfo>) -> Seq<PortInfo> {
    Seq::new(raw.len(), |k: int| PortInfo { requires_bend_dummy: bend_flag(raw, k), ..raw[k] })
}

/// The barrier above node `n_id`.
pub open spec fn spec_top_barrier(g: Graph, n_id: NodeId) -> Option<BarrierInfo> {
    barrier_of(g, first_blocking(g, all_pools_up(g, StartAt::Node(n_id), None)->0))
}

/// The barrier below node `n_id`.
pub open spec fn spec_bottom_barrier(g: Graph, n_id: NodeId) -> Option<BarrierInfo> {
    barrier_of(g, first_blocking(g, all_pools_down(g, StartAt::Node(n_id), None)->0))
}

/// Phase one of the port assignment of a node: its ports with what they need to know, split
/// over the areas of the box, and the order of the ports on the top and bottom border.
pub struct PortPlan {
    pub incoming: Vec<PortInfo>,
    pub outgoing: Vec<PortInfo>,
    pub incoming_parts: PartitionedPortIndices,
    pub outgoing_parts: PartitionedPortIndices,
    /// The ports on the top border, from left to right.
    pub top: Vec<PortRef>,
    /// The ports on the bottom border, from left to right.
    pub bottom: Vec<PortRef>,
    pub top_barrier: Option<BarrierInfo>,
    pub bottom_barrier: Option<BarrierInfo>,
}

/// The incoming ports of node `n_id` after the split.
pub open spec fn plan_incoming(g: Graph, n_id: NodeId) -> Seq<PortInfo> {
    let n = g.nodes@[n_id.0 as int];
    partitioned(port_infos(g, n, n_id, n.incoming@, true, spec_top_barrier(g, n_id), spec_bottom_barrier(g, n_id)))
}

/// The outgoing ports of node `n_id` after the split.
pub open spec fn plan_outgoing(g: Graph, n_id: NodeId) -> Seq<PortInfo> {
    let n = g.nodes@[n_id.0 as int];
    partitioned(port_infos(g, n, n_id, n.outgoing@, false, spec_top_barrier(g, n_id), spec_bottom_barrier(g, n_id)))
}

pub open spec fn plan_incoming_parts(g: Graph, n_id: NodeId) -> PartitionedPortIndices {
    let n = g.nodes@[n_id.0 as int];
    spec_partition(port_infos(g, n, n_id, n.incoming@, true, spec_top_barrier(g, n_id), spec_bottom_barrier(g, n_id)))
}

pub open spec fn plan_outgoing_parts(g: Graph, n_id: NodeId) -> PartitionedPortIndices {
    let n = g.nodes@[n_id.0 as int];
    spec_partition(port_infos(g, n, n_id, n.outgoing@, false, spec_top_barrier(g, n_id), spec_bottom_barrier(g, n_id)))
}

/// The top border: the incoming top ports in reverse merged with the outgoing top ports.
pub open spec fn top_merge_args(g: Graph, n_id: NodeId) -> (Seq<PortRef>, Seq<PortRef>) {
    let (pi, po) = (plan_incoming_parts(g, n_id), plan_outgoing_parts(g, n_id));
    (refs(true, pi.top.0 as int, pi.top.1 as int, true), refs(false, po.top.0 as int, po.top.1 as int, false))
}

/// The bottom border: the incoming bottom ports merged with the outgoing bottom ports in reverse.
pub open spec fn bottom_merge_args(g: Graph, n_id: NodeId) -> (Seq<PortRef>, Seq<PortRef>) {
    let (pi, po) = (plan_incoming_parts(g, n_id), plan_outgoing_parts(g, n_id));
    (refs(true, pi.bottom.0 as int, pi.bottom.1 as int, false), refs(false, po.bottom.0 as int, po.bottom.1 as int, true))
}

/// What phase one needs: the walks above and below the node end on existing nodes, its edges
/// can be gathered, and the merges of the top and bottom border only compare the source
/// locations of message flows.
pub open spec fn plan_ok(g: Graph, n_id: NodeId) -> bool {
    let n = g.nodes@[n_id.0 as int];
    let (ins, outs) = (plan_incoming(g, n_id), plan_outgoing(g, n_id));
    let (ta, tb) = top_merge_args(g, n_id);
    let (ba, bb) = bottom_merge_args(g, n_id);
    &&& start_ok(g, StartAt::Node(n_id), None, false)
    &&& all_pools_up(g, StartAt::Node(n_id), None) matches Some(ids) && all_exist(g, ids)
    &&& start_ok(g, StartAt::Node(n_id), None, true)
    &&& all_pools_down(g, StartAt::Node(n_id), None) matches Some(ids) && all_exist(g, ids)
    &&& ports_gatherable(g, n_id, spec_top_barrier(g, n_id), spec_bottom_barrier(g, n_id))
    &&& merge_ok(g, n, ins, outs, ta, tb)
    &&& merge_ok(g, n, ins, outs, ba, bb)
}

/// Phase one of the port assignment of node `n_id` (see `PortPlan`).
pub fn gather_ports(graph: &Graph, n_id: NodeId) -> (r: PortPlan)
    requires
        plan_ok(*graph, n_id),
    ensures
        r.incoming@ == plan_incoming(*graph, n_id),
        r.outgoing@ == plan_outgoing(*graph, n_id),
        r.incoming_parts == plan_incoming_parts(*graph, n_id),
        r.outgoing_parts == plan_outgoing_parts(*graph, n_id),
        r.top@ == merged(*graph, graph.nodes@[n_id.0 as int], plan_incoming(*graph, n_id), plan_outgoing(*graph, n_id),
            top_merge_args(*graph, n_id).0, top_merge_args(*graph, n_id).1),
        r.bottom@ == merged(*graph, graph.nodes@[n_id.0 as int], plan_incoming(*graph, n_id), plan_outgoing(*graph, n_id),
            bottom_merge_args(*graph, n_id).0, bottom_merge_args(*graph, n_id).1),
        r.top_barrier == spec_top_barrier(*graph, n_id),
        r.bottom_barrier == spec_bottom_barrier(*graph, n_id),
{
    let tb = top_barrier(graph, n_id);
    let bb = bottom_barrier(graph, n_id);
    let mut incoming = port_infos_of(graph, n_id, true, tb, bb);
    let mut outgoing = port_infos_of(graph, n_id, false, tb, bb);
    let ghost (raw_in, raw_out) = (incoming@, outgoing@);
    let (ilen, olen) = (incoming.len(), outgoing.len());
    let incoming_parts = partition_ports(&mut incoming);
    let outgoing_parts = partition_ports(&mut outgoing);
    assert(incoming_parts.bottom.1 == incoming@.len() && incoming_parts.bottom.0 <= incoming_parts.bottom.1);
    assert(outgoing_parts.bottom.1 == outgoing@.len() && outgoing_parts.bottom.0 <= outgoing_parts.bottom.1);
    assert(incoming@ =~= partitioned(raw_in));
    assert(outgoing@ =~= partitioned(raw_out));
    let n = &graph.nodes[n_id.0];
    proof {
        assert forall|k: int| 0 <= k < incoming@.len() implies (#[trigger] incoming@[k]).edge_id.0 < graph.edges@.len() by {
            assert(edge_gatherable(*graph, *n, n.incoming@[k], true, tb, bb));
        }
        assert forall|k: int| 0 <= k < outgoing@.len() implies (#[trigger] outgoing@[k]).edge_id.0 < graph.edges@.len() by {
            assert(edge_gatherable(*graph, *n, n.outgoing@[k], false, tb, bb));
        }
    }
    let top_a = refs_of(true, incoming_parts.top.0, incoming_parts.top.1, true);
    let top_b = refs_of(false, outgoing_parts.top.0, outgoing_parts.top.1, false);
    let bottom_a = refs_of(true, incoming_parts.bottom.0, incoming_parts.bottom.1, false);
    let bottom_b = refs_of(false, outgoing_parts.bottom.0, outgoing_parts.bottom.1, true);
    let top = merge_ports(graph, n, &incoming, &outgoing, &top_a, &top_b);
    let bottom = merge_ports(graph, n, &incoming, &outgoing, &bottom_a, &bottom_b);
    PortPlan {
        incoming,
        outgoing,
        incoming_parts,
        outgoing_parts,
        top,
        bottom,
        top_barrier: tb,
        bottom_barrier: bb,
    }
}

} // verus!
