//! Port assignment helpers: how the edges of a node are split over the sides of its box, and the
//! choice of the best place for a bend dummy next to a gateway.
use vstd::prelude::*;
use crate::graph::{Graph, NodeType};
use crate::ids::{EdgeId, LayerId, NodeId, PoolAndLane, RelativePort};
use crate::layer_walk::{all_pools_down, all_pools_up, start_ok, StartAt};

verus! {

/// Where a vertical edge has to dock.
#[derive(Debug, Clone, Copy, PartialEq, Eq, Structural)]
pub enum VerticalEdgeDocks {
    Below,
    Above,
}

#[derive(Debug, Clone, Copy, PartialEq, Eq, Structural)]
pub enum PortFlowType {
    /// The other end of the message flow is in a pool above. `would_like_to_go_vertical`: there is
    /// free room straight up to where it bends between the pools.
    MessageAbove { would_like_to_go_vertical: bool },
    /// The other end of the message flow is in a pool below.
    MessageBelow { would_like_to_go_vertical: bool },
    Data,
    Sequence,
}

/// One port of a node, in the order of the ports around the node's side.
#[derive(Debug, Clone, Copy)]
pub struct PortInfo {
    pub edge_id: EdgeId,
    pub is_incoming: bool,
    pub coordinate: RelativePort,
    pub must_go_vertical: Option<VerticalEdgeDocks>,
    pub other_pool_lane: PoolAndLane,
    pub other_layer: LayerId,
    pub flow_type: PortFlowType,
    pub requires_bend_dummy: bool,
    pub is_boundary_event: bool,
}

/// The ports of a node split into areas, as index ranges `[start, end)` into the port list.
#[derive(Debug, Clone, Copy)]
pub struct PartitionedPortIndices {
    pub top: (usize, usize),
    pub side_upper: (usize, usize),
    /// A sequence flow that leaves straight to the side, between the upper and lower side ports.
    pub side_middle_sf: Option<usize>,
    pub side_lower: (usize, usize),
    pub bottom: (usize, usize),
}

/// The port belongs to the upper half: it must go up, or it goes up, or it is a sequence flow
/// that is not from a boundary event.
pub open spec fn goes_above(p: PortInfo) -> bool {
    match p.must_go_vertical {
        Some(VerticalEdgeDocks::Below) => false,
        Some(VerticalEdgeDocks::Above) => true,
        None => match p.flow_type {
            PortFlowType::MessageAbove { .. } => true,
            PortFlowType::MessageBelow { .. } => false,
            PortFlowType::Sequence => !p.is_boundary_event,
            PortFlowType::Data => false,
        },
    }
}

pub open spec fn vertical_or_boundary(p: PortInfo) -> bool {
    p.is_boundary_event || p.must_go_vertical is Some
}

/// A message flow that may just as well leave horizontally.
pub open spec fn mf_fine_horizontal(p: PortInfo) -> bool {
    match p.flow_type {
        PortFlowType::MessageAbove { would_like_to_go_vertical } => !would_like_to_go_vertical,
        PortFlowType::MessageBelow { would_like_to_go_vertical } => !would_like_to_go_vertical,
        _ => false,
    }
}

pub open spec fn not_data(p: PortInfo) -> bool {
    !(p.flow_type is Data)
}

/// The last position in `[lo, hi)` whose port satisfies `pred`.
pub open spec fn last_where(s: Seq<PortInfo>, lo: int, hi: int, pred: spec_fn(PortInfo) -> bool) -> Option<int>
    decreases hi - lo,
{
    if hi <= lo {
        None
    } else if pred(s[hi - 1]) {
        Some(hi - 1)
    } else {
        last_where(s, lo, hi - 1, pred)
    }
}

/// The first position in `[lo, hi)` whose port satisfies `pred`.
pub open spec fn first_where(s: Seq<PortInfo>, lo: int, hi: int, pred: spec_fn(PortInfo) -> bool) -> Option<int>
    decreases hi - lo,
{
    if hi <= lo {
        None
    } else if pred(s[lo]) {
        Some(lo)
    } else {
        first_where(s, lo + 1, hi, pred)
    }
}

/// Ports before this position go above (with possibly a sequence flow straight to the side), the
/// rest below.
pub open spec fn split_above(s: Seq<PortInfo>) -> int {
    match last_where(s, 0, s.len() as int, |p: PortInfo| goes_above(p)) {
        Some(i) => i + 1,
        None => 0,
    }
}

/// Where the bottom ports start: at the first vertical or boundary port of the lower part, else
/// after its last message flow that may go horizontally, else at its first port that is not a
/// data flow, else at the end.
pub open spec fn split_below(s: Seq<PortInfo>) -> int {
    let lo = split_above(s);
    let n = s.len() as int;
    match first_where(s, lo, n, |p: PortInfo| vertical_or_boundary(p)) {
        Some(i) => i,
        None => match last_where(s, lo, n, |p: PortInfo| mf_fine_horizontal(p)) {
            Some(i) => i + 1,
            None => match first_where(s, lo, n, |p: PortInfo| not_data(p)) {
                Some(i) => i,
                None => n,
            },
        },
    }
}

/// The last upper port is a plain sequence flow, which then leaves straight to the side.
pub open spec fn has_middle_sf(s: Seq<PortInfo>) -> bool {
    let a = split_above(s);
    a > 0 && s[a - 1].must_go_vertical is None && s[a - 1].flow_type is Sequence && !s[a - 1].is_boundary_event
}

pub open spec fn above_end(s: Seq<PortInfo>) -> int {
    if has_middle_sf(s) { split_above(s) - 1 } else { split_above(s) }
}

/// Where the upper side ports start: after the last vertical or boundary port of the upper part,
/// else at its first message flow that may go horizontally, else after its last port that is not
/// a data flow, else at the start.
pub open spec fn split_top(s: Seq<PortInfo>) -> int {
    let hi = above_end(s);
    match last_where(s, 0, hi, |p: PortInfo| vertical_or_boundary(p)) {
        Some(i) => i + 1,
        None => match first_where(s, 0, hi, |p: PortInfo| mf_fine_horizontal(p)) {
            Some(i) => i,
            None => match last_where(s, 0, hi, |p: PortInfo| not_data(p)) {
                Some(i) => i + 1,
                None => 0,
            },
        },
    }
}

/// A top port needs a bend dummy from the first boundary event or horizontal upward message flow
/// on.
pub open spec fn top_trigger(p: PortInfo) -> bool {
    p.is_boundary_event || p.flow_type == (PortFlowType::MessageAbove { would_like_to_go_vertical: false })
}

/// A bottom port needs a bend dummy up to the last boundary event or horizontal downward message
/// flow.
pub open spec fn bottom_trigger(p: PortInfo) -> bool {
    p.is_boundary_event || p.flow_type == (PortFlowType::MessageBelow { would_like_to_go_vertical: false })
}

pub open spec fn spec_partition(s: Seq<PortInfo>) -> PartitionedPortIndices {
    PartitionedPortIndices {
        top: (0, split_top(s) as usize),
        side_upper: (split_top(s) as usize, above_end(s) as usize),
        side_middle_sf: if has_middle_sf(s) { Some((split_above(s) - 1) as usize) } else { None },
        side_lower: (split_above(s) as usize, split_below(s) as usize),
        bottom: (split_below(s) as usize, s.len() as usize),
    }
}

/// The bend dummy flag each port gets.
pub open spec fn bend_flag(s: Seq<PortInfo>, i: int) -> bool {
    if 0 <= i < split_top(s) {
        exists|j: int| 0 <= j <= i && top_trigger(#[trigger] s[j])
    } else if split_below(s) <= i < s.len() {
        exists|j: int| i <= j < s.len() && bottom_trigger(#[trigger] s[j])
    } else {
        s[i].requires_bend_dummy
    }
}

proof fn lemma_last_where_range(s: Seq<PortInfo>, lo: int, hi: int, pred: spec_fn(PortInfo) -> bool)
    ensures
        last_where(s, lo, hi, pred) matches Some(i) ==> lo <= i < hi && pred(s[i]),
        last_where(s, lo, hi, pred) is None ==> forall|k: int| lo <= k < hi ==> !pred(#[trigger] s[k]),
    decreases hi - lo,
{
    if hi > lo && !pred(s[hi - 1]) {
        lemma_last_where_range(s, lo, hi - 1, pred);
    }
}

proof fn lemma_first_where_range(s: Seq<PortInfo>, lo: int, hi: int, pred: spec_fn(PortInfo) -> bool)
    ensures
        first_where(s, lo, hi, pred) matches Some(i) ==> lo <= i < hi && pred(s[i]),
        first_where(s, lo, hi, pred) is None ==> forall|k: int| lo <= k < hi ==> !pred(#[trigger] s[k]),
    decreases hi - lo,
{
    if hi > lo && !pred(s[lo]) {
        lemma_first_where_range(s, lo + 1, hi, pred);
    }
}

/// The last position in `[lo, hi)` whose port goes above (`kind` 0), is vertical or a boundary
/// event (1), is a message flow fine going horizontal (2), or is not a data flow (3).
fn find_last(s: &Vec<PortInfo>, lo: usize, hi: usize, kind: u8) -> (r: Option<usize>)
    requires
        lo <= hi <= s@.len(),
        kind < 4,
    ensures
        ({
            let pred = pred_of(kind);
            &&& r matches Some(i) ==> last_where(s@, lo as int, hi as int, pred) == Some(i as int)
            &&& r is None ==> last_where(s@, lo as int, hi as int, pred) is None
        }),
{
    let mut k: usize = hi;
    while k > lo
        invariant
            lo <= k <= hi <= s@.len(),
            kind < 4,
            last_where(s@, lo as int, hi as int, pred_of(kind)) == last_where(s@, lo as int, k as int, pred_of(kind)),
        decreases k,
    {
        if matches_kind(&s[k - 1], kind) {
            return Some(k - 1);
        }
        k = k - 1;
    }
    None
}

fn find_first(s: &Vec<PortInfo>, lo: usize, hi: usize, kind: u8) -> (r: Option<usize>)
    requires
        lo <= hi <= s@.len(),
        kind < 4,
    ensures
        ({
            let pred = pred_of(kind);
            &&& r matches Some(i) ==> first_where(s@, lo as int, hi as int, pred) == Some(i as int)
            &&& r is None ==> first_where(s@, lo as int, hi as int, pred) is None
        }),
{
    let mut k: usize = lo;
    while k < hi
        invariant
            lo <= k <= hi <= s@.len(),
            kind < 4,
            first_where(s@, lo as int, hi as int, pred_of(kind)) == first_where(s@, k as int, hi as int, pred_of(kind)),
        decreases hi - k,
    {
        if matches_kind(&s[k], kind) {
            return Some(k);
        }
        k = k + 1;
    }
    None
}

pub open spec fn pred_of(kind: u8) -> spec_fn(PortInfo) -> bool {
    if kind == 0 {
        |p: PortInfo| goes_above(p)
    } else if kind == 1 {
        |p: PortInfo| vertical_or_boundary(p)
    } else if kind == 2 {
        |p: PortInfo| mf_fine_horizontal(p)
    } else {
        |p: PortInfo| not_data(p)
    }
}

fn matches_kind(p: &PortInfo, kind: u8) -> (r: bool)
    requires
        kind < 4,
    ensures
        r == (pred_of(kind))(*p),
{
    if kind == 0 {
        match p.must_go_vertical {
            Some(VerticalEdgeDocks::Below) => false,
            Some(VerticalEdgeDocks::Above) => true,
            None => match p.flow_type {
                PortFlowType::MessageAbove { .. } => true,
                PortFlowType::MessageBelow { .. } => false,
                PortFlowType::Sequence => !p.is_boundary_event,
                PortFlowType::Data => false,
            },
        }
    } else if kind == 1 {
        p.is_boundary_event || p.must_go_vertical.is_some()
    } else if kind == 2 {
        match p.flow_type {
            PortFlowType::MessageAbove { would_like_to_go_vertical } => !would_like_to_go_vertical,
            PortFlowType::MessageBelow { would_like_to_go_vertical } => !would_like_to_go_vertical,
            _ => false,
        }
    } else {
        !matches!(p.flow_type, PortFlowType::Data)
    }
}

/// Splits the ports of one side of a node (ordered from top to bottom) into top, upper side,
/// middle sequence flow, lower side and bottom, and marks the top and bottom ports that need a
/// bend dummy: in the top area every port from the first boundary event or horizontal upward
/// message flow on, in the bottom area every port up to the last such downward one.
#[verifier::rlimit(80)]
#[verifier::spinoff_prover]
pub fn partition_ports(ports: &mut Vec<PortInfo>) -> (r: PartitionedPortIndices)
    ensures
        r == spec_partition(old(ports)@),
        0 <= split_top(old(ports)@) <= above_end(old(ports)@) <= split_above(old(ports)@) <= split_below(old(ports)@)
            <= old(ports)@.len(),
        has_middle_sf(old(ports)@) ==> above_end(old(ports)@) + 1 == split_above(old(ports)@),
        !has_middle_sf(old(ports)@) ==> above_end(old(ports)@) == split_above(old(ports)@),
        final(ports)@.len() == old(ports)@.len(),
        forall|i: int| 0 <= i < old(ports)@.len() ==> (#[trigger] final(ports)@[i]) == (PortInfo {
            requires_bend_dummy: bend_flag(old(ports)@, i),
            ..old(ports)@[i]
        }),
{
    let ghost s = ports@;
    let n = ports.len();
    proof {
        lemma_last_where_range(s, 0, n as int, pred_of(0));
    }
    let split_point = match find_last(ports, 0, n, 0) {
        Some(i) => i + 1,
        None => 0,
    };
    assert(pred_of(0) == (|p: PortInfo| goes_above(p)));
    assert(split_point == split_above(s));
    assert(pred_of(1) == (|p: PortInfo| vertical_or_boundary(p)));
    assert(pred_of(2) == (|p: PortInfo| mf_fine_horizontal(p)));
    assert(pred_of(3) == (|p: PortInfo| not_data(p)));
    proof {
        lemma_first_where_range(s, split_point as int, n as int, pred_of(1));
        lemma_last_where_range(s, split_point as int, n as int, pred_of(2));
        lemma_first_where_range(s, split_point as int, n as int, pred_of(3));
    }
    let bottom_start = match find_first(ports, split_point, n, 1) {
        Some(i) => i,
        None => match find_last(ports, split_point, n, 2) {
            Some(i) => i + 1,
            None => match find_first(ports, split_point, n, 3) {
                Some(i) => i,
                None => n,
            },
        },
    };
    assert(bottom_start == split_below(s));
    let middle = split_point > 0 && ports[split_point - 1].must_go_vertical.is_none()
        && matches!(ports[split_point - 1].flow_type, PortFlowType::Sequence) && !ports[split_point - 1].is_boundary_event;
    assert(middle == has_middle_sf(s));
    let above_len = if middle { split_point - 1 } else { split_point };
    assert(above_len == above_end(s));
    proof {
        lemma_last_where_range(s, 0, above_len as int, pred_of(1));
        lemma_first_where_range(s, 0, above_len as int, pred_of(2));
        lemma_last_where_range(s, 0, above_len as int, pred_of(3));
    }
    let top_end = match find_last(ports, 0, above_len, 1) {
        Some(i) => i + 1,
        None => match find_first(ports, 0, above_len, 2) {
            Some(i) => i,
            None => match find_last(ports, 0, above_len, 3) {
                Some(i) => i + 1,
                None => 0,
            },
        },
    };
    assert(top_end == split_top(s));
    assert(top_end <= above_len <= split_point <= bottom_start <= n);
    let mut requires_bend_dummy = false;
    let mut i: usize = 0;
    while i < top_end
        invariant
            0 <= i <= top_end <= n,
            n == s.len(),
            top_end == split_top(s),
            bottom_start == split_below(s),
            top_end <= bottom_start,
            ports@.len() == n,
            requires_bend_dummy == exists|j: int| 0 <= j < i && top_trigger(#[trigger] s[j]),
            forall|k: int| 0 <= k < i ==> (#[trigger] ports@[k]) == (PortInfo { requires_bend_dummy: bend_flag(s, k), ..s[k] }),
            forall|k: int| i <= k < n ==> (#[trigger] ports@[k]) == s[k],
        decreases top_end - i,
    {
        let p = ports[i];
        let trigger = p.is_boundary_event || matches!(p.flow_type, PortFlowType::MessageAbove { would_like_to_go_vertical: false });
        if !requires_bend_dummy && trigger {
            requires_bend_dummy = true;
        }
        ports.set(i, PortInfo { requires_bend_dummy, ..p });
        assert(top_trigger(s[i as int]) == trigger);
        assert(requires_bend_dummy == exists|j: int| 0 <= j <= i && top_trigger(#[trigger] s[j]));
        i = i + 1;
    }
    let mut requires_bend_dummy = false;
    let mut k: usize = n;
    while k > bottom_start
        invariant
            bottom_start <= k <= n,
            n == s.len(),
            top_end == split_top(s),
            bottom_start == split_below(s),
            top_end <= bottom_start,
            ports@.len() == n,
            requires_bend_dummy == exists|j: int| k <= j < n && bottom_trigger(#[trigger] s[j]),
            forall|m: int| 0 <= m < top_end ==> (#[trigger] ports@[m]) == (PortInfo { requires_bend_dummy: bend_flag(s, m), ..s[m] }),
            forall|m: int| k <= m < n ==> (#[trigger] ports@[m]) == (PortInfo { requires_bend_dummy: bend_flag(s, m), ..s[m] }),
            forall|m: int| top_end <= m < k ==> (#[trigger] ports@[m]) == s[m],
        decreases k,
    {
        let p = ports[k - 1];
        let trigger = p.is_boundary_event || matches!(p.flow_type, PortFlowType::MessageBelow { would_like_to_go_vertical: false });
        if !requires_bend_dummy && trigger {
            requires_bend_dummy = true;
        }
        ports.set(k - 1, PortInfo { requires_bend_dummy, ..p });
        assert(bottom_trigger(s[k - 1]) == trigger);
        assert(requires_bend_dummy == exists|j: int| k - 1 <= j < n && bottom_trigger(#[trigger] s[j]));
        k = k - 1;
    }
    assert forall|m: int| 0 <= m < n implies (#[trigger] ports@[m]) == (PortInfo { requires_bend_dummy: bend_flag(s, m), ..s[m] }) by {
        if top_end <= m < bottom_start {
            assert(ports@[m] == s[m]);
        }
    }
    PartitionedPortIndices {
        top: (0, top_end),
        side_upper: (top_end, above_len),
        side_middle_sf: if middle { Some(split_point - 1) } else { None },
        side_lower: (split_point, bottom_start),
        bottom: (bottom_start, n),
    }
}

/// Where a bend dummy next to a gateway goes, relative to the other nodes in its lane.
#[derive(Debug, Clone, Copy)]
pub enum PlaceForBendDummy {
    AtTheTop,
    Above(NodeId),
    Below(NodeId),
    AtTheBottom,
}

/// Keeps the better of two positions for a bend dummy, judged by their crossing numbers (lower is
/// better). Above the gateway a tie moves to the new position, which is closer to the gateway;
/// below it only a strictly better one is taken.
pub fn maybe_update_best_position(current_best_position: &mut (bool, PoolAndLane, PlaceForBendDummy, i32),
    new_best_position_candidate: (bool, PoolAndLane, PlaceForBendDummy, i32), is_above_gateway: bool)
    ensures
        *final(current_best_position) == if (is_above_gateway && new_best_position_candidate.3 <= old(current_best_position).3)
            || (!is_above_gateway && new_best_position_candidate.3 < old(current_best_position).3) {
            new_best_position_candidate
        } else {
            *old(current_best_position)
        },
{
    let current_crossing_number = new_best_position_candidate.3;
    if is_above_gateway {
        if current_crossing_number <= current_best_position.3 {
            *current_best_position = new_best_position_candidate;
        }
    } else {
        if current_crossing_number < current_best_position.3 {
            *current_best_position = new_best_position_candidate;
        }
    }
}


/// The nearest node above or below a node that an edge cannot pass: its lane, and the real node
/// that blocks (for a bend dummy, the node it belongs to).
#[derive(Debug, Clone, Copy)]
pub struct BarrierInfo {
    pub pool_and_lane: PoolAndLane,
    pub blocking_real_node: NodeId,
}

/// The first node of `ids` that is not a long edge dummy.
pub open spec fn first_blocking(g: Graph, ids: Seq<NodeId>) -> Option<NodeId>
    decreases ids.len(),
{
    if ids.len() == 0 {
        None
    } else if g.nodes@[ids[0].0 as int].node_type is LongEdgeDummy {
        first_blocking(g, ids.drop_first())
    } else {
        Some(ids[0])
    }
}

/// The barrier that node `b` forms, if any.
pub open spec fn barrier_of(g: Graph, b: Option<NodeId>) -> Option<BarrierInfo> {
    match b {
        None => None,
        Some(id) => {
            let n = g.nodes@[id.0 as int];
            let pl = PoolAndLane { pool: n.pool, lane: n.lane };
            match n.node_type {
                NodeType::BendDummy { originating_node, .. } => Some(BarrierInfo { pool_and_lane: pl, blocking_real_node: originating_node }),
                _ => Some(BarrierInfo { pool_and_lane: pl, blocking_real_node: n.id }),
            }
        },
    }
}

/// The barrier of a walk is formed by its first node that is not a long edge dummy: it lies in
/// that node's lane, and the node that blocks is the real node that the barrier stands for: the
/// node that a bend dummy was made for, or the node itself. A walk of long edge dummies only has
/// no barrier.
pub proof fn lemma_barrier_is_first_blocker(g: Graph, ids: Seq<NodeId>)
    ensures
        barrier_of(g, first_blocking(g, ids)) is None <==> forall|i: int| 0 <= i < ids.len()
            ==> (g.nodes@[(#[trigger] ids[i]).0 as int].node_type is LongEdgeDummy),
        barrier_of(g, first_blocking(g, ids)) matches Some(b) ==> exists|k: int| 0 <= k < ids.len() && ({
            let n = g.nodes@[(#[trigger] ids[k]).0 as int];
            &&& !(n.node_type is LongEdgeDummy)
            &&& forall|j: int| 0 <= j < k ==> g.nodes@[(#[trigger] ids[j]).0 as int].node_type is LongEdgeDummy
            &&& b.pool_and_lane == (PoolAndLane { pool: n.pool, lane: n.lane })
            &&& (n.node_type is BendDummy ==> b.blocking_real_node == n.node_type->BendDummy_originating_node)
            &&& (!(n.node_type is BendDummy) ==> b.blocking_real_node == n.id)
        }),
    decreases ids.len(),
{
    if ids.len() > 0 {
        let t = ids.drop_first();
        lemma_barrier_is_first_blocker(g, t);
        assert forall|i: int| 0 <= i < t.len() implies #[trigger] t[i] == ids[i + 1] by {}
        if g.nodes@[ids[0].0 as int].node_type is LongEdgeDummy {
            if barrier_of(g, first_blocking(g, t)) is None {
                assert forall|i: int| 0 <= i < ids.len() implies (g.nodes@[(#[trigger] ids[i]).0 as int].node_type is LongEdgeDummy) by {
                    if i > 0 {
                        assert(ids[i] == t[i - 1]);
                    }
                }
            } else {
                let b = barrier_of(g, first_blocking(g, t))->0;
                let k = choose|k: int| 0 <= k < t.len() && ({
                    let n = g.nodes@[(#[trigger] t[k]).0 as int];
                    &&& !(n.node_type is LongEdgeDummy)
                    &&& forall|j: int| 0 <= j < k ==> g.nodes@[(#[trigger] t[j]).0 as int].node_type is LongEdgeDummy
                    &&& b.pool_and_lane == (PoolAndLane { pool: n.pool, lane: n.lane })
                    &&& (n.node_type is BendDummy ==> b.blocking_real_node == n.node_type->BendDummy_originating_node)
                    &&& (!(n.node_type is BendDummy) ==> b.blocking_real_node == n.id)
                });
                assert(ids[k + 1] == t[k]);
                assert forall|j: int| 0 <= j < k + 1 implies g.nodes@[(#[trigger] ids[j]).0 as int].node_type is LongEdgeDummy by {
                    if j > 0 {
                        assert(ids[j] == t[j - 1]);
                    }
                }
                let n = g.nodes@[ids[k + 1].0 as int];
                assert(!(n.node_type is LongEdgeDummy));
                assert(b.pool_and_lane == (PoolAndLane { pool: n.pool, lane: n.lane }));
                if !(forall|i: int| 0 <= i < ids.len() ==> (g.nodes@[(#[trigger] ids[i]).0 as int].node_type is LongEdgeDummy)) {
                } else {
                    assert(g.nodes@[ids[k + 1].0 as int].node_type is LongEdgeDummy);
                }
            }
        } else {
            assert(!(g.nodes@[ids[0].0 as int].node_type is LongEdgeDummy));
        }
    }
}

/// The walked nodes all exist.
pub open spec fn all_exist(g: Graph, ids: Seq<NodeId>) -> bool {
    forall|i: int| 0 <= i < ids.len() ==> (#[trigger] ids[i]).0 < g.nodes@.len()
}

fn find_barrier(graph: &Graph, ids: &Vec<NodeId>) -> (r: Option<BarrierInfo>)
    requires
        all_exist(*graph, ids@),
    ensures
        r == barrier_of(*graph, first_blocking(*graph, ids@)),
{
    let mut k: usize = 0;
    assert(ids@.skip(0) =~= ids@);
    while k < ids.len()
        invariant
            k <= ids@.len(),
            all_exist(*graph, ids@),
            first_blocking(*graph, ids@) == first_blocking(*graph, ids@.skip(k as int)),
        decreases ids@.len() - k,
    {
        assert(ids@.skip(k as int)[0] == ids@[k as int]);
        assert(ids@.skip(k as int).drop_first() =~= ids@.skip(k + 1));
        let node = &graph.nodes[ids[k].0];
        if !node.is_long_edge_dummy() {
            let pl = node.pool_and_lane();
            return match &node.node_type {
                NodeType::BendDummy { originating_node, .. } => Some(BarrierInfo { pool_and_lane: pl, blocking_real_node: *originating_node }),
                _ => Some(BarrierInfo { pool_and_lane: pl, blocking_real_node: node.id }),
            };
        }
        k = k + 1;
    }
    None
}

/// The nearest node above `this_node_id` in its layer, over all pools, that is not a long edge
/// dummy, as a barrier.
pub fn top_barrier(graph: &Graph, this_node_id: NodeId) -> (r: Option<BarrierInfo>)
    requires
        start_ok(*graph, StartAt::Node(this_node_id), None, false),
        all_pools_up(*graph, StartAt::Node(this_node_id), None) matches Some(ids) && all_exist(*graph, ids),
    ensures
        r == barrier_of(*graph, first_blocking(*graph, all_pools_up(*graph, StartAt::Node(this_node_id), None)->0)),
{
    let above = graph.iter_upwards_all_pools(StartAt::Node(this_node_id), None);
    find_barrier(graph, &above)
}

/// The nearest node below `this_node_id` in its layer, over all pools, that is not a long edge
/// dummy, as a barrier.
pub fn bottom_barrier(graph: &Graph, this_node_id: NodeId) -> (r: Option<BarrierInfo>)
    requires
        start_ok(*graph, StartAt::Node(this_node_id), None, true),
        all_pools_down(*graph, StartAt::Node(this_node_id), None) matches Some(ids) && all_exist(*graph, ids),
    ensures
        r == barrier_of(*graph, first_blocking(*graph, all_pools_down(*graph, StartAt::Node(this_node_id), None)->0)),
{
    let below = graph.iter_downwards_all_pools(StartAt::Node(this_node_id), None);
    find_barrier(graph, &below)
}

} // verus!
