//! Data objects placed in a half layer (between two regular layers) stay there only where no
//! vertical edge segment runs through that spot; otherwise they go back into their layer.
use vstd::prelude::*;
use crate::config::spec_layer_width;
use crate::graph::{
    spec_is_data, spec_is_dummy, spec_port_is_left_or_right, spec_port_of, ports_fit, FlowType, Edge, Graph, Node,
    DATAOBJECT_NODE_HEIGHT,
};
use crate::ids::{pool_and_lane_lt, EdgeId, NodeId, PoolAndLane, RelativePort, XY};

verus! {

/// Air left between elements.
pub const WHITE_SPACING: usize = 5;

/// Room kept free above a vertical edge segment: a data object and air.
pub const TOP_PADDING: usize = DATAOBJECT_NODE_HEIGHT + WHITE_SPACING;

/// Room kept free below a vertical edge segment.
pub const BOTTOM_PADDING: usize = WHITE_SPACING;

/// A stretch `top..=bottom` of the edge space right of layer `layer` that an edge runs through,
/// with padding added.
#[derive(Debug, Clone, Copy)]
pub struct VerticalSegment {
    pub layer: usize,
    pub top: usize,
    pub bottom: usize,
}

pub open spec fn min_int(a: int, b: int) -> int {
    if a <= b { a } else { b }
}

pub open spec fn max_int(a: int, b: int) -> int {
    if a >= b { a } else { b }
}

/// The segment from `top` to `bottom` right of `layer`, with the padding added.
pub open spec fn padded(layer: usize, top: usize, bottom: usize) -> VerticalSegment {
    VerticalSegment {
        layer,
        top: top.saturating_sub(TOP_PADDING),
        bottom: bottom.saturating_add(BOTTOM_PADDING),
    }
}

pub open spec fn pl_of(n: Node) -> PoolAndLane {
    PoolAndLane { pool: n.pool, lane: n.lane }
}

/// The height at which a message flow from `left` to `right` goes horizontal: the border of
/// the pool it leaves, the lower one when it goes down.
pub open spec fn message_midpoint(g: Graph, left: Node, right: Node) -> int {
    let pool = g.pools@[left.pool.0 as int];
    if pool_and_lane_lt(pl_of(left), pl_of(right)) { pool.y + pool.height } else { pool.y as int }
}

/// Where a node's absolute port of an edge lies (it must have one).
pub open spec fn outgoing_port(n: Node, e: EdgeId) -> crate::ids::AbsolutePort {
    spec_port_of(n.outgoing@, n.outgoing_ports@, XY { x: n.x, y: n.y }, e)->0
}

pub open spec fn incoming_port(n: Node, e: EdgeId) -> crate::ids::AbsolutePort {
    spec_port_of(n.incoming@, n.incoming_ports@, XY { x: n.x, y: n.y }, e)->0
}

/// The layer right of which a message flow runs vertically at its start node `n`, if it does
/// there: a bend dummy's own layer, else the layer on the side of its port.
pub open spec fn message_start_layer(n: Node, e: EdgeId) -> Option<usize> {
    if spec_is_dummy(n.node_type) {
        Some(n.layer_id.0)
    } else {
        let p = outgoing_port(n, e);
        if !spec_port_is_left_or_right(n, p.y) {
            None
        } else if p.x == n.x {
            if n.layer_id.0 == 0 { None } else { Some((n.layer_id.0 - 1) as usize) }
        } else {
            Some(n.layer_id.0)
        }
    }
}

/// The layer right of which a message flow runs vertically at its end node `n`, if it does
/// there: the layer left of a bend dummy, else the layer on the side of its port.
pub open spec fn message_end_layer(n: Node, e: EdgeId) -> Option<usize> {
    if spec_is_dummy(n.node_type) {
        if n.layer_id.0 == 0 { None } else { Some((n.layer_id.0 - 1) as usize) }
    } else {
        let p = incoming_port(n, e);
        if !spec_port_is_left_or_right(n, p.y) {
            None
        } else if p.x == n.x {
            if n.layer_id.0 == 0 { None } else { Some((n.layer_id.0 - 1) as usize) }
        } else {
            Some(n.layer_id.0)
        }
    }
}

/// The segment between node `n` and the height `midpoint`, right of `layer` if there is one.
pub open spec fn node_segment(layer: Option<usize>, n: Node, midpoint: int) -> Seq<VerticalSegment> {
    match layer {
        Some(l) => seq![padded(l, min_int(n.y as int, midpoint) as usize, max_int(n.y + n.height, midpoint) as usize)],
        None => Seq::empty(),
    }
}

/// The vertical segments of edge `e`: none for data flows, vertical sequence flows and edges
/// replaced by dummies; the span of both ends for other sequence flows; and for a message flow
/// the stretch from each end node to the pool border where it goes horizontal.
pub open spec fn edge_segments(g: Graph, e: int) -> Seq<VerticalSegment> {
    let edge = g.edges@[e];
    let left = g.nodes@[edge.from.0 as int];
    let right = g.nodes@[edge.to.0 as int];
    if edge.edge_type is ReplacedByDummies {
        Seq::empty()
    } else {
        match edge.flow_type {
            FlowType::DataFlow(_) => Seq::empty(),
            FlowType::MessageFlow(_) => {
                let m = message_midpoint(g, left, right);
                node_segment(message_start_layer(left, EdgeId(e as usize)), left, m)
                    + node_segment(message_end_layer(right, EdgeId(e as usize)), right, m)
            },
            FlowType::SequenceFlow => if edge.is_vertical {
                Seq::empty()
            } else {
                seq![padded(
                    left.layer_id.0,
                    min_int(left.y as int, right.y as int) as usize,
                    max_int(left.y + left.height, right.y + right.height) as usize,
                )]
            },
        }
    }
}

/// The vertical segments of the first `k` edges, edge by edge.
pub open spec fn all_segments(g: Graph, k: int) -> Seq<VerticalSegment>
    decreases k,
{
    if k <= 0 { Seq::empty() } else { all_segments(g, k - 1) + edge_segments(g, k - 1) }
}

/// A node's box and ports stay within `usize`.
pub open spec fn node_fits(n: Node) -> bool {
    &&& n.y + n.height <= usize::MAX
    &&& n.x + n.width <= usize::MAX
    &&& ports_fit(n.incoming_ports@, n.x, n.y)
    &&& ports_fit(n.outgoing_ports@, n.x, n.y)
}

/// What the segments of the edges need: edges between existing nodes, boxes within `usize`,
/// and for a message flow an existing pool whose bottom fits, and a port at each end that is no
/// bend dummy.
pub open spec fn segments_ok(g: Graph) -> bool {
    &&& forall|i: int| 0 <= i < g.nodes@.len() ==> node_fits(#[trigger] g.nodes@[i])
    &&& forall|e: int| 0 <= e < g.edges@.len() ==> {
        let edge = #[trigger] g.edges@[e];
        let left = g.nodes@[edge.from.0 as int];
        let right = g.nodes@[edge.to.0 as int];
        &&& edge.from.0 < g.nodes@.len()
        &&& edge.to.0 < g.nodes@.len()
        &&& (edge.flow_type is MessageFlow && !(edge.edge_type is ReplacedByDummies)) ==> {
            &&& left.pool.0 < g.pools@.len()
            &&& g.pools@[left.pool.0 as int].y + g.pools@[left.pool.0 as int].height <= usize::MAX
            &&& !spec_is_dummy(left.node_type) ==> spec_port_of(
                left.outgoing@, left.outgoing_ports@, XY { x: left.x, y: left.y }, EdgeId(e as usize)) is Some
            &&& !spec_is_dummy(right.node_type) ==> spec_port_of(
                right.incoming@, right.incoming_ports@, XY { x: right.x, y: right.y }, EdgeId(e as usize)) is Some
        }
    }
}

fn padded_segment(layer: usize, top: usize, bottom: usize) -> (r: VerticalSegment)
    ensures
        r == padded(layer, top, bottom),
{
    VerticalSegment { layer, top: top.saturating_sub(TOP_PADDING), bottom: bottom.saturating_add(BOTTOM_PADDING) }
}

fn message_start_layer_of(n: &Node, e: EdgeId) -> (r: Option<usize>)
    requires
        node_fits(*n),
        !spec_is_dummy(n.node_type) ==> spec_port_of(n.outgoing@, n.outgoing_ports@, XY { x: n.x, y: n.y }, e) is Some,
    ensures
        r == message_start_layer(*n, e),
{
    if n.is_dummy() {
        return Some(n.layer_id.0);
    }
    let p = n.port_of_outgoing(e).unwrap();
    if !n.port_is_left_or_right(p.y) {
        None
    } else if p.x == n.x {
        if n.layer_id.0 == 0 { None } else { Some(n.layer_id.0 - 1) }
    } else {
        Some(n.layer_id.0)
    }
}

fn message_end_layer_of(n: &Node, e: EdgeId) -> (r: Option<usize>)
    requires
        node_fits(*n),
        !spec_is_dummy(n.node_type) ==> spec_port_of(n.incoming@, n.incoming_ports@, XY { x: n.x, y: n.y }, e) is Some,
    ensures
        r == message_end_layer(*n, e),
{
    if n.is_dummy() {
        return if n.layer_id.0 == 0 { None } else { Some(n.layer_id.0 - 1) };
    }
    let p = n.port_of_incoming(e).unwrap();
    if !n.port_is_left_or_right(p.y) {
        None
    } else if p.x == n.x {
        if n.layer_id.0 == 0 { None } else { Some(n.layer_id.0 - 1) }
    } else {
        Some(n.layer_id.0)
    }
}

fn push_node_segment(segs: &mut Vec<VerticalSegment>, layer: Option<usize>, n: &Node, midpoint: usize)
    requires
        n.y + n.height <= usize::MAX,
    ensures
        final(segs)@ == old(segs)@ + node_segment(layer, *n, midpoint as int),
{
    if let Some(l) = layer {
        let top = if n.y <= midpoint { n.y } else { midpoint };
        let bottom = if n.y + n.height >= midpoint { n.y + n.height } else { midpoint };
        segs.push(padded_segment(l, top, bottom));
    }
    proof {
        if layer is None {
            assert(final(segs)@ =~= old(segs)@ + node_segment(layer, *n, midpoint as int));
        }
    }
}

/// The vertical segments of all edges, in the order of the edges.
pub fn vertical_segments(g: &Graph) -> (r: Vec<VerticalSegment>)
    requires
        segments_ok(*g),
    ensures
        r@ == all_segments(*g, g.edges@.len() as int),
{
    let mut segs: Vec<VerticalSegment> = Vec::new();
    let mut i: usize = 0;
    while i < g.edges.len()
        invariant
            i <= g.edges@.len(),
            segments_ok(*g),
            segs@ == all_segments(*g, i as int),
        decreases g.edges@.len() - i,
    {
        let ghost before = segs@;
        let edge = &g.edges[i];
        assert(edge.from.0 < g.nodes@.len() && edge.to.0 < g.nodes@.len());
        let left = &g.nodes[edge.from.0];
        let right = &g.nodes[edge.to.0];
        assert(node_fits(*left) && node_fits(*right));
        if !edge.is_replaced_by_dummies() {
            match &edge.flow_type {
                FlowType::DataFlow(_) => {},
                FlowType::MessageFlow(_) => {
                    let pool = &g.pools[left.pool.0];
                    let midpoint = if left.pool_and_lane().less_than(&right.pool_and_lane()) {
                        pool.y + pool.height
                    } else {
                        pool.y
                    };
                    let first = message_start_layer_of(left, EdgeId(i));
                    push_node_segment(&mut segs, first, left, midpoint);
                    let last = message_end_layer_of(right, EdgeId(i));
                    push_node_segment(&mut segs, last, right, midpoint);
                    assert(segs@ =~= before + edge_segments(*g, i as int));
                },
                FlowType::SequenceFlow => {
                    if !edge.is_vertical {
                        let top = if left.y <= right.y { left.y } else { right.y };
                        let bottom = if left.y + left.height >= right.y + right.height {
                            left.y + left.height
                        } else {
                            right.y + right.height
                        };
                        segs.push(padded_segment(left.layer_id.0, top, bottom));
                    }
                },
            }
        }
        assert(segs@ =~= before + edge_segments(*g, i as int));
        i = i + 1;
    }
    segs
}

/// Some segment right of `layer` covers height `y`.
pub open spec fn blocked(segs: Seq<VerticalSegment>, layer: usize, y: usize) -> bool {
    exists|k: int| 0 <= k < segs.len() && (#[trigger] segs[k]).layer == layer && segs[k].top <= y <= segs[k].bottom
}

fn is_blocked(segs: &Vec<VerticalSegment>, layer: usize, y: usize) -> (r: bool)
    ensures
        r == blocked(segs@, layer, y),
{
    let mut k: usize = 0;
    while k < segs.len()
        invariant
            k <= segs@.len(),
            forall|j: int| 0 <= j < k ==> !((#[trigger] segs@[j]).layer == layer && segs@[j].top <= y <= segs@[j].bottom),
        decreases segs@.len() - k,
    {
        if segs[k].layer == layer && segs[k].top <= y && y <= segs[k].bottom {
            return true;
        }
        k = k + 1;
    }
    false
}

/// The neighbours of `n`, each with the port of the edge to it: the targets of its outgoing
/// edges, then the sources of its incoming edges, each edge paired with the port at its
/// position.
pub open spec fn neighbours_with_ports(edges: Seq<Edge>, n: Node) -> Seq<(NodeId, RelativePort)> {
    let outs = Seq::new(
        min_int(n.outgoing@.len() as int, n.outgoing_ports@.len() as int) as nat,
        |j: int| (edges[n.outgoing@[j].0 as int].to, n.outgoing_ports@[j]),
    );
    let ins = Seq::new(
        min_int(n.incoming@.len() as int, n.incoming_ports@.len() as int) as nat,
        |j: int| (edges[n.incoming@[j].0 as int].from, n.incoming_ports@[j]),
    );
    outs + ins
}

/// The first of `cands`, from position `j` on, whose node lies in `layer`.
pub open spec fn first_in_layer(nodes: Seq<Node>, cands: Seq<(NodeId, RelativePort)>, layer: int, j: int) -> Option<(NodeId, RelativePort)>
    decreases cands.len() - j,
{
    if j < 0 || j >= cands.len() {
        None
    } else if nodes[cands[j].0.0 as int].layer_id.0 == layer {
        Some(cands[j])
    } else {
        first_in_layer(nodes, cands, layer, j + 1)
    }
}

/// The data node lies in the lane of both its neighbours, in the layer of `left` and just before
/// the layer of `right`.
pub open spec fn sandwiched(left: Node, data_node: Node, right: Node) -> bool {
    &&& pl_of(left) == pl_of(data_node)
    &&& left.layer_id == data_node.layer_id
    &&& pl_of(right) == pl_of(data_node)
    &&& data_node.layer_id.0 + 1 == right.layer_id.0
}

/// What becomes of a node in a half layer.
pub enum HalfLayerDecision {
    /// It stays as it is.
    Unchanged,
    /// An edge runs through its spot: it goes back into its layer.
    LeaveHalfLayer,
    /// It is centred in the gap between the source of its one incoming edge and the target of
    /// its one outgoing edge.
    Between(NodeId, NodeId),
    /// It moves right by half a layer.
    Shift,
}

/// The decision for node `i` of `nodes` (edges `g.edges`, segments `segs`).
pub open spec fn decision(g: Graph, nodes: Seq<Node>, segs: Seq<VerticalSegment>, i: int) -> HalfLayerDecision {
    let n = nodes[i];
    if !n.uses_half_layer {
        HalfLayerDecision::Unchanged
    } else if blocked(segs, n.layer_id.0, n.y) {
        HalfLayerDecision::LeaveHalfLayer
    } else {
        match first_in_layer(nodes, neighbours_with_ports(g.edges@, n), n.layer_id.0 + 1, 0) {
            None => HalfLayerDecision::Unchanged,
            Some((other, port)) => if spec_is_dummy(nodes[other.0 as int].node_type) && nodes[other.0 as int].y != port.y + n.y {
                HalfLayerDecision::Unchanged
            } else {
                let f = g.edges@[n.incoming@[0].0 as int].from;
                let t = g.edges@[n.outgoing@[0].0 as int].to;
                if n.incoming@.len() == 1 && n.outgoing@.len() == 1 && sandwiched(nodes[f.0 as int], n, nodes[t.0 as int]) {
                    HalfLayerDecision::Between(f, t)
                } else {
                    HalfLayerDecision::Shift
                }
            },
        }
    }
}

/// The centre of the gap between the right border of the left one of `a` and `b` and the left
/// border of the other.
pub open spec fn gap_center(a: Node, b: Node) -> int {
    if a.x < b.x { (a.x + a.width + b.x) / 2 } else { (b.x + b.width + a.x) / 2 }
}

/// Node `i` of `nodes` after the decision on it.
pub open spec fn moved_node(g: Graph, nodes: Seq<Node>, segs: Seq<VerticalSegment>, i: int) -> Node {
    let n = nodes[i];
    match decision(g, nodes, segs, i) {
        HalfLayerDecision::Unchanged => n,
        HalfLayerDecision::LeaveHalfLayer => Node { uses_half_layer: false, ..n },
        HalfLayerDecision::Between(f, t) => Node {
            x: (gap_center(nodes[f.0 as int], nodes[t.0 as int]) - n.width / 2) as usize,
            ..n
        },
        HalfLayerDecision::Shift => Node { x: (n.x + spec_layer_width(g.config) / 2) as usize, ..n },
    }
}

/// The arithmetic of the decision on node `i` stays within `usize`.
pub open spec fn move_fits(g: Graph, nodes: Seq<Node>, segs: Seq<VerticalSegment>, i: int) -> bool {
    let n = nodes[i];
    match decision(g, nodes, segs, i) {
        HalfLayerDecision::Between(f, t) => {
            let (a, b) = (nodes[f.0 as int], nodes[t.0 as int]);
            &&& (if a.x < b.x { a.x + a.width <= usize::MAX } else { b.x + b.width <= usize::MAX })
            &&& gap_center(a, b) >= n.width / 2
        },
        HalfLayerDecision::Shift => n.x + spec_layer_width(g.config) / 2 <= usize::MAX,
        _ => true,
    }
}

/// The nodes after deciding on the first `k` of them, one after the other.
pub open spec fn half_layer_fold(g: Graph, segs: Seq<VerticalSegment>, k: int) -> Seq<Node>
    decreases k,
{
    if k <= 0 {
        g.nodes@
    } else {
        let prev = half_layer_fold(g, segs, k - 1);
        prev.update(k - 1, moved_node(g, prev, segs, k - 1))
    }
}

/// The segments of all edges of `g`.
pub open spec fn segments_of(g: Graph) -> Seq<VerticalSegment> {
    all_segments(g, g.edges@.len() as int)
}

/// What moving the nodes needs besides the segments: only data nodes use half layers, the
/// edge lists of the nodes hold existing edges, and the arithmetic of every move fits.
pub open spec fn half_layer_ok(g: Graph) -> bool {
    &&& segments_ok(g)
    &&& spec_layer_width(g.config) <= usize::MAX
    &&& forall|i: int| 0 <= i < g.nodes@.len() ==> {
        let n = #[trigger] g.nodes@[i];
        &&& n.uses_half_layer ==> spec_is_data(n.node_type)
        &&& forall|k: int| 0 <= k < n.incoming@.len() ==> (#[trigger] n.incoming@[k]).0 < g.edges@.len()
        &&& forall|k: int| 0 <= k < n.outgoing@.len() ==> (#[trigger] n.outgoing@[k]).0 < g.edges@.len()
    }
    &&& forall|i: int| 0 <= i < g.nodes@.len() ==> #[trigger] move_fits(g, half_layer_fold(g, segments_of(g), i), segments_of(g), i)
}

/// `b` is `a` but for its x position and whether it uses a half layer.
pub open spec fn same_but_placement(a: Node, b: Node) -> bool {
    b == Node { x: b.x, uses_half_layer: b.uses_half_layer, ..a }
}

proof fn lemma_fold(g: Graph, segs: Seq<VerticalSegment>, k: int)
    requires
        0 <= k <= g.nodes@.len(),
    ensures
        half_layer_fold(g, segs, k).len() == g.nodes@.len(),
        forall|j: int| k <= j < g.nodes@.len() ==> #[trigger] half_layer_fold(g, segs, k)[j] == g.nodes@[j],
        forall|j: int| 0 <= j < g.nodes@.len() ==> same_but_placement(g.nodes@[j], #[trigger] half_layer_fold(g, segs, k)[j]),
    decreases k,
{
    if k > 0 {
        lemma_fold(g, segs, k - 1);
    }
}

fn midpoint(a: usize, b: usize) -> (r: usize)
    ensures
        r == (a + b) / 2,
{
    if a <= b { a + (b - a) / 2 } else { b + (a - b) / 2 }
}

/// The first neighbour of node `i` (with its port) that lies in the layer after it.
fn first_in_next_layer(nodes: &Vec<Node>, edges: &Vec<Edge>, i: usize) -> (r: Option<(NodeId, RelativePort)>)
    requires
        i < nodes@.len(),
        forall|e: int| 0 <= e < edges@.len() ==> (#[trigger] edges@[e]).from.0 < nodes@.len() && edges@[e].to.0 < nodes@.len(),
        forall|k: int| 0 <= k < nodes@[i as int].incoming@.len() ==> (#[trigger] nodes@[i as int].incoming@[k]).0 < edges@.len(),
        forall|k: int| 0 <= k < nodes@[i as int].outgoing@.len() ==> (#[trigger] nodes@[i as int].outgoing@[k]).0 < edges@.len(),
    ensures
        r == first_in_layer(nodes@, neighbours_with_ports(edges@, nodes@[i as int]), nodes@[i as int].layer_id.0 + 1, 0),
        r matches Some((o, p)) ==> o.0 < nodes@.len() && ((exists|k: int| 0 <= k < nodes@[i as int].outgoing_ports@.len()
            && nodes@[i as int].outgoing_ports@[k] == p) || (exists|k: int| 0 <= k < nodes@[i as int].incoming_ports@.len()
            && nodes@[i as int].incoming_ports@[k] == p)),
{
    let n = &nodes[i];
    let layer = n.layer_id.0;
    let ghost cands = neighbours_with_ports(edges@, *n);
    let n_out = if n.outgoing.len() <= n.outgoing_ports.len() { n.outgoing.len() } else { n.outgoing_ports.len() };
    let n_in = if n.incoming.len() <= n.incoming_ports.len() { n.incoming.len() } else { n.incoming_ports.len() };
    assert(cands.len() == n_out + n_in);
    let mut j: usize = 0;
    while j < n_out
        invariant
            j <= n_out,
            n == &nodes@[i as int],
            layer == n.layer_id.0,
            cands == neighbours_with_ports(edges@, *n),
            cands.len() == n_out + n_in,
            n_out <= n.outgoing@.len() && n_out <= n.outgoing_ports@.len(),
            n_in <= n.incoming@.len() && n_in <= n.incoming_ports@.len(),
            forall|e: int| 0 <= e < edges@.len() ==> (#[trigger] edges@[e]).from.0 < nodes@.len() && edges@[e].to.0 < nodes@.len(),
            forall|k: int| 0 <= k < n.outgoing@.len() ==> (#[trigger] n.outgoing@[k]).0 < edges@.len(),
            first_in_layer(nodes@, cands, layer + 1, 0) == first_in_layer(nodes@, cands, layer + 1, j as int),
        decreases n_out - j,
    {
        let other = edges[n.outgoing[j].0].to;
        assert(cands[j as int] == (other, n.outgoing_ports@[j as int]));
        if nodes[other.0].layer_id.0 > 0 && nodes[other.0].layer_id.0 - 1 == layer {
            return Some((other, n.outgoing_ports[j]));
        }
        j = j + 1;
    }
    let mut k: usize = 0;
    while k < n_in
        invariant
            k <= n_in,
            n == &nodes@[i as int],
            layer == n.layer_id.0,
            cands == neighbours_with_ports(edges@, *n),
            cands.len() == n_out + n_in,
            n_out <= n.outgoing@.len() && n_out <= n.outgoing_ports@.len(),
            n_in <= n.incoming@.len() && n_in <= n.incoming_ports@.len(),
            forall|e: int| 0 <= e < edges@.len() ==> (#[trigger] edges@[e]).from.0 < nodes@.len() && edges@[e].to.0 < nodes@.len(),
            forall|q: int| 0 <= q < n.incoming@.len() ==> (#[trigger] n.incoming@[q]).0 < edges@.len(),
            first_in_layer(nodes@, cands, layer + 1, 0) == first_in_layer(nodes@, cands, layer + 1, n_out + k),
        decreases n_in - k,
    {
        let other = edges[n.incoming[k].0].from;
        assert(cands[n_out + k] == (other, n.incoming_ports@[k as int]));
        if nodes[other.0].layer_id.0 > 0 && nodes[other.0].layer_id.0 - 1 == layer {
            return Some((other, n.incoming_ports[k]));
        }
        k = k + 1;
    }
    None
}

/// Decides on node `i`.
fn decide(g: &Graph, nodes: &Vec<Node>, segs: &Vec<VerticalSegment>, i: usize) -> (r: HalfLayerDecision)
    requires
        i < nodes@.len(),
        nodes@.len() == g.nodes@.len(),
        node_fits(nodes@[i as int]),
        forall|e: int| 0 <= e < g.edges@.len() ==> (#[trigger] g.edges@[e]).from.0 < nodes@.len() && g.edges@[e].to.0 < nodes@.len(),
        forall|k: int| 0 <= k < nodes@[i as int].incoming@.len() ==> (#[trigger] nodes@[i as int].incoming@[k]).0 < g.edges@.len(),
        forall|k: int| 0 <= k < nodes@[i as int].outgoing@.len() ==> (#[trigger] nodes@[i as int].outgoing@[k]).0 < g.edges@.len(),
    ensures
        r == decision(*g, nodes@, segs@, i as int),
{
    let n = &nodes[i];
    if !n.uses_half_layer {
        return HalfLayerDecision::Unchanged;
    }
    if is_blocked(segs, n.layer_id.0, n.y) {
        return HalfLayerDecision::LeaveHalfLayer;
    }
    match first_in_next_layer(nodes, &g.edges, i) {
        None => HalfLayerDecision::Unchanged,
        Some((other, port)) => {
            proof {
                if exists|k: int| 0 <= k < n.outgoing_ports@.len() && n.outgoing_ports@[k] == port {
                    let k = choose|k: int| 0 <= k < n.outgoing_ports@.len() && n.outgoing_ports@[k] == port;
                    assert(ports_fit(n.outgoing_ports@, n.x, n.y));
                    assert(n.outgoing_ports@[k].x + n.x <= usize::MAX);
                } else {
                    let k = choose|k: int| 0 <= k < n.incoming_ports@.len() && n.incoming_ports@[k] == port;
                    assert(ports_fit(n.incoming_ports@, n.x, n.y));
                    assert(n.incoming_ports@[k].x + n.x <= usize::MAX);
                }
            }
            if nodes[other.0].is_dummy() && nodes[other.0].y != port.y + n.y {
                return HalfLayerDecision::Unchanged;
            }
            if n.incoming.len() == 1 && n.outgoing.len() == 1 {
                let f = g.edges[n.incoming[0].0].from;
                let t = g.edges[n.outgoing[0].0].to;
                let (left, right) = (&nodes[f.0], &nodes[t.0]);
                if left.pool.0 == n.pool.0 && left.lane.0 == n.lane.0 && left.layer_id.0 == n.layer_id.0
                    && right.pool.0 == n.pool.0 && right.lane.0 == n.lane.0 && right.layer_id.0 > 0
                    && right.layer_id.0 - 1 == n.layer_id.0 {
                    return HalfLayerDecision::Between(f, t);
                }
            }
            HalfLayerDecision::Shift
        },
    }
}

/// Takes data objects out of their half layer where a vertical edge segment runs through their
/// spot, and places the others: between the two nodes they connect when both sit in their lane
/// right before and after them, otherwise half a layer to the right. The nodes are handled one
/// after the other in the order of their ids.
pub fn try_move_nodes_into_half_layer(graph: &mut Graph)
    requires
        half_layer_ok(*old(graph)),
    ensures
        final(graph).nodes@ == half_layer_fold(*old(graph), segments_of(*old(graph)), old(graph).nodes@.len() as int),
        final(graph).edges == old(graph).edges,
        final(graph).pools == old(graph).pools,
        final(graph).data_elements == old(graph).data_elements,
        final(graph).config == old(graph).config,
        final(graph).num_layers == old(graph).num_layers,
        final(graph).pe_bpmd_definitions == old(graph).pe_bpmd_definitions,
{
    let ghost g0 = *graph;
    let segs = vertical_segments(graph);
    let lw = graph.config.layer_width();
    let mut i: usize = 0;
    while i < graph.nodes.len()
        invariant
            i <= graph.nodes@.len(),
            graph.nodes@.len() == g0.nodes@.len(),
            graph.nodes@ == half_layer_fold(g0, segs@, i as int),
            graph.edges == g0.edges,
            graph.pools == g0.pools,
            graph.data_elements == g0.data_elements,
            graph.config == g0.config,
            graph.num_layers == g0.num_layers,
            graph.pe_bpmd_definitions == g0.pe_bpmd_definitions,
            half_layer_ok(g0),
            segs@ == segments_of(g0),
            lw == spec_layer_width(g0.config),
        decreases g0.nodes@.len() - i,
    {
        proof {
            lemma_fold(g0, segs@, i as int);
            assert(graph.nodes@[i as int] == g0.nodes@[i as int]);
            assert(move_fits(g0, half_layer_fold(g0, segments_of(g0), i as int), segments_of(g0), i as int));
            let n = g0.nodes@[i as int];
            assert forall|k: int| 0 <= k < n.incoming@.len() implies (#[trigger] n.incoming@[k]).0 < g0.edges@.len() by {
                assert(g0.nodes@[i as int] == n);
            }
            assert forall|k: int| 0 <= k < n.outgoing@.len() implies (#[trigger] n.outgoing@[k]).0 < g0.edges@.len() by {
                assert(g0.nodes@[i as int] == n);
            }
        }
        let d = decide(graph, &graph.nodes, &segs, i);
        let ghost prev = graph.nodes@;
        match d {
            HalfLayerDecision::Unchanged => {},
            HalfLayerDecision::LeaveHalfLayer => {
                graph.nodes[i].uses_half_layer = false;
            },
            HalfLayerDecision::Between(f, t) => {
                let (fx, fw) = (graph.nodes[f.0].x, graph.nodes[f.0].width);
                let (tx, tw) = (graph.nodes[t.0].x, graph.nodes[t.0].width);
                let center = if fx < tx { midpoint(fx + fw, tx) } else { midpoint(tx + tw, fx) };
                let x = center - graph.nodes[i].width / 2;
                graph.nodes[i].x = x;
            },
            HalfLayerDecision::Shift => {
                let x = graph.nodes[i].x + lw / 2;
                graph.nodes[i].x = x;
            },
        }
        proof {
            assert(graph.nodes@ =~= prev.update(i as int, moved_node(g0, prev, segs@, i as int)));
        }
        i = i + 1;
    }
}

} // verus!
