//! The diagram graph: nodes, edges, pools, lanes and semantic data elements.
use vstd::prelude::*;
use crate::bpmn_node::{BoundaryEvent, BpmnNode, DataAux, DataType};
use crate::config::Config;
use crate::ids::{AbsolutePort, Coord3, EdgeId, LaneId, LayerId, NodeId, PoolAndLane, PoolId, RelativePort, SdeId, TokenCoordinate, XY};
use crate::pebpmd::{PeBpmd, PeBpmdProtection};
use crate::vecset::VecSet;

verus! {

pub const EVENT_NODE_WIDTH: usize = 36;
pub const EVENT_NODE_HEIGHT: usize = 36;
pub const GATEWAY_NODE_WIDTH: usize = 50;
pub const GATEWAY_NODE_HEIGHT: usize = 50;
pub const ACTIVITY_NODE_WIDTH: usize = 100;
pub const ACTIVITY_NODE_HEIGHT: usize = 80;
pub const DATASTORE_NODE_WIDTH: usize = 50;
pub const DATASTORE_NODE_HEIGHT: usize = 50;
pub const DATAOBJECT_NODE_WIDTH: usize = 36;
pub const DATAOBJECT_NODE_HEIGHT: usize = 50;
/// The widest node kind (the activity).
pub const MAX_NODE_WIDTH: usize = 100;
/// The highest node kind (the activity).
pub const MAX_NODE_HEIGHT: usize = 80;
/// Dummy nodes are as wide as the widest node, so their ports line up with real ones.
pub const DUMMY_NODE_WIDTH: usize = 100;
/// Dummy nodes have no height, so only padding separates the lines that pass them.
pub const DUMMY_NODE_HEIGHT: usize = 0;

/// The greatest value of a non-empty sequence.
pub open spec fn seq_max(s: Seq<usize>) -> usize
    decreases s.len(),
{
    if s.len() <= 1 {
        s[0]
    } else if s.last() > seq_max(s.drop_last()) {
        s.last()
    } else {
        seq_max(s.drop_last())
    }
}

/// The greatest of `values`, which must not be empty.
pub fn max_array(values: &[usize]) -> (r: usize)
    requires
        values@.len() > 0,
    ensures
        r == seq_max(values@),
        values@.contains(r),
        forall|i: int| 0 <= i < values@.len() ==> values@[i] <= r,
{
    let mut max = values[0];
    let mut i: usize = 1;
    assert(values@.take(1)[0] == values@[0]);
    while i < values.len()
        invariant
            1 <= i <= values@.len(),
            max == seq_max(values@.take(i as int)),
            values@.take(i as int).contains(max),
            forall|j: int| 0 <= j < i ==> values@[j] <= max,
        decreases values@.len() - i,
    {
        proof {
            assert(values@.take(i + 1).drop_last() == values@.take(i as int));
            assert(values@.take(i + 1).last() == values@[i as int]);
        }
        if values[i] > max {
            max = values[i];
        }
        proof {
            let t = values@.take(i as int);
            if t.contains(max) && max != values@[i as int] {
                let k = choose|k: int| 0 <= k < t.len() && t[k] == max;
                assert(values@.take(i + 1)[k] == max);
            }
            assert(values@.take(i + 1)[i as int] == values@[i as int]);
        }
        i = i + 1;
    }
    assert(values@.take(values@.len() as int) == values@);
    max
}

/// How a bend dummy relates to the gateway or boundary event it was created for.
#[derive(Debug, Clone, Copy)]
pub enum BendDummyKind {
    /// The target is in another lane, but a blocker kept the bend dummy in the gateway's lane.
    FromGatewayBlockedLaneCrossing { gateway_node: NodeId, target_node: NodeId },
    /// The target is in another lane and the bend dummy could leave the gateway's lane.
    FromGatewayFreeLaneCrossing { gateway_node: NodeId, target_node: NodeId },
    /// The target is in the gateway's own lane.
    FromGatewayToSameLane { gateway_node: NodeId, target_node: NodeId },
    FromBoundaryEvent,
}

/// What a node stands for.
#[derive(Debug, Clone)]
pub enum NodeType {
    RealNode {
        event: BpmnNode,
        display_text: String,
        /// The node, or a sequence flow jump or landing associated with it.
        tc: TokenCoordinate,
        transported_data: Vec<SdeId>,
        pe_bpmd_hides_protection_operations: bool,
    },
    /// Breaks an edge that spans several layers into one edge per layer.
    LongEdgeDummy,
    /// The bend point of an edge that leaves a node at its top or bottom side.
    BendDummy { originating_node: NodeId, kind: BendDummyKind },
}

/// Width and height of a node of the given kind.
pub open spec fn spec_node_size(node_type: NodeType) -> (usize, usize) {
    match node_type {
        NodeType::LongEdgeDummy => (DUMMY_NODE_WIDTH, DUMMY_NODE_HEIGHT),
        NodeType::BendDummy { .. } => (DUMMY_NODE_WIDTH, DUMMY_NODE_HEIGHT),
        NodeType::RealNode { event, .. } => match event {
            BpmnNode::Event(_, _) => (EVENT_NODE_WIDTH, EVENT_NODE_HEIGHT),
            BpmnNode::Gateway(_) => (GATEWAY_NODE_WIDTH, GATEWAY_NODE_HEIGHT),
            BpmnNode::Activity(_, _) => (ACTIVITY_NODE_WIDTH, ACTIVITY_NODE_HEIGHT),
            BpmnNode::Data(DataType::Store, _) => (DATASTORE_NODE_WIDTH, DATASTORE_NODE_HEIGHT),
            BpmnNode::Data(DataType::Object, _) => (DATAOBJECT_NODE_WIDTH, DATAOBJECT_NODE_HEIGHT),
        },
    }
}

/// Width and height of a node of the given kind.
pub fn node_size(node_type: &NodeType) -> (r: (usize, usize))
    ensures
        r == spec_node_size(*node_type),
        r.0 <= MAX_NODE_WIDTH,
        r.1 <= MAX_NODE_HEIGHT,
{
    let event = match node_type {
        NodeType::LongEdgeDummy | NodeType::BendDummy { .. } => {
            return (DUMMY_NODE_WIDTH, DUMMY_NODE_HEIGHT);
        },
        NodeType::RealNode { event, .. } => event,
    };
    match event {
        BpmnNode::Event(_, _) => (EVENT_NODE_WIDTH, EVENT_NODE_HEIGHT),
        BpmnNode::Gateway(_) => (GATEWAY_NODE_WIDTH, GATEWAY_NODE_HEIGHT),
        BpmnNode::Activity(_, _) => (ACTIVITY_NODE_WIDTH, ACTIVITY_NODE_HEIGHT),
        BpmnNode::Data(DataType::Store, _) => (DATASTORE_NODE_WIDTH, DATASTORE_NODE_HEIGHT),
        BpmnNode::Data(DataType::Object, _) => (DATAOBJECT_NODE_WIDTH, DATAOBJECT_NODE_HEIGHT),
    }
}

/// A node of the layout graph.
#[derive(Debug)]
pub struct Node {
    pub id: NodeId,
    pub node_type: NodeType,
    pub x: usize,
    pub y: usize,
    pub width: usize,
    pub height: usize,
    pub stroke_color: Option<String>,
    pub fill_color: Option<String>,
    pub pool: PoolId,
    pub lane: LaneId,
    /// Assigned in the layer assignment phase.
    pub layer_id: LayerId,
    /// Set during layer assignment; later used to shift `x` if nothing is in the way.
    pub uses_half_layer: bool,
    /// Neighbours within the same lane and layer, a doubly linked list built during crossing
    /// minimisation.
    pub node_above_in_same_lane: Option<NodeId>,
    pub node_below_in_same_lane: Option<NodeId>,
    /// Sequence flows, message flows and data flows alike.
    pub incoming: Vec<EdgeId>,
    pub outgoing: Vec<EdgeId>,
    pub incoming_ports: Vec<RelativePort>,
    pub outgoing_ports: Vec<RelativePort>,
}

/// Whether a node is a data node, and if it has exactly one edge, which one.
pub enum LoneDataElement {
    Nope,
    IsInput(EdgeId),
    IsOutput(EdgeId),
}

/// Whether the node kind is a data store or data object.
pub open spec fn spec_is_data(t: NodeType) -> bool {
    t matches NodeType::RealNode { event: BpmnNode::Data(_, _), .. }
}

/// Whether the node kind is one of the dummy kinds.
pub open spec fn spec_is_dummy(t: NodeType) -> bool {
    t is LongEdgeDummy || t is BendDummy
}

/// Whether the node kind is a gateway.
pub open spec fn spec_is_gateway(t: NodeType) -> bool {
    t matches NodeType::RealNode { event: BpmnNode::Gateway(_), .. }
}

/// Whether the node kind is an activity marked as a black box, which stands for a whole pool
/// whose inside is not shown.
pub open spec fn spec_is_blackbox(t: NodeType) -> bool {
    t matches NodeType::RealNode { event: BpmnNode::Activity(_, marker), .. } && marker.is_blackbox
}

/// The first index at which `ids` holds `id`, if any.
pub open spec fn first_index_of(ids: Seq<EdgeId>, id: EdgeId) -> Option<int> {
    if exists|i: int| 0 <= i < ids.len() && ids[i] == id {
        Some(choose|i: int| 0 <= i < ids.len() && ids[i] == id && forall|j: int| 0 <= j < i ==> ids[j] != id)
    } else {
        None
    }
}

/// The absolute port of edge `edge_id` among `edges` with ports `ports` (paired by position).
pub open spec fn spec_port_of(edges: Seq<EdgeId>, ports: Seq<RelativePort>, xy: XY, edge_id: EdgeId) -> Option<AbsolutePort> {
    if exists|i: int| 0 <= i < edges.len() && i < ports.len() && edges[i] == edge_id {
        let i = choose|i: int| 0 <= i < edges.len() && i < ports.len() && edges[i] == edge_id
            && forall|j: int| 0 <= j < i ==> edges[j] != edge_id;
        Some(AbsolutePort { x: (ports[i].x + xy.x) as usize, y: (ports[i].y + xy.y) as usize })
    } else {
        None
    }
}

/// A port at height `y` lies on the left or right side of `n`.
pub open spec fn spec_port_is_left_or_right(n: Node, y: usize) -> bool {
    n.y < y < n.y + n.height
}

/// The absolute port of outgoing edge `e` of `n` as a pair (it must have one).
pub open spec fn out_pair(n: Node, e: EdgeId) -> (usize, usize) {
    let p = spec_port_of(n.outgoing@, n.outgoing_ports@, XY { x: n.x, y: n.y }, e)->0;
    (p.x, p.y)
}

/// The absolute port of incoming edge `e` of `n` as a pair (it must have one).
pub open spec fn in_pair(n: Node, e: EdgeId) -> (usize, usize) {
    let p = spec_port_of(n.incoming@, n.incoming_ports@, XY { x: n.x, y: n.y }, e)->0;
    (p.x, p.y)
}

pub open spec fn has_out_port(n: Node, e: EdgeId) -> bool {
    spec_port_of(n.outgoing@, n.outgoing_ports@, XY { x: n.x, y: n.y }, e) is Some
}

pub open spec fn has_in_port(n: Node, e: EdgeId) -> bool {
    spec_port_of(n.incoming@, n.incoming_ports@, XY { x: n.x, y: n.y }, e) is Some
}

/// Ports plus the node position stay within `usize`.
pub open spec fn ports_fit(ports: Seq<RelativePort>, x: usize, y: usize) -> bool {
    forall|i: int| 0 <= i < ports.len() ==> #[trigger] ports[i].x + x <= usize::MAX && ports[i].y + y <= usize::MAX
}

fn port_of(edges: &Vec<EdgeId>, ports: &Vec<RelativePort>, xy: XY, edge_id: EdgeId) -> (r: Option<AbsolutePort>)
    requires
        ports_fit(ports@, xy.x, xy.y),
    ensures
        r == spec_port_of(edges@, ports@, xy, edge_id),
{
    let mut i: usize = 0;
    while i < edges.len() && i < ports.len()
        invariant
            i <= edges@.len(),
            i <= ports@.len(),
            ports_fit(ports@, xy.x, xy.y),
            forall|j: int| 0 <= j < i ==> edges@[j] != edge_id,
        decreases edges@.len() - i,
    {
        if edges[i].0 == edge_id.0 {
            let p = ports[i];
            proof {
                let k = choose|k: int| 0 <= k < edges@.len() && k < ports@.len() && edges@[k] == edge_id
                    && forall|j: int| 0 <= j < k ==> edges@[j] != edge_id;
                if k < i {
                } else if k > i {
                    assert(edges@[i as int] == edge_id);
                }
                assert(k == i);
            }
            return Some(AbsolutePort { x: p.x + xy.x, y: p.y + xy.y });
        }
        i = i + 1;
    }
    None
}

impl Node {
    /// Whether this is a data store or data object.
    pub fn is_data(&self) -> (r: bool)
        ensures
            r == spec_is_data(self.node_type),
    {
        matches!(self.node_type, NodeType::RealNode { event: BpmnNode::Data(_, _), .. })
    }

    /// The data attachment of a data node.
    pub fn get_data_aux(&self) -> (r: Option<&DataAux>)
        ensures
            match self.node_type {
                NodeType::RealNode { event: BpmnNode::Data(_, aux), .. } => r == Some(&aux),
                _ => r is None,
            },
    {
        if let NodeType::RealNode { event: BpmnNode::Data(_, data_aux), .. } = &self.node_type {
            Some(data_aux)
        } else {
            None
        }
    }

    /// Records a PE-BPMD protection on a data node; other nodes stay unchanged.
    pub fn set_pebpmd_protection(&mut self, protection: PeBpmdProtection)
        ensures
            match old(self).node_type {
                NodeType::RealNode { event: BpmnNode::Data(dt, aux), display_text, tc, transported_data, pe_bpmd_hides_protection_operations } =>
                    final(self).node_type matches NodeType::RealNode { event: BpmnNode::Data(dt2, aux2), display_text: d2, tc: tc2, transported_data: t2, pe_bpmd_hides_protection_operations: h2 }
                    && dt2 == dt && aux2.sde_id == aux.sde_id && aux2.pebpmd_protection@ == aux.pebpmd_protection@.push(protection)
                    && d2 == display_text && tc2 == tc && t2 == transported_data && h2 == pe_bpmd_hides_protection_operations,
                _ => final(self).node_type == old(self).node_type,
            },
            final(self).id == old(self).id,
            final(self).pool == old(self).pool,
            final(self).lane == old(self).lane,
    {
        if let NodeType::RealNode { event: BpmnNode::Data(_, data_aux), .. } = &mut self.node_type {
            data_aux.pebpmd_protection.push(protection);
        }
    }

    /// The semantic data elements carried by a real node (none for dummies).
    pub fn get_node_transported_data(&self) -> (r: &[SdeId])
        ensures
            match self.node_type {
                NodeType::RealNode { transported_data, .. } => r@ == transported_data@,
                _ => r@.len() == 0,
            },
    {
        if let NodeType::RealNode { transported_data, .. } = &self.node_type {
            transported_data.as_slice()
        } else {
            &[]
        }
    }

    /// Appends `data` to the transported data of a real node; dummies stay unchanged.
    pub fn add_node_transported_data(&mut self, data: &[SdeId])
        ensures
            match old(self).node_type {
                NodeType::RealNode { event, display_text, tc, transported_data, pe_bpmd_hides_protection_operations } =>
                    final(self).node_type matches NodeType::RealNode { event: e2, display_text: d2, tc: tc2, transported_data: t2, pe_bpmd_hides_protection_operations: h2 }
                    && e2 == event && d2 == display_text && tc2 == tc && h2 == pe_bpmd_hides_protection_operations
                    && t2@ == transported_data@ + data@,
                _ => final(self).node_type == old(self).node_type,
            },
            final(self).id == old(self).id,
            *final(self) == (Node { node_type: final(self).node_type, ..*old(self) }),
    {
        if let NodeType::RealNode { transported_data, .. } = &mut self.node_type {
            let mut i: usize = 0;
            let ghost start = transported_data@;
            while i < data.len()
                invariant
                    i <= data@.len(),
                    transported_data@ == start + data@.take(i as int),
                decreases data@.len() - i,
            {
                transported_data.push(data[i]);
                assert(data@.take(i + 1) == data@.take(i as int).push(data@[i as int]));
                i = i + 1;
            }
            assert(data@.take(data@.len() as int) == data@);
        }
    }

    /// Whether this is a data node with exactly one edge, and that edge.
    pub fn data_with_only_one_edge(&self) -> (r: LoneDataElement)
        ensures
            spec_is_data(self.node_type) && self.incoming@.len() == 1 && self.outgoing@.len() == 0
                ==> r == LoneDataElement::IsOutput(self.incoming@[0]),
            spec_is_data(self.node_type) && self.incoming@.len() == 0 && self.outgoing@.len() == 1
                ==> r == LoneDataElement::IsInput(self.outgoing@[0]),
            !(spec_is_data(self.node_type) && self.incoming@.len() + self.outgoing@.len() == 1)
                ==> r is Nope,
    {
        if self.is_data() && self.incoming.len() == 1 && self.outgoing.len() == 0 {
            LoneDataElement::IsOutput(self.incoming[0])
        } else if self.is_data() && self.incoming.len() == 0 && self.outgoing.len() == 1 {
            LoneDataElement::IsInput(self.outgoing[0])
        } else {
            LoneDataElement::Nope
        }
    }

    /// Whether this is a data node with exactly one edge.
    pub fn is_data_with_only_one_edge(&self) -> (r: bool)
        ensures
            r == (spec_is_data(self.node_type) && self.incoming@.len() + self.outgoing@.len() == 1),
    {
        !matches!(self.data_with_only_one_edge(), LoneDataElement::Nope)
    }

    /// Whether this is one of the dummy kinds.
    pub fn is_dummy(&self) -> (r: bool)
        ensures
            r == spec_is_dummy(self.node_type),
    {
        matches!(self.node_type, NodeType::LongEdgeDummy | NodeType::BendDummy { .. })
    }

    /// Whether this is a long edge dummy.
    pub fn is_long_edge_dummy(&self) -> (r: bool)
        ensures
            r == (self.node_type is LongEdgeDummy),
    {
        matches!(self.node_type, NodeType::LongEdgeDummy)
    }

    /// For a bend dummy of a gateway edge that stays in the gateway's lane, its target node.
    pub fn is_from_gateway_to_same_lane(&self) -> (r: Option<NodeId>)
        ensures
            match self.node_type {
                NodeType::BendDummy { kind: BendDummyKind::FromGatewayToSameLane { target_node, .. }, .. } => r == Some(target_node),
                _ => r is None,
            },
    {
        if let NodeType::BendDummy { kind: BendDummyKind::FromGatewayToSameLane { target_node, .. }, .. } = &self.node_type {
            Some(*target_node)
        } else {
            None
        }
    }

    /// Whether this is a gateway.
    pub fn is_gateway(&self) -> (r: bool)
        ensures
            r == spec_is_gateway(self.node_type),
    {
        matches!(self.node_type, NodeType::RealNode { event: BpmnNode::Gateway(_), .. })
    }

    /// Whether this is a black-box activity.
    pub fn is_blackbox_node(&self) -> (r: bool)
        ensures
            r == spec_is_blackbox(self.node_type),
    {
        match &self.node_type {
            NodeType::RealNode { event: BpmnNode::Activity(_, marker), .. } => marker.is_blackbox,
            _ => false,
        }
    }

    /// Whether this is a real node that takes part in sequence flows (not data, not dummy).
    pub fn is_some_sequence_flow_box(&self) -> (r: bool)
        ensures
            r == (!spec_is_data(self.node_type) && !spec_is_dummy(self.node_type)),
    {
        !self.is_data() && !self.is_dummy()
    }

    /// Width and height.
    pub fn size(&self) -> (r: (usize, usize))
        ensures
            r == (self.width, self.height),
    {
        (self.width, self.height)
    }

    /// Whether a port at height `y` lies on the left or right side of the node: strictly between
    /// its top and bottom borders.
    pub fn port_is_left_or_right(&self, y: usize) -> (r: bool)
        ensures
            r == spec_port_is_left_or_right(*self, y),
    {
        self.y < y && y - self.y < self.height
    }

    /// The absolute position of the port of incoming edge `edge_id`, if it has one.
    pub fn port_of_incoming(&self, edge_id: EdgeId) -> (r: Option<AbsolutePort>)
        requires
            ports_fit(self.incoming_ports@, self.x, self.y),
        ensures
            r == spec_port_of(self.incoming@, self.incoming_ports@, XY { x: self.x, y: self.y }, edge_id),
    {
        port_of(&self.incoming, &self.incoming_ports, self.xy(), edge_id)
    }

    /// The absolute position of the port of outgoing edge `edge_id`, if it has one.
    pub fn port_of_outgoing(&self, edge_id: EdgeId) -> (r: Option<AbsolutePort>)
        requires
            ports_fit(self.outgoing_ports@, self.x, self.y),
        ensures
            r == spec_port_of(self.outgoing@, self.outgoing_ports@, XY { x: self.x, y: self.y }, edge_id),
    {
        port_of(&self.outgoing, &self.outgoing_ports, self.xy(), edge_id)
    }

    /// The label of a real node.
    pub fn display_text(&self) -> (r: Option<&str>)
        ensures
            match self.node_type {
                NodeType::RealNode { display_text, .. } => r matches Some(s) && s@ == display_text@,
                _ => r is None,
            },
    {
        if let NodeType::RealNode { display_text, .. } = &self.node_type {
            Some(display_text.as_str())
        } else {
            None
        }
    }

    /// The source location of a real node.
    pub fn tc(&self) -> (r: TokenCoordinate)
        requires
            self.node_type is RealNode,
        ensures
            self.node_type matches NodeType::RealNode { tc, .. } && r == tc,
    {
        match &self.node_type {
            NodeType::RealNode { tc, .. } => *tc,
            _ => TokenCoordinate::zero(),
        }
    }

    pub fn pool_and_lane(&self) -> (r: PoolAndLane)
        ensures
            r == (PoolAndLane { pool: self.pool, lane: self.lane }),
    {
        PoolAndLane { pool: self.pool, lane: self.lane }
    }

    pub fn coord3(&self) -> (r: Coord3)
        ensures
            r == (Coord3 {
                pool_and_lane: PoolAndLane { pool: self.pool, lane: self.lane },
                layer: self.layer_id,
                half_layer: self.uses_half_layer,
            }),
    {
        Coord3 { pool_and_lane: self.pool_and_lane(), layer: self.layer_id, half_layer: self.uses_half_layer }
    }

    pub fn xy(&self) -> (r: XY)
        ensures
            r == (XY { x: self.x, y: self.y }),
    {
        XY { x: self.x, y: self.y }
    }
}


/// The kind of flow an edge represents.
#[derive(Debug, Clone)]
pub enum FlowType {
    MessageFlow(MessageFlowAux),
    DataFlow(DataFlowAux),
    SequenceFlow,
}

#[derive(Debug, Clone)]
pub struct MessageFlowAux {
    /// Holds no element twice.
    pub transported_data: Vec<SdeId>,
    pub tc: TokenCoordinate,
}

/// A data flow transports exactly the data element it is connected to.
#[derive(Debug, Clone, Copy)]
pub struct DataFlowAux {
    pub transported_data: SdeId,
}

/// The routing state of an edge.
#[derive(Debug)]
#[allow(inconsistent_fields)]
pub enum EdgeType {
    Regular { text: Option<String>, bend_points: RegularEdgeBendPoints },
    /// Replaced by a chain of dummy edges, starting at `first_dummy_edge`.
    ReplacedByDummies { first_dummy_edge: EdgeId, text: Option<String> },
    /// One link of the chain that replaces `original_edge`.
    DummyEdge { original_edge: EdgeId, bend_points: DummyEdgeBendPoints },
}

#[derive(Debug)]
pub enum RegularEdgeBendPoints {
    ToBeDetermined,
    SegmentEndpoints((usize, usize), (usize, usize)),
    FullyRouted(Vec<(usize, usize)>),
}

#[derive(Debug)]
pub enum DummyEdgeBendPoints {
    ToBeDeterminedOrStraight,
    SegmentEndpoints((usize, usize), (usize, usize)),
    /// Location of the bend dummy node.
    VerticalBendDummy((usize, usize)),
    /// A vertical line from a gateway that leaves directly to the right instead.
    VerticalCollapsed,
}

/// An edge of the layout graph.
#[derive(Debug)]
pub struct Edge {
    pub from: NodeId,
    pub to: NodeId,
    pub edge_type: EdgeType,
    pub is_reversed: bool,
    pub flow_type: FlowType,
    pub stays_within_lane: bool,
    /// Attached via `from` unless reversed, then via `to`.
    pub attached_to_boundary_event: Option<BoundaryEvent>,
    /// Vertical edges or edge segments that were already found to go straight up or down.
    pub is_vertical: bool,
    pub stroke_color: Option<String>,
}

/// The data elements an edge of this flow kind transports.
pub open spec fn spec_transported_data(f: FlowType) -> Seq<SdeId> {
    match f {
        FlowType::DataFlow(aux) => seq![aux.transported_data],
        FlowType::MessageFlow(aux) => aux.transported_data@,
        FlowType::SequenceFlow => Seq::empty(),
    }
}

impl Edge {
    pub fn is_replaced_by_dummies(&self) -> (r: bool)
        ensures
            r == (self.edge_type is ReplacedByDummies),
    {
        matches!(self.edge_type, EdgeType::ReplacedByDummies { .. })
    }

    pub fn is_dummy(&self) -> (r: bool)
        ensures
            r == (self.edge_type is DummyEdge),
    {
        matches!(self.edge_type, EdgeType::DummyEdge { .. })
    }

    pub fn is_regular(&self) -> (r: bool)
        ensures
            r == (self.edge_type is Regular),
    {
        matches!(self.edge_type, EdgeType::Regular { .. })
    }

    pub fn is_sequence_flow(&self) -> (r: bool)
        ensures
            r == (self.flow_type is SequenceFlow),
    {
        matches!(self.flow_type, FlowType::SequenceFlow)
    }

    pub fn is_message_flow(&self) -> (r: bool)
        ensures
            r == (self.flow_type is MessageFlow),
    {
        matches!(self.flow_type, FlowType::MessageFlow(_))
    }

    pub fn is_data_flow(&self) -> (r: bool)
        ensures
            r == (self.flow_type is DataFlow),
    {
        matches!(self.flow_type, FlowType::DataFlow(_))
    }

    /// The source location of a message flow.
    pub fn tc(&self) -> (r: TokenCoordinate)
        requires
            self.flow_type is MessageFlow,
        ensures
            r == self.flow_type->MessageFlow_0.tc,
    {
        match &self.flow_type {
            FlowType::MessageFlow(aux) => aux.tc,
            _ => TokenCoordinate::zero(),
        }
    }

    /// The data elements this edge transports.
    pub fn get_transported_data(&self) -> (r: Vec<SdeId>)
        ensures
            r@ == spec_transported_data(self.flow_type),
    {
        match &self.flow_type {
            FlowType::DataFlow(aux) => {
                let mut v = Vec::new();
                v.push(aux.transported_data);
                v
            },
            FlowType::MessageFlow(aux) => aux.transported_data.clone(),
            FlowType::SequenceFlow => Vec::new(),
        }
    }

    /// The label of a regular edge or of an edge replaced by dummies.
    pub fn text(&self) -> (r: Option<&str>)
        ensures
            match self.edge_type {
                EdgeType::Regular { text: Some(t), .. } => r matches Some(s) && s@ == t@,
                EdgeType::ReplacedByDummies { text: Some(t), .. } => r matches Some(s) && s@ == t@,
                _ => r is None,
            },
    {
        match &self.edge_type {
            EdgeType::Regular { text: Some(t), .. } => Some(t.as_str()),
            EdgeType::ReplacedByDummies { text: Some(t), .. } => Some(t.as_str()),
            _ => None,
        }
    }
}

/// A lane of a pool.
#[derive(Debug)]
pub struct Lane {
    /// `None` for the anonymous lane.
    pub name: Option<String>,
    /// Sorted by layer once the layer assignment is solved.
    pub nodes: Vec<NodeId>,
    /// For the anonymous lane, the statement that implicitly created it.
    pub tc: TokenCoordinate,
    pub x: usize,
    pub y: usize,
    pub width: usize,
    pub height: usize,
    pub stroke_color: Option<String>,
    pub fill_color: Option<String>,
}

impl Lane {
    /// A lane without nodes, at the origin, without colours.
    pub fn new(lane: Option<String>, tc: TokenCoordinate) -> (r: Lane)
        ensures
            r.name == lane,
            r.tc == tc,
            r.nodes@.len() == 0,
            r.x == 0 && r.y == 0 && r.width == 0 && r.height == 0,
            r.stroke_color is None && r.fill_color is None,
    {
        Lane {
            name: lane,
            nodes: Vec::new(),
            tc,
            x: 0,
            y: 0,
            width: 0,
            height: 0,
            stroke_color: None,
            fill_color: None,
        }
    }
}

/// A pool with its lanes.
#[derive(Debug)]
pub struct Pool {
    /// `None` for the anonymous pool, which is then the only pool.
    pub name: Option<String>,
    pub lanes: Vec<Lane>,
    /// Whether the pool is put on the same horizontal line as the previous one.
    pub is_right_of_the_previous_pool: bool,
    pub x: usize,
    pub y: usize,
    pub width: usize,
    pub height: usize,
    pub stroke_color: Option<String>,
    pub fill_color: Option<String>,
    /// For the anonymous pool, the statement that implicitly created it.
    pub tc: TokenCoordinate,
    pub tee_admin_has_pe_bpmd_visibility_a_for: VecSet<(SdeId, PeBpmdProtection)>,
    pub tee_admin_has_pe_bpmd_visibility_h_for: VecSet<(SdeId, PeBpmdProtection)>,
    pub tee_external_root_access: VecSet<(SdeId, PeBpmdProtection)>,
}

/// The first position in `lane` whose node is in layer `layer` or later, if any.
pub open spec fn first_at_or_after_layer(lane: Seq<NodeId>, nodes: Seq<Node>, layer: LayerId) -> Option<int> {
    if exists|i: int| 0 <= i < lane.len() && nodes[lane[i].0 as int].layer_id.0 >= layer.0 {
        Some(choose|i: int| 0 <= i < lane.len() && nodes[lane[i].0 as int].layer_id.0 >= layer.0
            && forall|j: int| 0 <= j < i ==> nodes[lane[j].0 as int].layer_id.0 < layer.0)
    } else {
        None
    }
}

/// Every node listed in a lane of `pools` is an index into `nodes`.
pub open spec fn lanes_reference_nodes(pools: Seq<Pool>, num_nodes: int) -> bool {
    forall|p: int, l: int, i: int| 0 <= p < pools.len() && 0 <= l < pools[p].lanes@.len()
        && 0 <= i < pools[p].lanes@[l].nodes@.len() ==> #[trigger] pools[p].lanes@[l].nodes@[i].0 < num_nodes
}

/// The first position in `lane` whose node is in layer `layer` or later.
fn first_position_at_or_after(lane: &Vec<NodeId>, nodes: &Vec<Node>, layer: LayerId) -> (r: Option<usize>)
    requires
        forall|i: int| 0 <= i < lane@.len() ==> #[trigger] lane@[i].0 < nodes@.len(),
    ensures
        match r {
            Some(p) => p < lane@.len() && nodes@[lane@[p as int].0 as int].layer_id.0 >= layer.0
                && forall|j: int| 0 <= j < p ==> nodes@[lane@[j].0 as int].layer_id.0 < layer.0,
            None => forall|j: int| 0 <= j < lane@.len() ==> nodes@[lane@[j].0 as int].layer_id.0 < layer.0,
        },
{
    let mut i: usize = 0;
    while i < lane.len()
        invariant
            i <= lane@.len(),
            forall|k: int| 0 <= k < lane@.len() ==> #[trigger] lane@[k].0 < nodes@.len(),
            forall|j: int| 0 <= j < i ==> nodes@[lane@[j].0 as int].layer_id.0 < layer.0,
        decreases lane@.len() - i,
    {
        if nodes[lane[i].0].layer_id.0 >= layer.0 {
            return Some(i);
        }
        i = i + 1;
    }
    None
}

impl Pool {
    /// A pool without lanes, at the origin, without colours.
    pub fn new(name: Option<String>, tc: TokenCoordinate) -> (r: Pool)
        ensures
            r.name == name,
            r.tc == tc,
            r.lanes@.len() == 0,
            r.x == 0 && r.y == 0 && r.width == 0 && r.height == 0,
            !r.is_right_of_the_previous_pool,
            r.stroke_color is None && r.fill_color is None,
            r.tee_admin_has_pe_bpmd_visibility_a_for@.len() == 0,
            r.tee_admin_has_pe_bpmd_visibility_h_for@.len() == 0,
            r.tee_external_root_access@.len() == 0,
    {
        Pool {
            name,
            tc,
            lanes: Vec::new(),
            x: 0,
            y: 0,
            width: 0,
            height: 0,
            is_right_of_the_previous_pool: false,
            stroke_color: None,
            fill_color: None,
            tee_admin_has_pe_bpmd_visibility_a_for: VecSet::new(),
            tee_admin_has_pe_bpmd_visibility_h_for: VecSet::new(),
            tee_external_root_access: VecSet::new(),
        }
    }

    /// Adds a new empty lane and returns its id, the last index.
    pub fn add_lane(&mut self, lane: Option<String>, tc: TokenCoordinate) -> (r: LaneId)
        requires
            old(self).lanes@.len() < usize::MAX,
        ensures
            r.0 == old(self).lanes@.len(),
            final(self).lanes@.len() == old(self).lanes@.len() + 1,
            forall|i: int| 0 <= i < old(self).lanes@.len() ==> final(self).lanes@[i] == old(self).lanes@[i],
            final(self).lanes@[r.0 as int].name == lane,
            final(self).lanes@[r.0 as int].tc == tc,
            final(self).lanes@[r.0 as int].nodes@.len() == 0,
            *final(self) == (Pool { lanes: final(self).lanes, ..*old(self) }),
    {
        self.lanes.push(Lane::new(lane, tc));
        LaneId(self.lanes.len() - 1)
    }

    /// Adds `node_id` to `lane`. With a known layer the node goes before the first node of that
    /// layer or a later one, so that a lane sorted by layer stays sorted; otherwise at the end.
    pub fn add_node(&mut self, nodes: &Vec<Node>, lane: LaneId, node_id: NodeId, layer: Option<LayerId>)
        requires
            lane.0 < old(self).lanes@.len(),
            forall|i: int| 0 <= i < old(self).lanes@[lane.0 as int].nodes@.len()
                ==> #[trigger] old(self).lanes@[lane.0 as int].nodes@[i].0 < nodes@.len(),
        ensures
            final(self).lanes@.len() == old(self).lanes@.len(),
            forall|l: int| 0 <= l < old(self).lanes@.len() && l != lane.0 ==> final(self).lanes@[l] == old(self).lanes@[l],
            final(self).lanes@[lane.0 as int].nodes@ == (match layer {
                Some(layer) => match first_at_or_after_layer(old(self).lanes@[lane.0 as int].nodes@, nodes@, layer) {
                    Some(pos) => old(self).lanes@[lane.0 as int].nodes@.insert(pos, node_id),
                    None => old(self).lanes@[lane.0 as int].nodes@.push(node_id),
                },
                None => old(self).lanes@[lane.0 as int].nodes@.push(node_id),
            }),
            final(self).lanes@[lane.0 as int].name == old(self).lanes@[lane.0 as int].name,
            final(self).lanes@[lane.0 as int].tc == old(self).lanes@[lane.0 as int].tc,
            final(self).name == old(self).name,
            final(self).tc == old(self).tc,
    {
        let l = lane.0;
        let position = match layer {
            Some(layer) => {
                let p = first_position_at_or_after(&self.lanes[l].nodes, nodes, layer);
                proof {
                    let s = self.lanes@[l as int].nodes@;
                    match p {
                        Some(p) => {
                            let c = choose|c: int| 0 <= c < s.len() && nodes@[s[c].0 as int].layer_id.0 >= layer.0
                                && forall|j: int| 0 <= j < c ==> nodes@[s[j].0 as int].layer_id.0 < layer.0;
                            if c < p {
                                assert(nodes@[s[c].0 as int].layer_id.0 < layer.0);
                            } else if c > p {
                                assert(nodes@[s[p as int].0 as int].layer_id.0 < layer.0);
                            }
                        },
                        None => {},
                    }
                }
                p
            },
            None => None,
        };
        match position {
            Some(pos) => {
                self.lanes[l].nodes.insert(pos, node_id);
            },
            None => {
                self.lanes[l].nodes.push(node_id);
            },
        }
    }
}

/// A semantic data element: the data nodes that show the same piece of data.
#[derive(Debug, Clone)]
pub struct SemanticDataElement {
    pub name: String,
    /// Never empty.
    pub data_element: Vec<NodeId>,
}

impl SemanticDataElement {
    /// Whether `node_id` shows this data element.
    pub fn contains(&self, node_id: NodeId) -> (r: bool)
        ensures
            r == self.data_element@.contains(node_id),
    {
        let mut i: usize = 0;
        while i < self.data_element.len()
            invariant
                i <= self.data_element@.len(),
                forall|j: int| 0 <= j < i ==> self.data_element@[j] != node_id,
            decreases self.data_element@.len() - i,
        {
            if self.data_element[i].0 == node_id.0 {
                assert(self.data_element@[i as int] == node_id);
                return true;
            }
            i = i + 1;
        }
        false
    }

    /// The source span from the first to the last of its data nodes, in the file of the first.
    pub fn tc(&self, graph: &Graph) -> (r: TokenCoordinate)
        requires
            self.data_element@.len() > 0,
            forall|i: int| 0 <= i < self.data_element@.len() ==> {
                let n = #[trigger] self.data_element@[i];
                n.0 < graph.nodes@.len() && graph.nodes@[n.0 as int].node_type is RealNode
            },
        ensures
            ({
                let first = graph.nodes@[self.data_element@[0].0 as int].node_type->tc;
                let last = graph.nodes@[self.data_element@.last().0 as int].node_type->tc;
                r == (TokenCoordinate { start: first.start, end: last.end, source_file_idx: first.source_file_idx })
            }),
    {
        let first = graph.nodes[self.data_element[0].0].tc();
        let last = graph.nodes[self.data_element[self.data_element.len() - 1].0].tc();
        TokenCoordinate { start: first.start, end: last.end, source_file_idx: first.source_file_idx }
    }
}


/// The diagram graph. Nodes, edges, pools and data elements are only ever appended, so the ids
/// that index them stay valid.
pub struct Graph {
    pub nodes: Vec<Node>,
    pub edges: Vec<Edge>,
    pub pools: Vec<Pool>,
    pub data_elements: Vec<SemanticDataElement>,
    pub config: Config,
    pub num_layers: usize,
    pub pe_bpmd_definitions: Vec<PeBpmd>,
}

/// `v` without the occurrences of `e`, in order.
pub open spec fn without(v: Seq<EdgeId>, e: EdgeId) -> Seq<EdgeId> {
    v.filter(|x: EdgeId| x != e)
}

/// Removes every occurrence of `e` from `v`, keeping the order of the rest.
pub fn remove_all_edge_ids(v: &mut Vec<EdgeId>, e: EdgeId)
    ensures
        final(v)@ == without(old(v)@, e),
{
    let mut kept: Vec<EdgeId> = Vec::new();
    let mut i: usize = 0;
    while i < v.len()
        invariant
            *v == *old(v),
            i <= v@.len(),
            kept@ == without(v@.take(i as int), e),
        decreases v@.len() - i,
    {
        proof {
            assert(v@.take(i + 1).drop_last() == v@.take(i as int));
            reveal_with_fuel(Seq::filter, 1);
        }
        if v[i].0 != e.0 {
            kept.push(v[i]);
        }
        i = i + 1;
    }
    assert(v@.take(v@.len() as int) == v@);
    *v = kept;
}

/// `n` is the node record that `Graph::add_node` appends.
pub open spec fn is_new_node(n: Node, id: NodeId, node_type: NodeType, pool_lane: PoolAndLane, layer: Option<LayerId>) -> bool {
    &&& n.id == id
    &&& n.node_type == node_type
    &&& n.x == 0 && n.y == 0
    &&& (n.width, n.height) == spec_node_size(node_type)
    &&& n.stroke_color is None && n.fill_color is None
    &&& n.pool == pool_lane.pool && n.lane == pool_lane.lane
    &&& n.layer_id == (match layer { Some(l) => l, None => LayerId(0) })
    &&& !n.uses_half_layer
    &&& n.node_above_in_same_lane is None && n.node_below_in_same_lane is None
    &&& n.incoming@.len() == 0 && n.outgoing@.len() == 0
    &&& n.incoming_ports@.len() == 0 && n.outgoing_ports@.len() == 0
}

impl Graph {
    /// Adds a new pool without lanes and returns its id, the last index.
    pub fn add_pool(&mut self, pool: Option<String>, tc: TokenCoordinate) -> (r: PoolId)
        requires
            old(self).pools@.len() < usize::MAX,
        ensures
            r.0 == old(self).pools@.len(),
            final(self).pools@.len() == old(self).pools@.len() + 1,
            forall|i: int| 0 <= i < old(self).pools@.len() ==> final(self).pools@[i] == old(self).pools@[i],
            final(self).pools@[r.0 as int].name == pool,
            final(self).pools@[r.0 as int].tc == tc,
            final(self).pools@[r.0 as int].lanes@.len() == 0,
            final(self).nodes == old(self).nodes,
            final(self).edges == old(self).edges,
            final(self).data_elements == old(self).data_elements,
    {
        self.pools.push(Pool::new(pool, tc));
        PoolId(self.pools.len() - 1)
    }

    /// Adds a node of the given kind to the given lane and returns its id, the last index. Its
    /// size follows from its kind; with a known layer it is placed by layer within the lane.
    pub fn add_node(&mut self, node_type: NodeType, pool_lane: PoolAndLane, layer: Option<LayerId>) -> (r: NodeId)
        requires
            pool_lane.pool.0 < old(self).pools@.len(),
            pool_lane.lane.0 < old(self).pools@[pool_lane.pool.0 as int].lanes@.len(),
            lanes_reference_nodes(old(self).pools@, old(self).nodes@.len() as int),
        ensures
            r.0 == old(self).nodes@.len(),
            final(self).nodes@.len() == old(self).nodes@.len() + 1,
            forall|i: int| 0 <= i < old(self).nodes@.len() ==> final(self).nodes@[i] == old(self).nodes@[i],
            is_new_node(final(self).nodes@[r.0 as int], r, node_type, pool_lane, layer),
            final(self).pools@.len() == old(self).pools@.len(),
            forall|p: int| 0 <= p < old(self).pools@.len() && p != pool_lane.pool.0 ==> final(self).pools@[p] == old(self).pools@[p],
            final(self).pools@[pool_lane.pool.0 as int].lanes@[pool_lane.lane.0 as int].nodes@ == (match layer {
                Some(layer) => match first_at_or_after_layer(
                    old(self).pools@[pool_lane.pool.0 as int].lanes@[pool_lane.lane.0 as int].nodes@, old(self).nodes@, layer) {
                    Some(pos) => old(self).pools@[pool_lane.pool.0 as int].lanes@[pool_lane.lane.0 as int].nodes@.insert(pos, r),
                    None => old(self).pools@[pool_lane.pool.0 as int].lanes@[pool_lane.lane.0 as int].nodes@.push(r),
                },
                None => old(self).pools@[pool_lane.pool.0 as int].lanes@[pool_lane.lane.0 as int].nodes@.push(r),
            }),
            final(self).pools@[pool_lane.pool.0 as int].lanes@.len() == old(self).pools@[pool_lane.pool.0 as int].lanes@.len(),
            forall|l: int| 0 <= l < old(self).pools@[pool_lane.pool.0 as int].lanes@.len() && l != pool_lane.lane.0
                ==> #[trigger] final(self).pools@[pool_lane.pool.0 as int].lanes@[l] == old(self).pools@[pool_lane.pool.0 as int].lanes@[l],
            final(self).edges == old(self).edges,
            final(self).data_elements == old(self).data_elements,
            final(self).config == old(self).config,
            final(self).num_layers == old(self).num_layers,
            final(self).pe_bpmd_definitions == old(self).pe_bpmd_definitions,
    {
        let node_id = NodeId(self.nodes.len());
        let p = pool_lane.pool.0;
        let lane = pool_lane.lane;
        assert(forall|i: int| 0 <= i < self.pools@[p as int].lanes@[lane.0 as int].nodes@.len()
            ==> #[trigger] self.pools@[p as int].lanes@[lane.0 as int].nodes@[i].0 < self.nodes@.len());
        self.pools[p].add_node(&self.nodes, lane, node_id, layer);
        let (width, height) = node_size(&node_type);
        self.nodes.push(Node {
            id: node_id,
            node_type,
            x: 0,
            y: 0,
            width,
            height,
            stroke_color: None,
            fill_color: None,
            pool: pool_lane.pool,
            lane: pool_lane.lane,
            layer_id: match layer {
                Some(l) => l,
                None => LayerId(0),
            },
            uses_half_layer: false,
            node_above_in_same_lane: None,
            node_below_in_same_lane: None,
            incoming: Vec::new(),
            outgoing: Vec::new(),
            incoming_ports: Vec::new(),
            outgoing_ports: Vec::new(),
        });
        node_id
    }

    /// Adds an edge from `from` to `to`, registers it with both nodes and returns its id.
    pub fn add_edge(&mut self, from: NodeId, to: NodeId, edge_type: EdgeType, flow_type: FlowType,
        boundary_event: Option<BoundaryEvent>) -> (r: EdgeId)
        requires
            from.0 < old(self).nodes@.len(),
            to.0 < old(self).nodes@.len(),
        ensures
            r.0 == old(self).edges@.len(),
            final(self).edges@.len() == old(self).edges@.len() + 1,
            forall|i: int| 0 <= i < old(self).edges@.len() ==> final(self).edges@[i] == old(self).edges@[i],
            final(self).edges@[r.0 as int].from == from,
            final(self).edges@[r.0 as int].to == to,
            final(self).edges@[r.0 as int].edge_type == edge_type,
            final(self).edges@[r.0 as int].flow_type == flow_type,
            final(self).edges@[r.0 as int].attached_to_boundary_event == boundary_event,
            !final(self).edges@[r.0 as int].is_reversed,
            !final(self).edges@[r.0 as int].is_vertical,
            final(self).edges@[r.0 as int].stroke_color is None,
            final(self).edges@[r.0 as int].stays_within_lane == (old(self).nodes@[from.0 as int].pool == old(self).nodes@[to.0 as int].pool
                && old(self).nodes@[from.0 as int].lane == old(self).nodes@[to.0 as int].lane),
            final(self).nodes@.len() == old(self).nodes@.len(),
            final(self).nodes@[from.0 as int].outgoing@ == old(self).nodes@[from.0 as int].outgoing@.push(r),
            final(self).nodes@[to.0 as int].incoming@ == (if from == to {
                old(self).nodes@[to.0 as int].incoming@
            } else {
                old(self).nodes@[to.0 as int].incoming@
            }).push(r),
            forall|i: int| 0 <= i < old(self).nodes@.len() && i != from.0 && i != to.0 ==> final(self).nodes@[i] == old(self).nodes@[i],
            final(self).pools == old(self).pools,
    {
        let edge_id = EdgeId(self.edges.len());
        let stays = self.nodes[from.0].pool.0 == self.nodes[to.0].pool.0 && self.nodes[from.0].lane.0 == self.nodes[to.0].lane.0;
        self.edges.push(Edge {
            from,
            to,
            edge_type,
            flow_type,
            is_vertical: false,
            is_reversed: false,
            stroke_color: None,
            stays_within_lane: stays,
            attached_to_boundary_event: boundary_event,
        });
        self.nodes[from.0].outgoing.push(edge_id);
        self.nodes[to.0].incoming.push(edge_id);
        edge_id
    }

    /// Adds a semantic data element and returns its id, the last index.
    pub fn add_sde(&mut self, name: String, node_ids: Vec<NodeId>) -> (r: SdeId)
        ensures
            r.0 == old(self).data_elements@.len(),
            final(self).data_elements@ == old(self).data_elements@.push(SemanticDataElement { name, data_element: node_ids }),
            final(self).nodes == old(self).nodes,
            final(self).edges == old(self).edges,
            final(self).pools == old(self).pools,
    {
        let sde_id = SdeId(self.data_elements.len());
        self.data_elements.push(SemanticDataElement { name, data_element: node_ids });
        sde_id
    }

    /// The data elements that edge `edge_id` transports.
    pub fn transported_data(&self, edge_id: EdgeId) -> (r: Vec<SdeId>)
        requires
            edge_id.0 < self.edges@.len(),
        ensures
            r@ == spec_transported_data(self.edges@[edge_id.0 as int].flow_type),
    {
        self.edges[edge_id.0].get_transported_data()
    }

    /// Turns edge `edge_id` around: its ends swap, it moves from the outgoing list of its old
    /// source to the end of that node's incoming list (and vice versa), and it is marked reversed.
    pub fn reverse_edge(&mut self, edge_id: EdgeId)
        requires
            edge_id.0 < old(self).edges@.len(),
            old(self).edges@[edge_id.0 as int].from != old(self).edges@[edge_id.0 as int].to,
            old(self).edges@[edge_id.0 as int].from.0 < old(self).nodes@.len(),
            old(self).edges@[edge_id.0 as int].to.0 < old(self).nodes@.len(),
            old(self).nodes@[old(self).edges@[edge_id.0 as int].from.0 as int].outgoing@.contains(edge_id),
            old(self).nodes@[old(self).edges@[edge_id.0 as int].to.0 as int].incoming@.contains(edge_id),
        ensures
            ({
                let e = old(self).edges@[edge_id.0 as int];
                let f = e.from.0 as int;
                let t = e.to.0 as int;
                &&& final(self).edges@.len() == old(self).edges@.len()
                &&& forall|i: int| 0 <= i < old(self).edges@.len() && i != edge_id.0 ==> final(self).edges@[i] == old(self).edges@[i]
                &&& final(self).edges@[edge_id.0 as int].from == e.to
                &&& final(self).edges@[edge_id.0 as int].to == e.from
                &&& final(self).edges@[edge_id.0 as int].is_reversed
                &&& final(self).edges@[edge_id.0 as int].edge_type == e.edge_type
                &&& final(self).edges@[edge_id.0 as int].flow_type == e.flow_type
                &&& final(self).nodes@.len() == old(self).nodes@.len()
                &&& final(self).nodes@[f].outgoing@ == without(old(self).nodes@[f].outgoing@, edge_id)
                &&& final(self).nodes@[f].incoming@ == old(self).nodes@[f].incoming@.push(edge_id)
                &&& final(self).nodes@[t].incoming@ == without(old(self).nodes@[t].incoming@, edge_id)
                &&& final(self).nodes@[t].outgoing@ == old(self).nodes@[t].outgoing@.push(edge_id)
                &&& forall|i: int| 0 <= i < old(self).nodes@.len() && i != f && i != t ==> final(self).nodes@[i] == old(self).nodes@[i]
            }),
            final(self).pools == old(self).pools,
    {
        let from = self.edges[edge_id.0].from;
        let to = self.edges[edge_id.0].to;
        remove_all_edge_ids(&mut self.nodes[from.0].outgoing, edge_id);
        self.nodes[from.0].incoming.push(edge_id);
        remove_all_edge_ids(&mut self.nodes[to.0].incoming, edge_id);
        self.nodes[to.0].outgoing.push(edge_id);
        self.edges[edge_id.0].from = to;
        self.edges[edge_id.0].to = from;
        self.edges[edge_id.0].is_reversed = true;
    }

    /// Whether edge `edge_id` hangs at a boundary event of node `node_id`: at its source unless
    /// it was reversed, at its target otherwise.
    /// The absolute ports at which edge `edge_id` leaves its source and enters its target.
    pub fn start_and_end_ports(&self, edge_id: EdgeId) -> (r: [(usize, usize); 2])
        requires
            edge_id.0 < self.edges@.len(),
            self.edges@[edge_id.0 as int].from.0 < self.nodes@.len(),
            self.edges@[edge_id.0 as int].to.0 < self.nodes@.len(),
            ports_fit(self.nodes@[self.edges@[edge_id.0 as int].from.0 as int].outgoing_ports@,
                self.nodes@[self.edges@[edge_id.0 as int].from.0 as int].x, self.nodes@[self.edges@[edge_id.0 as int].from.0 as int].y),
            ports_fit(self.nodes@[self.edges@[edge_id.0 as int].to.0 as int].incoming_ports@,
                self.nodes@[self.edges@[edge_id.0 as int].to.0 as int].x, self.nodes@[self.edges@[edge_id.0 as int].to.0 as int].y),
            has_out_port(self.nodes@[self.edges@[edge_id.0 as int].from.0 as int], edge_id),
            has_in_port(self.nodes@[self.edges@[edge_id.0 as int].to.0 as int], edge_id),
        ensures
            r@ == seq![
                out_pair(self.nodes@[self.edges@[edge_id.0 as int].from.0 as int], edge_id),
                in_pair(self.nodes@[self.edges@[edge_id.0 as int].to.0 as int], edge_id),
            ],
    {
        let e = &self.edges[edge_id.0];
        let from = self.nodes[e.from.0].port_of_outgoing(edge_id).unwrap();
        let to = self.nodes[e.to.0].port_of_incoming(edge_id).unwrap();
        let r = [(from.x, from.y), (to.x, to.y)];
        assert(r@ =~= seq![
            out_pair(self.nodes@[self.edges@[edge_id.0 as int].from.0 as int], edge_id),
            in_pair(self.nodes@[self.edges@[edge_id.0 as int].to.0 as int], edge_id),
        ]);
        r
    }

    pub fn attached_to_boundary_event(&self, node_id: NodeId, edge_id: EdgeId) -> (r: bool)
        requires
            edge_id.0 < self.edges@.len(),
        ensures
            ({
                let e = self.edges@[edge_id.0 as int];
                r == (e.attached_to_boundary_event is Some && (if e.is_reversed { e.to == node_id } else { e.from == node_id }))
            }),
    {
        let edge = &self.edges[edge_id.0];
        (edge.attached_to_boundary_event.is_some() && edge.is_reversed && edge.to.0 == node_id.0)
            || (edge.attached_to_boundary_event.is_some() && !edge.is_reversed && edge.from.0 == node_id.0)
    }

    /// The pool below which a message flow between the two pools bends, and the y coordinate of
    /// that pool's bottom border. Flows bend right after leaving their source pool.
    pub fn interpool_y(&self, from_pool: PoolId, to_pool: PoolId) -> (r: (PoolId, usize))
        requires
            from_pool != to_pool,
            from_pool.0 < self.pools@.len(),
            to_pool.0 < self.pools@.len(),
            ({
                let p = if from_pool.0 < to_pool.0 { from_pool.0 as int } else { from_pool.0 - 1 };
                self.pools@[p].y + self.pools@[p].height <= usize::MAX
            }),
        ensures
            r.0.0 == (if from_pool.0 < to_pool.0 { from_pool.0 as int } else { from_pool.0 - 1 }),
            r.1 == self.pools@[r.0.0 as int].y + self.pools@[r.0.0 as int].height,
    {
        let pool_id = if from_pool.0 < to_pool.0 {
            from_pool
        } else {
            PoolId(from_pool.0 - 1)
        };
        let reference_pool = &self.pools[pool_id.0];
        (pool_id, reference_pool.y + reference_pool.height)
    }
}

} // verus!
