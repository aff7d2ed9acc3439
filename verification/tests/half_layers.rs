use bpmd::bpmn_node::{ActivityMarker, ActivityType, BpmnNode, DataAux, DataType, TaskType};
use bpmd::config::Config;
use bpmd::graph::{DataFlowAux, EdgeType, FlowType, Graph, MessageFlowAux, NodeType, RegularEdgeBendPoints};
use bpmd::transported_data::create_transported_data;
use bpmd::half_layer::{try_move_nodes_into_half_layer, vertical_segments};
use bpmd::ids::{EdgeId, LaneId, LayerId, NodeId, PoolAndLane, PoolId, RelativePort, SdeId, TokenCoordinate};

fn tc(n: usize) -> TokenCoordinate {
    TokenCoordinate { source_file_idx: 0, start: n, end: n + 1 }
}

fn task(n: usize) -> NodeType {
    NodeType::RealNode {
        event: BpmnNode::Activity(ActivityType::Task(TaskType::Plain), ActivityMarker::default()),
        display_text: format!("t{n}"),
        tc: tc(n),
        transported_data: vec![],
        pe_bpmd_hides_protection_operations: false,
    }
}

fn data_object(n: usize) -> NodeType {
    NodeType::RealNode {
        event: BpmnNode::Data(DataType::Object, DataAux { sde_id: SdeId(0), pebpmd_protection: vec![] }),
        display_text: format!("d{n}"),
        tc: tc(n),
        transported_data: vec![],
        pe_bpmd_hides_protection_operations: false,
    }
}

fn pl(pool: usize, lane: usize) -> PoolAndLane {
    PoolAndLane { pool: PoolId(pool), lane: LaneId(lane) }
}

fn regular() -> EdgeType {
    EdgeType::Regular { text: None, bend_points: RegularEdgeBendPoints::ToBeDetermined }
}

fn df(g: &mut Graph, from: NodeId, to: NodeId) -> EdgeId {
    g.add_edge(from, to, regular(), FlowType::DataFlow(DataFlowAux { transported_data: SdeId(0) }), None)
}

fn sf(g: &mut Graph, from: NodeId, to: NodeId) -> EdgeId {
    g.add_edge(from, to, regular(), FlowType::SequenceFlow, None)
}

fn empty_graph() -> Graph {
    let mut g = Graph {
        nodes: Vec::new(),
        edges: Vec::new(),
        pools: Vec::new(),
        data_elements: Vec::new(),
        config: Config::default(),
        num_layers: 3,
        pe_bpmd_definitions: Vec::new(),
    };
    g.add_pool(None, tc(0));
    g.pools[0].add_lane(None, tc(0));
    g
}

/// Task `a` (layer 0, x 0), data object `d` in the half layer after layer 0 at height 300, task
/// `b` (layer 1, x 200), with data flows `a -> d -> b`.
fn sandwich() -> (Graph, NodeId) {
    let mut g = empty_graph();
    let a = g.add_node(task(1), pl(0, 0), Some(LayerId(0)));
    let d = g.add_node(data_object(2), pl(0, 0), Some(LayerId(0)));
    let b = g.add_node(task(3), pl(0, 0), Some(LayerId(1)));
    g.nodes[b.0].x = 200;
    g.nodes[d.0].x = 40;
    g.nodes[d.0].y = 300;
    g.nodes[d.0].uses_half_layer = true;
    df(&mut g, a, d);
    df(&mut g, d, b);
    g.nodes[d.0].incoming_ports = vec![RelativePort { x: 0, y: 25 }];
    g.nodes[d.0].outgoing_ports = vec![RelativePort { x: 36, y: 25 }];
    (g, d)
}

#[test]
fn a_data_object_between_its_two_nodes_is_centred_in_the_gap() {
    let (mut g, d) = sandwich();
    try_move_nodes_into_half_layer(&mut g);
    // Gap from 100 (right border of `a`) to 200 (`b`): centre 150, minus half of 36.
    assert_eq!(g.nodes[d.0].x, 132);
    assert!(g.nodes[d.0].uses_half_layer);
}

#[test]
fn a_data_object_with_other_neighbours_moves_half_a_layer() {
    let (mut g, d) = sandwich();
    let c = g.add_node(task(4), pl(0, 0), Some(LayerId(0)));
    df(&mut g, c, d);
    let shift = g.config.layer_width() / 2;
    try_move_nodes_into_half_layer(&mut g);
    assert_eq!(g.nodes[d.0].x, 40 + shift);
    assert!(g.nodes[d.0].uses_half_layer);
}

#[test]
fn a_data_object_on_a_vertical_edge_segment_leaves_the_half_layer() {
    let (mut g, d) = sandwich();
    // A sequence flow from layer 0 at height 250 to layer 1 at height 400 runs right of layer 0
    // through the height of `d`.
    let e = g.add_node(task(5), pl(0, 0), Some(LayerId(0)));
    let f = g.add_node(task(6), pl(0, 0), Some(LayerId(1)));
    g.nodes[e.0].y = 250;
    g.nodes[f.0].y = 400;
    sf(&mut g, e, f);
    let segments = vertical_segments(&g);
    assert_eq!(segments.len(), 1);
    assert_eq!((segments[0].layer, segments[0].top, segments[0].bottom), (0, 250 - 55, 480 + 5));
    try_move_nodes_into_half_layer(&mut g);
    assert!(!g.nodes[d.0].uses_half_layer);
    assert_eq!(g.nodes[d.0].x, 40);
}

#[test]
fn an_edge_without_a_port_does_not_count_as_a_neighbour() {
    let (mut g, d) = sandwich();
    g.nodes[d.0].outgoing_ports.clear();
    try_move_nodes_into_half_layer(&mut g);
    assert_eq!(g.nodes[d.0].x, 40);
}

#[test]
fn a_data_object_without_a_neighbour_in_the_next_layer_stays() {
    let mut g = empty_graph();
    let a = g.add_node(task(1), pl(0, 0), Some(LayerId(0)));
    let d = g.add_node(data_object(2), pl(0, 0), Some(LayerId(0)));
    g.nodes[d.0].x = 40;
    g.nodes[d.0].uses_half_layer = true;
    df(&mut g, a, d);
    g.nodes[d.0].incoming_ports = vec![RelativePort { x: 0, y: 25 }];
    try_move_nodes_into_half_layer(&mut g);
    assert_eq!(g.nodes[d.0].x, 40);
    assert!(g.nodes[d.0].uses_half_layer);
}

fn data_object_of(n: usize, sde: usize) -> NodeType {
    NodeType::RealNode {
        event: BpmnNode::Data(DataType::Object, DataAux { sde_id: SdeId(sde), pebpmd_protection: vec![] }),
        display_text: format!("d{n}"),
        tc: tc(n),
        transported_data: vec![],
        pe_bpmd_hides_protection_operations: false,
    }
}

fn node_data(g: &Graph, n: NodeId) -> Vec<SdeId> {
    match &g.nodes[n.0].node_type {
        NodeType::RealNode { transported_data, .. } => transported_data.clone(),
        _ => vec![],
    }
}

/// Data object `d1` (element `in_sde`) flows into the sender `s`, which sends a message to `r`,
/// which hands data object `d2` (element `out_sde`) on.
fn message_exchange(in_sde: usize, out_sde: usize) -> (Graph, NodeId, NodeId, EdgeId) {
    let mut g = empty_graph();
    g.add_pool(None, tc(0));
    g.pools[1].add_lane(None, tc(0));
    let d1 = g.add_node(data_object_of(1, in_sde), pl(0, 0), Some(LayerId(0)));
    let s = g.add_node(task(2), pl(0, 0), Some(LayerId(1)));
    let r = g.add_node(task(3), pl(1, 0), Some(LayerId(1)));
    let d2 = g.add_node(data_object_of(4, out_sde), pl(1, 0), Some(LayerId(2)));
    g.add_edge(d1, s, regular(), FlowType::DataFlow(DataFlowAux { transported_data: SdeId(in_sde) }), None);
    let m = g.add_edge(s, r, regular(), FlowType::MessageFlow(MessageFlowAux { transported_data: vec![SdeId(7)], tc: tc(9) }), None);
    g.add_edge(r, d2, regular(), FlowType::DataFlow(DataFlowAux { transported_data: SdeId(out_sde) }), None);
    (g, s, r, m)
}

#[test]
fn a_message_flow_carries_the_data_that_enters_its_sender_and_leaves_its_receiver() {
    let (mut g, s, r, m) = message_exchange(3, 3);
    create_transported_data(&mut g);
    match &g.edges[m.0].flow_type {
        FlowType::MessageFlow(aux) => assert_eq!(aux.transported_data, vec![SdeId(3), SdeId(7)]),
        _ => panic!("not a message flow"),
    }
    assert_eq!(node_data(&g, s), vec![SdeId(3)]);
    assert_eq!(node_data(&g, r), vec![SdeId(3)]);
}

#[test]
fn data_that_does_not_pass_through_stays_behind() {
    let (mut g, s, r, m) = message_exchange(3, 4);
    create_transported_data(&mut g);
    match &g.edges[m.0].flow_type {
        FlowType::MessageFlow(aux) => assert_eq!(aux.transported_data, vec![SdeId(7)]),
        _ => panic!("not a message flow"),
    }
    assert_eq!(node_data(&g, s), vec![]);
    assert_eq!(node_data(&g, r), vec![]);
}
