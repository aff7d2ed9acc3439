use bpmd::bpmn_node::{ActivityMarker, ActivityType, BpmnNode, TaskType};
use bpmd::config::Config;
use bpmd::dummy_replacement::replace_dummy_nodes;
use bpmd::straight_edges::sequence_edge_routing;
use bpmd::edge_routing::{MessageFlowBendPointStore, MessageFlowBendState};
use bpmd::graph::{DummyEdgeBendPoints, EdgeType, FlowType, Graph, MessageFlowAux, NodeType, RegularEdgeBendPoints};
use bpmd::ids::{EdgeId, LaneId, LayerId, PoolAndLane, PoolId, RelativePort, TokenCoordinate};

fn tc(n: usize) -> TokenCoordinate {
    TokenCoordinate { source_file_idx: 0, start: n, end: n + 1 }
}

fn task(n: usize) -> NodeType {
    NodeType::RealNode {
        event: BpmnNode::Activity(ActivityType::Task(TaskType::Plain), ActivityMarker::default()),
        display_text: format!("t{n}"),
        tc: tc(n),
        transported_data: vec![],
        pe_bpmd_hides_protection_operations: false,
    }
}

fn routed_points(g: &Graph, e: usize) -> Vec<(usize, usize)> {
    match &g.edges[e].edge_type {
        EdgeType::Regular { bend_points: RegularEdgeBendPoints::FullyRouted(v), .. } => v.clone(),
        other => panic!("edge {e} is not fully routed: {other:?}"),
    }
}

/// Task `a` at (0, 0) in layer 0 and task `b` at (400, 0) in layer 2. Edge 0 from `a` to `b` is
/// replaced by dummy edges 2 (`a` to the long edge dummy `d`) and 3 (`d` to `b`); edge 1 from
/// `a` to `b` is regular and reversed.
fn long_edge() -> Graph {
    let mut g = Graph {
        nodes: Vec::new(),
        edges: Vec::new(),
        pools: Vec::new(),
        data_elements: Vec::new(),
        config: Config::default(),
        num_layers: 3,
        pe_bpmd_definitions: Vec::new(),
    };
    g.add_pool(None, tc(0));
    g.pools[0].add_lane(None, tc(0));
    let pl = PoolAndLane { pool: PoolId(0), lane: LaneId(0) };
    let a = g.add_node(task(1), pl, Some(LayerId(0)));
    let b = g.add_node(task(2), pl, Some(LayerId(2)));
    let d = g.add_node(NodeType::LongEdgeDummy, pl, Some(LayerId(1)));
    g.nodes[b.0].x = 400;
    let e0 = g.add_edge(a, b, EdgeType::ReplacedByDummies { first_dummy_edge: EdgeId(2), text: Some("long".to_string()) },
        FlowType::SequenceFlow, None);
    let e1 = g.add_edge(a, b, EdgeType::Regular { text: None, bend_points: RegularEdgeBendPoints::ToBeDetermined },
        FlowType::SequenceFlow, None);
    g.edges[e1.0].is_reversed = true;
    let e2 = g.add_edge(a, d, EdgeType::DummyEdge { original_edge: e0, bend_points: DummyEdgeBendPoints::ToBeDeterminedOrStraight },
        FlowType::SequenceFlow, None);
    let e3 = g.add_edge(d, b, EdgeType::DummyEdge { original_edge: e0, bend_points: DummyEdgeBendPoints::SegmentEndpoints((250, 40), (250, 60)) },
        FlowType::SequenceFlow, None);
    g.nodes[a.0].outgoing = vec![e1, e2];
    g.nodes[a.0].outgoing_ports = vec![RelativePort { x: 100, y: 20 }, RelativePort { x: 100, y: 40 }];
    g.nodes[b.0].incoming = vec![e1, e3];
    g.nodes[b.0].incoming_ports = vec![RelativePort { x: 0, y: 20 }, RelativePort { x: 0, y: 40 }];
    g
}

#[test]
fn a_long_edge_collects_the_bend_points_of_its_dummy_edges() {
    let mut g = long_edge();
    replace_dummy_nodes(&mut g);
    assert_eq!(routed_points(&g, 0), vec![(100, 40), (250, 40), (250, 60), (400, 40)]);
    match &g.edges[0].edge_type {
        EdgeType::Regular { text, .. } => assert_eq!(text.as_deref(), Some("long")),
        _ => panic!("edge 0 is not regular"),
    }
}

#[test]
fn a_reversed_edge_gets_its_ports_in_reverse() {
    let mut g = long_edge();
    replace_dummy_nodes(&mut g);
    assert_eq!(routed_points(&g, 1), vec![(400, 20), (100, 20)]);
}

#[test]
fn dummy_nodes_and_edges_are_gone_afterwards() {
    let mut g = long_edge();
    replace_dummy_nodes(&mut g);
    assert_eq!(g.nodes.len(), 2);
    assert_eq!(g.edges.len(), 2);
    assert_eq!(g.nodes[0].outgoing, vec![EdgeId(1), EdgeId(0)]);
    assert_eq!(g.nodes[1].incoming, vec![EdgeId(1), EdgeId(0)]);
    assert_eq!(g.pools[0].lanes[0].nodes.len(), 2);
    assert!(g.pools[0].lanes[0].nodes.iter().all(|n| n.0 < 2));
}

#[test]
fn ports_of_an_edge_are_found_at_both_ends() {
    let g = long_edge();
    assert_eq!(g.start_and_end_ports(EdgeId(1)), [(100, 20), (400, 20)]);
}

#[test]
fn a_sequence_flow_with_ports_at_one_height_is_drawn_straight() {
    let mut g = long_edge();
    sequence_edge_routing(&mut g);
    assert_eq!(routed_points(&g, 1), vec![(400, 20), (100, 20)]);
    // The edge replaced by dummies is no regular edge and stays as it is.
    assert!(matches!(g.edges[0].edge_type, EdgeType::ReplacedByDummies { .. }));
}

#[test]
fn a_sequence_flow_with_ports_at_different_heights_is_left_alone_unless_vertical() {
    let mut g = long_edge();
    g.nodes[1].incoming_ports[0].y = 30;
    sequence_edge_routing(&mut g);
    assert!(matches!(
        g.edges[1].edge_type,
        EdgeType::Regular { bend_points: RegularEdgeBendPoints::ToBeDetermined, .. }
    ));
    let mut g = long_edge();
    g.nodes[1].incoming_ports[0].y = 30;
    g.edges[1].is_vertical = true;
    sequence_edge_routing(&mut g);
    assert_eq!(routed_points(&g, 1), vec![(400, 30), (100, 20)]);
}

/// Task `a` at (0, 0) in pool 0 and task `b` at (0, 300) in pool 1, with a message flow from `a`
/// (port at the bottom middle) to `b` (port at the top middle).
fn message_flow_between_pools() -> (Graph, EdgeId) {
    let mut g = Graph {
        nodes: Vec::new(),
        edges: Vec::new(),
        pools: Vec::new(),
        data_elements: Vec::new(),
        config: Config::default(),
        num_layers: 2,
        pe_bpmd_definitions: Vec::new(),
    };
    g.add_pool(None, tc(0));
    g.pools[0].add_lane(None, tc(0));
    g.add_pool(None, tc(0));
    g.pools[1].add_lane(None, tc(0));
    let a = g.add_node(task(1), PoolAndLane { pool: PoolId(0), lane: LaneId(0) }, Some(LayerId(0)));
    let b = g.add_node(task(2), PoolAndLane { pool: PoolId(1), lane: LaneId(0) }, Some(LayerId(1)));
    g.nodes[b.0].y = 300;
    let e = g.add_edge(a, b, EdgeType::Regular { text: None, bend_points: RegularEdgeBendPoints::ToBeDetermined },
        FlowType::MessageFlow(MessageFlowAux { transported_data: vec![], tc: tc(3) }), None);
    g.nodes[a.0].outgoing_ports = vec![RelativePort { x: 50, y: 80 }];
    g.nodes[b.0].incoming_ports = vec![RelativePort { x: 50, y: 0 }];
    (g, e)
}

#[test]
fn a_downward_flow_between_pools_gets_its_segment_transposed() {
    let (mut g, e) = message_flow_between_pools();
    let mut store = MessageFlowBendPointStore::new();
    store.register_edge(e, MessageFlowBendState::VerHorVer { bends_after_pool: PoolId(0), interpool_bendpoint1_x: 50, interpool_bendpoint2_x: 50 });
    store.finish_layer(&mut g, e, (10, 20), (30, 40));
    assert_eq!(routed_points(&g, e.0), vec![(50, 80), (20, 10), (40, 30), (50, 300)]);
    assert!(store.store.is_empty());
}

#[test]
fn a_flow_waiting_for_its_second_half_keeps_its_first_bend_point() {
    let (mut g, e) = message_flow_between_pools();
    let mut store = MessageFlowBendPointStore::new();
    store.register_edge(e, MessageFlowBendState::HorVerHorVer { bends_after_pool: PoolId(0), bend_point_1: None, interpool_bendpoint2_x: 60 });
    store.finish_layer(&mut g, e, (70, 5), (70, 90));
    assert!(matches!(g.edges[e.0].edge_type, EdgeType::Regular { bend_points: RegularEdgeBendPoints::ToBeDetermined, .. }));
    assert_eq!(store.store.len(), 1);
    store.finish_layer(&mut g, e, (100, 70), (200, 60));
    assert_eq!(routed_points(&g, e.0), vec![(50, 80), (70, 5), (70, 100), (60, 200), (50, 300)]);
    assert!(store.store.is_empty());
}
