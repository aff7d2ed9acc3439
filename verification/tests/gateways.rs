use bpmd::bpmn_node::{ActivityMarker, ActivityType, BpmnNode, GatewayType, TaskType};
use bpmd::config::Config;
use bpmd::gateway_ports::{handle_gateway_node, handle_gateway_node_one_side};
use bpmd::graph::{BendDummyKind, EdgeType, FlowType, Graph, NodeType, RegularEdgeBendPoints};
use bpmd::ids::{EdgeId, LaneId, LayerId, NodeId, PoolAndLane, PoolId, RelativePort, TokenCoordinate};

fn tc(n: usize) -> TokenCoordinate {
    TokenCoordinate { source_file_idx: 0, start: n, end: n + 1 }
}

fn real_node(event: BpmnNode, n: usize) -> NodeType {
    NodeType::RealNode {
        event,
        display_text: format!("n{n}"),
        tc: tc(n),
        transported_data: vec![],
        pe_bpmd_hides_protection_operations: false,
    }
}

fn pl(pool: usize, lane: usize) -> PoolAndLane {
    PoolAndLane { pool: PoolId(pool), lane: LaneId(lane) }
}

/// Pool 0 with two lanes: the gateway in lane 0 and layer 0, its targets `x` in lane 0 and `y` in
/// lane 1, both in layer 1.
fn split() -> (Graph, NodeId, NodeId, NodeId) {
    let mut g = Graph {
        nodes: Vec::new(),
        edges: Vec::new(),
        pools: Vec::new(),
        data_elements: Vec::new(),
        config: Config::default(),
        num_layers: 2,
        pe_bpmd_definitions: Vec::new(),
    };
    g.add_pool(None, tc(0));
    g.pools[0].add_lane(None, tc(0));
    g.pools[0].add_lane(None, tc(0));
    let gw = g.add_node(real_node(BpmnNode::Gateway(GatewayType::Exclusive), 1), pl(0, 0), Some(LayerId(0)));
    let task = real_node(BpmnNode::Activity(ActivityType::Task(TaskType::Plain), ActivityMarker::default()), 2);
    let x = g.add_node(task.clone(), pl(0, 0), Some(LayerId(1)));
    let y = g.add_node(task, pl(0, 1), Some(LayerId(1)));
    for to in [x, y] {
        g.add_edge(gw, to, EdgeType::Regular { text: None, bend_points: RegularEdgeBendPoints::ToBeDetermined },
            FlowType::SequenceFlow, None);
    }
    (g, gw, x, y)
}

#[test]
fn gateway_side_gets_a_bend_dummy_per_edge() {
    let (mut g, gw, x, y) = split();
    handle_gateway_node_one_side(&mut g, gw, true);
    assert_eq!(g.nodes.len(), 5);
    let (d1, d2) = (NodeId(3), NodeId(4));
    assert!(matches!(g.nodes[d1.0].node_type, NodeType::BendDummy {
        originating_node: NodeId(0),
        kind: BendDummyKind::FromGatewayToSameLane { gateway_node: NodeId(0), target_node: NodeId(1) },
    }));
    assert!(matches!(g.nodes[d2.0].node_type, NodeType::BendDummy {
        originating_node: NodeId(0),
        kind: BendDummyKind::FromGatewayFreeLaneCrossing { gateway_node: NodeId(0), target_node: NodeId(2) },
    }));
    assert_eq!(g.pools[0].lanes[0].nodes, vec![d1, gw, x]);
    assert_eq!(g.pools[0].lanes[1].nodes, vec![d2, y]);
    assert_eq!(g.nodes[gw.0].outgoing, vec![EdgeId(2), EdgeId(4)]);
    assert_eq!((g.edges[3].from, g.edges[3].to), (d1, x));
    assert_eq!((g.edges[5].from, g.edges[5].to), (d2, y));
    // A dummy went into the gateway's own lane: the gateway leaves the lane's chain.
    assert_eq!(g.nodes[gw.0].node_above_in_same_lane, None);
    assert_eq!(g.nodes[gw.0].node_below_in_same_lane, None);
    assert_eq!(g.nodes[d1.0].node_below_in_same_lane, None);
    assert_eq!(g.nodes[d1.0].incoming_ports, vec![RelativePort { x: 50, y: 0 }]);
}

#[test]
fn gateway_ports_sit_in_the_middle() {
    let (mut g, gw, _, _) = split();
    handle_gateway_node(&mut g, gw);
    let (w, h) = (g.nodes[gw.0].width, g.nodes[gw.0].height);
    assert_eq!(g.nodes[gw.0].outgoing_ports, vec![RelativePort { x: w / 2, y: h / 2 }; 2]);
    assert!(g.nodes[gw.0].incoming_ports.is_empty());
    assert_eq!(g.nodes.len(), 5);
    assert_eq!(g.nodes[gw.0].node_above_in_same_lane, None);
}

#[test]
fn gateway_with_one_flow_gets_a_side_port_and_no_dummy() {
    let (mut g, gw, x, _) = split();
    let back = g.add_edge(x, gw, EdgeType::Regular { text: None, bend_points: RegularEdgeBendPoints::ToBeDetermined },
        FlowType::SequenceFlow, None);
    assert_eq!(back, EdgeId(2));
    handle_gateway_node(&mut g, gw);
    let h = g.nodes[gw.0].height;
    assert_eq!(g.nodes[gw.0].incoming_ports, vec![RelativePort { x: 0, y: h / 2 }]);
    assert_eq!(g.nodes[gw.0].incoming, vec![EdgeId(2)]);
}
