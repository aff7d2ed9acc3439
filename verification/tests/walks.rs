use bpmd::bpmn_node::{ActivityMarker, ActivityType, BpmnNode, TaskType};
use bpmd::config::Config;
use bpmd::bend_dummy::add_bend_dummy_node;
use bpmd::graph::{BendDummyKind, EdgeType, FlowType, Graph, NodeType, RegularEdgeBendPoints};
use bpmd::ids::{Coord3, EdgeId, LaneId, LayerId, NodeId, PoolAndLane, PoolId, RelativePort, TokenCoordinate};
use bpmd::lane_neighbours::Place;
use bpmd::layer_walk::StartAt;
use bpmd::port_assignment::{
    bottom_barrier, top_barrier, PartitionedPortIndices, PlaceForBendDummy, PortFlowType, PortInfo,
};
use bpmd::port_placement::{place_ports_and_bend_dummies, plan_bend_dummies};
use bpmd::port_plan::PortPlan;

fn task(n: usize) -> NodeType {
    NodeType::RealNode {
        event: BpmnNode::Activity(ActivityType::Task(TaskType::Plain), ActivityMarker::default()),
        display_text: format!("n{n}"),
        tc: TokenCoordinate { source_file_idx: 0, start: n, end: n + 1 },
        transported_data: vec![],
        pe_bpmd_hides_protection_operations: false,
    }
}

fn pl(pool: usize, lane: usize) -> PoolAndLane {
    PoolAndLane { pool: PoolId(pool), lane: LaneId(lane) }
}

/// Pool 0 with three lanes: in layer 1, `a` above `b` in lane 0 and `c` in lane 2. Pool 1 with
/// one lane: `d` in layer 1.
fn layered() -> (Graph, [NodeId; 4]) {
    let mut g = Graph {
        nodes: Vec::new(),
        edges: Vec::new(),
        pools: Vec::new(),
        data_elements: Vec::new(),
        config: Config::default(),
        num_layers: 2,
        pe_bpmd_definitions: Vec::new(),
    };
    let tc = TokenCoordinate { source_file_idx: 0, start: 0, end: 0 };
    g.add_pool(None, tc);
    for _ in 0..3 {
        g.pools[0].add_lane(None, tc);
    }
    g.add_pool(None, tc);
    g.pools[1].add_lane(None, tc);
    let a = g.add_node(task(1), pl(0, 0), Some(LayerId(1)));
    let b = g.add_node(task(2), pl(0, 0), Some(LayerId(1)));
    let c = g.add_node(task(3), pl(0, 2), Some(LayerId(1)));
    let d = g.add_node(task(4), pl(1, 0), Some(LayerId(1)));
    g.adjust_above_and_below_for_new_inbetween(b, Place::Below(a));
    (g, [a, b, c, d])
}

#[test]
fn walking_up_within_a_pool() {
    let (g, [a, b, c, _]) = layered();
    assert_eq!(g.iter_upwards_same_pool(StartAt::Node(c), None), vec![b, a]);
    assert_eq!(g.iter_upwards_same_pool(StartAt::Node(a), None), vec![]);
}

#[test]
fn walking_down_within_a_pool() {
    let (g, [a, b, c, _]) = layered();
    assert_eq!(g.iter_downwards_same_pool(StartAt::Node(a), None), vec![b, c]);
    assert_eq!(g.iter_downwards_same_pool(StartAt::Node(a), Some(pl(0, 1))), vec![b]);
}

#[test]
fn walking_up_from_an_empty_lane_meets_the_next_lane_twice() {
    // Starting at a lane, the walk does not move on to the lane where it found its first node, so
    // that lane is walked again once its chain ends.
    let (g, [a, b, _, _]) = layered();
    let start = StartAt::PoolLane(Coord3 { pool_and_lane: pl(0, 1), layer: LayerId(1), half_layer: false });
    assert_eq!(g.iter_upwards_same_pool(start, None), vec![b, a, b, a]);
}

#[test]
fn walking_over_all_pools() {
    let (g, [a, b, c, d]) = layered();
    assert_eq!(g.iter_upwards_all_pools(StartAt::Node(d), None), vec![c, b, a]);
    assert_eq!(g.iter_downwards_all_pools(StartAt::Node(a), None), vec![b, c, d]);
    assert_eq!(g.iter_downwards_all_pools(StartAt::Node(a), Some(pl(0, 2))), vec![b, c]);
}

#[test]
fn barriers_are_the_nearest_nodes_above_and_below() {
    let (g, [a, b, c, d]) = layered();
    let top = top_barrier(&g, d).unwrap();
    assert_eq!((top.pool_and_lane, top.blocking_real_node), (pl(0, 2), c));
    let bottom = bottom_barrier(&g, a).unwrap();
    assert_eq!((bottom.pool_and_lane, bottom.blocking_real_node), (pl(0, 0), b));
    assert!(top_barrier(&g, a).is_none());
    assert!(bottom_barrier(&g, d).is_none());
}

#[test]
fn a_bend_dummy_splits_a_regular_edge() {
    let mut g = Graph {
        nodes: Vec::new(),
        edges: Vec::new(),
        pools: Vec::new(),
        data_elements: Vec::new(),
        config: Config::default(),
        num_layers: 2,
        pe_bpmd_definitions: Vec::new(),
    };
    let tc = TokenCoordinate { source_file_idx: 0, start: 0, end: 0 };
    g.add_pool(None, tc);
    g.pools[0].add_lane(None, tc);
    let gw = g.add_node(task(1), pl(0, 0), Some(LayerId(0)));
    let x = g.add_node(task(2), pl(0, 0), Some(LayerId(1)));
    let e = g.add_edge(gw, x, EdgeType::Regular { text: Some("yes".to_string()), bend_points: RegularEdgeBendPoints::ToBeDetermined },
        FlowType::SequenceFlow, None);
    let kind = BendDummyKind::FromGatewayToSameLane { gateway_node: gw, target_node: x };
    let d = add_bend_dummy_node(&mut g, e, pl(0, 0), LayerId(0), PlaceForBendDummy::AtTheTop, gw, 50, kind);
    assert_eq!(d, NodeId(2));
    assert_eq!(g.pools[0].lanes[0].nodes, vec![d, gw, x]);
    assert!(matches!(&g.edges[e.0].edge_type, EdgeType::ReplacedByDummies { first_dummy_edge: EdgeId(1), text: Some(t) } if t == "yes"));
    assert_eq!((g.edges[1].from, g.edges[1].to, g.edges[1].is_vertical), (gw, d, true));
    assert_eq!((g.edges[2].from, g.edges[2].to, g.edges[2].is_vertical), (d, x, false));
    assert_eq!(g.nodes[gw.0].outgoing, vec![EdgeId(1)]);
    assert_eq!(g.nodes[x.0].incoming, vec![EdgeId(2)]);
    assert_eq!((g.nodes[d.0].incoming.clone(), g.nodes[d.0].outgoing.clone()), (vec![EdgeId(1)], vec![EdgeId(2)]));
    assert_eq!(g.nodes[d.0].node_below_in_same_lane, Some(gw));
    assert_eq!(g.nodes[gw.0].node_above_in_same_lane, Some(d));
    assert_eq!(g.nodes[d.0].incoming_ports, vec![RelativePort { x: 50, y: 0 }]);
}

#[test]
fn a_bend_dummy_on_a_dummy_edge_bends_it_around() {
    let (mut g, [a, b, c, _]) = layered();
    let e = g.add_edge(b, c, EdgeType::Regular { text: None, bend_points: RegularEdgeBendPoints::ToBeDetermined },
        FlowType::SequenceFlow, None);
    let first = add_bend_dummy_node(&mut g, e, pl(0, 1), LayerId(1), PlaceForBendDummy::AtTheBottom, b, 50, BendDummyKind::FromBoundaryEvent);
    // The second half of the split edge is a dummy edge; split it again.
    let second_half = EdgeId(e.0 + 2);
    let second = add_bend_dummy_node(&mut g, second_half, pl(0, 1), LayerId(1), PlaceForBendDummy::Below(first), c, 50, BendDummyKind::FromBoundaryEvent);
    assert_eq!(g.edges[second_half.0].from, second);
    assert_eq!(g.edges.len(), e.0 + 4);
    assert_eq!((g.edges[e.0 + 3].from, g.edges[e.0 + 3].to), (first, second));
    assert_eq!(g.nodes[first.0].outgoing, vec![EdgeId(e.0 + 3)]);
    assert_eq!(g.nodes[first.0].node_below_in_same_lane, Some(second));
    assert_eq!(g.nodes[second.0].node_above_in_same_lane, Some(first));
    assert!(g.edges[second_half.0].is_vertical);
    assert_eq!(g.nodes[a.0].node_below_in_same_lane, Some(b));
}

fn port(edge: EdgeId, incoming: bool, x: usize, other: PoolAndLane, other_layer: usize, needs_dummy: bool) -> PortInfo {
    PortInfo {
        edge_id: edge,
        is_incoming: incoming,
        coordinate: RelativePort { x, y: 0 },
        must_go_vertical: None,
        other_pool_lane: other,
        other_layer: LayerId(other_layer),
        flow_type: PortFlowType::Sequence,
        requires_bend_dummy: needs_dummy,
        is_boundary_event: false,
    }
}

fn no_parts() -> PartitionedPortIndices {
    PartitionedPortIndices { top: (0, 0), side_upper: (0, 0), side_middle_sf: None, side_lower: (0, 0), bottom: (0, 0) }
}

#[test]
fn top_bend_dummies_go_outwards_from_the_turn() {
    let plan = PortPlan {
        incoming: vec![port(EdgeId(0), true, 10, pl(0, 0), 0, true), port(EdgeId(1), true, 20, pl(0, 1), 1, true)],
        outgoing: vec![port(EdgeId(2), false, 30, pl(0, 0), 3, true), port(EdgeId(3), false, 35, pl(0, 0), 4, false)],
        incoming_parts: no_parts(),
        outgoing_parts: no_parts(),
        top: vec![(true, 0), (true, 1), (false, 0), (false, 1)],
        bottom: vec![],
        top_barrier: None,
        bottom_barrier: None,
    };
    let steps = plan_bend_dummies(&plan, NodeId(7), pl(0, 1), LayerId(2), 40);
    let got: Vec<(EdgeId, PoolAndLane, PlaceForBendDummy, usize)> =
        steps.iter().map(|s| (s.edge_id, s.pool_and_lane, s.place, s.relative_port_x)).collect();
    assert_eq!(got.len(), 3);
    assert_eq!((got[0].0, got[0].1, got[0].3), (EdgeId(1), pl(0, 1), 50));
    assert!(matches!(got[0].2, PlaceForBendDummy::Above(NodeId(7))));
    assert_eq!((got[1].0, got[1].1, got[1].3), (EdgeId(0), pl(0, 0), 40));
    assert!(matches!(got[1].2, PlaceForBendDummy::AtTheBottom));
    assert_eq!((got[2].0, got[2].1, got[2].3), (EdgeId(2), pl(0, 0), 60));
    assert!(matches!(got[2].2, PlaceForBendDummy::AtTheBottom));
}

#[test]
fn placing_ports_adds_bend_dummies_and_writes_coordinates() {
    let mut g = Graph {
        nodes: Vec::new(),
        edges: Vec::new(),
        pools: Vec::new(),
        data_elements: Vec::new(),
        config: Config::default(),
        num_layers: 2,
        pe_bpmd_definitions: Vec::new(),
    };
    let tc = TokenCoordinate { source_file_idx: 0, start: 0, end: 0 };
    g.add_pool(None, tc);
    g.pools[0].add_lane(None, tc);
    g.pools[0].add_lane(None, tc);
    let o = g.add_node(task(1), pl(0, 0), Some(LayerId(0)));
    let n = g.add_node(task(2), pl(0, 1), Some(LayerId(1)));
    let e = g.add_edge(o, n, EdgeType::Regular { text: None, bend_points: RegularEdgeBendPoints::ToBeDetermined },
        FlowType::SequenceFlow, None);
    let mut plan = PortPlan {
        incoming: vec![port(e, true, 10, pl(0, 0), 0, true)],
        outgoing: vec![],
        incoming_parts: no_parts(),
        outgoing_parts: no_parts(),
        top: vec![(true, 0)],
        bottom: vec![],
        top_barrier: None,
        bottom_barrier: None,
    };
    plan.incoming[0].coordinate = RelativePort { x: 10, y: 0 };
    let width = g.nodes[n.0].width;
    place_ports_and_bend_dummies(&mut g, n, &plan);
    let d = NodeId(2);
    assert_eq!(g.nodes.len(), 3);
    assert_eq!(g.pools[0].lanes[0].nodes, vec![o, d]);
    assert_eq!(g.nodes[d.0].incoming_ports, vec![RelativePort { x: 10 + 50 - width / 2, y: 0 }]);
    assert_eq!(g.nodes[n.0].incoming_ports, vec![RelativePort { x: 10, y: 0 }]);
    assert!(g.nodes[n.0].outgoing_ports.is_empty());
    assert!(matches!(g.edges[e.0].edge_type, EdgeType::ReplacedByDummies { .. }));
    assert_eq!(g.nodes[n.0].incoming, vec![EdgeId(2)]);
}
