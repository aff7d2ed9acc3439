use bpmd::bpmn_node::{ActivityMarker, ActivityType, BoundaryEvent, BoundaryEventType, BpmnNode, GatewayType, InterruptKind, TaskType};
use bpmd::boundary_events::fix_boundary_event_connections;
use bpmd::config::Config;
use bpmd::fixup_gateway_ports::{fixup_gateway_ports, postprocess_vertical_edges};
use bpmd::graph::{BendDummyKind, DummyEdgeBendPoints, EdgeType, FlowType, Graph, NodeType, RegularEdgeBendPoints};
use bpmd::ids::{EdgeId, LaneId, LayerId, NodeId, PoolAndLane, PoolId, RelativePort, TokenCoordinate};

fn tc(n: usize) -> TokenCoordinate {
    TokenCoordinate { source_file_idx: 0, start: n, end: n + 1 }
}

fn real_node(event: BpmnNode, n: usize) -> NodeType {
    NodeType::RealNode {
        event,
        display_text: format!("n{n}"),
        tc: tc(n),
        transported_data: vec![],
        pe_bpmd_hides_protection_operations: false,
    }
}

/// A gateway at (0, 100) (50 by 50), a task, and a bend dummy of the gateway at height
/// `dummy_y`, joined to the gateway by a vertical dummy edge from the gateway to the dummy.
fn gateway_with_dummy(dummy_y: usize) -> (Graph, NodeId, NodeId, NodeId, EdgeId) {
    let mut g = Graph {
        nodes: Vec::new(),
        edges: Vec::new(),
        pools: Vec::new(),
        data_elements: Vec::new(),
        config: Config::default(),
        num_layers: 2,
        pe_bpmd_definitions: Vec::new(),
    };
    g.add_pool(None, tc(0));
    g.pools[0].add_lane(None, tc(0));
    let pl = PoolAndLane { pool: PoolId(0), lane: LaneId(0) };
    let gw = g.add_node(real_node(BpmnNode::Gateway(GatewayType::Exclusive), 1), pl, Some(LayerId(0)));
    let task = g.add_node(real_node(BpmnNode::Activity(ActivityType::Task(TaskType::Plain), ActivityMarker::default()), 2),
        pl, Some(LayerId(1)));
    let dummy = g.add_node(NodeType::BendDummy { originating_node: gw, kind: BendDummyKind::FromBoundaryEvent }, pl,
        Some(LayerId(0)));
    g.nodes[gw.0].y = 100;
    g.nodes[dummy.0].y = dummy_y;
    let e = g.add_edge(gw, dummy, EdgeType::DummyEdge { original_edge: EdgeId(0), bend_points: DummyEdgeBendPoints::ToBeDeterminedOrStraight },
        FlowType::SequenceFlow, None);
    g.edges[e.0].is_vertical = true;
    g.nodes[gw.0].outgoing_ports = vec![RelativePort { x: 25, y: 50 }];
    g.nodes[dummy.0].incoming_ports = vec![RelativePort { x: 10, y: 0 }];
    g.nodes[task.0].incoming_ports = vec![RelativePort { x: 0, y: 40 }];
    (g, gw, task, dummy, e)
}

#[test]
fn a_vertical_edge_to_a_bend_dummy_below_bends_at_the_dummy() {
    let (mut g, _, _, _, e) = gateway_with_dummy(300);
    postprocess_vertical_edges(&mut g);
    match &g.edges[e.0].edge_type {
        EdgeType::DummyEdge { bend_points: DummyEdgeBendPoints::VerticalBendDummy(p), original_edge } => {
            assert_eq!(*p, (0, 300));
            assert_eq!(*original_edge, EdgeId(0));
        },
        other => panic!("unexpected {other:?}"),
    }
}

#[test]
fn a_vertical_edge_to_a_bend_dummy_within_the_gateway_collapses() {
    let (mut g, _, _, _, e) = gateway_with_dummy(120);
    postprocess_vertical_edges(&mut g);
    assert!(matches!(
        g.edges[e.0].edge_type,
        EdgeType::DummyEdge { bend_points: DummyEdgeBendPoints::VerticalCollapsed, .. }
    ));
}

#[test]
fn gateway_ports_move_towards_the_other_end_of_vertical_edges() {
    let (mut g, gw, task, dummy, e) = gateway_with_dummy(120);
    // The gateway's incoming edge is the vertical one, coming from the dummy within its height.
    g.nodes[gw.0].incoming = vec![e];
    g.nodes[gw.0].incoming_ports = vec![RelativePort { x: 25, y: 25 }];
    fixup_gateway_ports(&mut g);
    assert_eq!(g.nodes[gw.0].incoming_ports, vec![RelativePort { x: 0, y: 120 }]);
    assert_eq!(g.nodes[gw.0].outgoing_ports, vec![RelativePort { x: 50, y: 120 }]);
    // Nodes other than gateways are left without ports.
    assert!(g.nodes[task.0].incoming_ports.is_empty());
    assert!(g.nodes[dummy.0].incoming_ports.is_empty());
}

#[test]
fn a_gateway_port_towards_a_node_above_goes_to_the_top_border_height() {
    let (mut g, gw, _, _, e) = gateway_with_dummy(20);
    g.nodes[gw.0].incoming = vec![e];
    g.nodes[gw.0].incoming_ports = vec![RelativePort { x: 25, y: 25 }];
    fixup_gateway_ports(&mut g);
    assert_eq!(g.nodes[gw.0].incoming_ports, vec![RelativePort { x: 25, y: 100 }]);
}

fn with_boundary_edge(task_y: usize, points: Vec<(usize, usize)>) -> Graph {
    let (mut g, _, task, dummy, _) = gateway_with_dummy(300);
    g.nodes[task.0].y = task_y;
    let be = BoundaryEvent {
        event_type: BoundaryEventType::Timer,
        interrupt_kind: InterruptKind::Interrupting,
        x: 0,
        y: 0,
    };
    g.add_edge(task, dummy, EdgeType::Regular { text: None, bend_points: RegularEdgeBendPoints::FullyRouted(points) },
        FlowType::SequenceFlow, Some(be));
    g
}

fn start_and_event(g: &Graph) -> ((usize, usize), (usize, usize)) {
    let e = g.edges.last().unwrap();
    let be = e.attached_to_boundary_event.unwrap();
    match &e.edge_type {
        EdgeType::Regular { bend_points: RegularEdgeBendPoints::FullyRouted(v), .. } => (v[0], (be.x, be.y)),
        other => panic!("unexpected {other:?}"),
    }
}

#[test]
fn a_boundary_event_at_the_bottom_moves_the_edge_start_down() {
    // The task spans heights 0 to 80; the edge leaves at its bottom border.
    let mut g = with_boundary_edge(0, vec![(50, 80), (50, 200)]);
    fix_boundary_event_connections(&mut g);
    assert_eq!(start_and_event(&g), ((50, 98), (32, 62)));
}

#[test]
fn a_boundary_event_on_the_side_moves_the_edge_start_right() {
    let mut g = with_boundary_edge(0, vec![(100, 40), (200, 40)]);
    fix_boundary_event_connections(&mut g);
    assert_eq!(start_and_event(&g), ((118, 40), (82, 22)));
}

#[test]
fn a_boundary_event_at_the_top_moves_the_edge_start_up() {
    let mut g = with_boundary_edge(100, vec![(50, 100), (50, 20)]);
    fix_boundary_event_connections(&mut g);
    assert_eq!(start_and_event(&g), ((50, 82), (32, 82)));
}
