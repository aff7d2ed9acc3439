use bpmd::data_edge_routing::{self, Matrix};
use bpmd::edge_routing::{self, Alignment, MessageFlowBendPointStore, MessageFlowBendState, StartEnd, VerticalSegment};
use bpmd::ids::{EdgeId, LaneId, LayerId, NodeId, PoolAndLane, PoolId, RelativePort};
use bpmd::port_assignment::{self, PlaceForBendDummy, PortFlowType, PortInfo, VerticalEdgeDocks};
use bpmd::vecmap::VecMap;
use bpmd::config::Config;

use bpmd::bpmn_node::{ActivityMarker, ActivityType, BpmnNode, TaskType};
use bpmd::ids::TokenCoordinate;
use bpmd::graph::{EdgeType, FlowType, Graph, NodeType, RegularEdgeBendPoints};
use bpmd::lane_crossings::same_layer_lane_crossings_within_cluster;
use bpmd::vecset::VecSet;

fn seg(id: usize, start_y: usize, end_y: usize) -> VerticalSegment {
    VerticalSegment { id: EdgeId(id), start_y, end_y, idx: 0, idx2: None, is_message_flow: false, alignment: Alignment::Center }
}

#[test]
fn transpose_swaps_axes_and_ends_when_going_up() {
    assert_eq!(edge_routing::transpose((1, 2), (3, 4), true), ((2, 1), (4, 3)));
    assert_eq!(edge_routing::transpose((1, 2), (3, 4), false), ((4, 3), (2, 1)));
}

#[test]
fn segment_min_and_max() {
    let s = seg(0, 50, 10);
    assert_eq!(s.min_y(), 10);
    assert_eq!(s.max_y(), 50);
}

#[test]
fn overlapping_segments_get_separate_columns() {
    let mut segs = vec![seg(0, 0, 10), seg(1, 5, 20), seg(2, 30, 40)];
    let mut buf = Vec::new();
    let n = edge_routing::determine_segment_layers_up_or_down_edges(&mut segs, &mut buf, 3, false);
    assert_eq!(n, 2);
    assert_eq!(segs[0].idx, 3);
    assert_eq!(segs[1].idx, 4);
    // The third segment fits left of the second one, into the first column again.
    assert_eq!(segs[2].idx, 3);
    assert_eq!(buf, vec![40, 20]);
}

#[test]
fn downward_runs_are_mirrored() {
    let mut segs = vec![seg(0, 0, 10), seg(1, 5, 20)];
    let mut buf = Vec::new();
    let n = edge_routing::determine_segment_layers_up_or_down_edges(&mut segs, &mut buf, 0, true);
    assert_eq!(n, 2);
    assert_eq!(segs[0].idx, 2);
    assert_eq!(segs[1].idx, 1);
}

#[test]
fn no_loops_take_no_columns() {
    let mut segs: Vec<VerticalSegment> = Vec::new();
    let mut buf = vec![7];
    assert_eq!(edge_routing::determine_segment_layers_left_or_right_loops(&mut segs, &mut buf, 4, false), 0);
    assert_eq!(buf, vec![7]);
}

#[test]
fn bend_store_replaces_and_lists_bending_flows() {
    let mut store = MessageFlowBendPointStore::new();
    store.register_edge(EdgeId(1), MessageFlowBendState::HorVerHor);
    store.register_edge(EdgeId(2), MessageFlowBendState::VerHorVer { bends_after_pool: PoolId(0), interpool_bendpoint1_x: 10, interpool_bendpoint2_x: 20 });
    store.register_edge(EdgeId(1), MessageFlowBendState::HorVerHorVerHor {
        bends_after_pool: PoolId(1),
        bend_point_1: Some((5, 6)),
        bend_point_2: Some((7, 8)),
    });
    assert_eq!(store.store.len(), 2);
    let breaks = store.iter_edges_for_break_after_pool();
    assert_eq!(breaks, vec![
        (PoolId(1), EdgeId(1), StartEnd { start: 5, end: 7 }),
        (PoolId(0), EdgeId(2), StartEnd { start: 10, end: 20 }),
    ]);
}

fn port(flow_type: PortFlowType, must_go_vertical: Option<VerticalEdgeDocks>, is_boundary_event: bool) -> PortInfo {
    PortInfo {
        edge_id: EdgeId(0),
        is_incoming: false,
        coordinate: RelativePort { x: 0, y: 0 },
        must_go_vertical,
        other_pool_lane: PoolAndLane { pool: PoolId(0), lane: LaneId(0) },
        other_layer: LayerId(0),
        flow_type,
        requires_bend_dummy: false,
        is_boundary_event,
    }
}

#[test]
fn ports_split_around_the_straight_sequence_flow() {
    let mut ports = vec![
        port(PortFlowType::Sequence, Some(VerticalEdgeDocks::Above), true),
        port(PortFlowType::MessageAbove { would_like_to_go_vertical: false }, None, false),
        port(PortFlowType::Sequence, None, false),
        port(PortFlowType::Data, None, false),
        port(PortFlowType::Sequence, Some(VerticalEdgeDocks::Below), false),
    ];
    let p = port_assignment::partition_ports(&mut ports);
    assert_eq!(p.side_middle_sf, Some(2));
    assert_eq!(p.top, (0, 1));
    assert_eq!(p.side_upper, (1, 2));
    assert_eq!(p.side_lower, (3, 4));
    assert_eq!(p.bottom, (4, 5));
    assert!(ports[0].requires_bend_dummy);
    assert!(!ports[1].requires_bend_dummy);
    assert!(!ports[4].requires_bend_dummy);
}

#[test]
fn horizontal_message_flow_starts_the_upper_side() {
    let mut ports = vec![
        port(PortFlowType::MessageAbove { would_like_to_go_vertical: false }, None, false),
        port(PortFlowType::Data, None, false),
        port(PortFlowType::Sequence, None, false),
    ];
    let p = port_assignment::partition_ports(&mut ports);
    assert_eq!(p.side_middle_sf, Some(2));
    assert_eq!(p.top, (0, 0));
    assert_eq!(p.side_upper, (0, 2));
    assert_eq!(p.bottom, (3, 3));
    assert!(!ports[0].requires_bend_dummy);
}

#[test]
fn bottom_ports_need_bend_dummies_up_to_last_boundary_event() {
    let mut ports = vec![
        port(PortFlowType::Sequence, Some(VerticalEdgeDocks::Below), false),
        port(PortFlowType::Sequence, None, true),
        port(PortFlowType::Data, None, false),
    ];
    let p = port_assignment::partition_ports(&mut ports);
    assert_eq!(p.side_middle_sf, None);
    assert_eq!(p.bottom, (0, 3));
    assert!(ports[0].requires_bend_dummy);
    assert!(ports[1].requires_bend_dummy);
    assert!(!ports[2].requires_bend_dummy);
}

#[test]
fn best_position_update_rules() {
    let pl = PoolAndLane { pool: PoolId(0), lane: LaneId(0) };
    let mut cur = (false, pl, PlaceForBendDummy::AtTheTop, 5);
    port_assignment::maybe_update_best_position(&mut cur, (true, pl, PlaceForBendDummy::Above(NodeId(1)), 5), true);
    assert!(cur.0);
    port_assignment::maybe_update_best_position(&mut cur, (false, pl, PlaceForBendDummy::Below(NodeId(2)), 5), false);
    assert!(cur.0);
    port_assignment::maybe_update_best_position(&mut cur, (false, pl, PlaceForBendDummy::AtTheBottom, 4), false);
    assert!(!cur.0);
    assert_eq!(cur.3, 4);
}

#[test]
fn matrix_records_boxes_and_blocks_points() {
    let mut m: Matrix = VecMap::new();
    data_edge_routing::add_to_matrix(&mut m, &0, 100, 50, 10, 10);
    data_edge_routing::add_to_matrix(&mut m, &1, 100, 50, 300, 10);
    data_edge_routing::add_to_matrix(&mut m, &2, 40, 40, 150, 10);
    data_edge_routing::add_to_matrix(&mut m, &2, 40, 40, 160, 10);
    assert_eq!(m.get(&2), Some(&(160, 10, 200, 50)));
    // Inside the edge's own source box counts only strictly inside.
    assert!(!data_edge_routing::is_in_obstacle_ignore_self(10, 30, 0, 1, &m));
    assert!(data_edge_routing::is_in_obstacle_ignore_self(50, 30, 0, 1, &m));
    // Another node blocks within its margin.
    assert!(data_edge_routing::is_in_obstacle_ignore_self(156, 30, 0, 1, &m));
    assert!(!data_edge_routing::is_in_obstacle_ignore_self(154, 30, 0, 1, &m));
}

#[test]
fn shortest_connection_is_the_first_of_the_shortest() {
    let pts = vec![((0, 0), (10, 10)), ((0, 0), (5, 5)), ((1, 1), (6, 6)), ((0, 0), (2, 20))];
    assert_eq!(data_edge_routing::find_shortest_path(&pts), ((0, 0), (5, 5)));
    assert_eq!(data_edge_routing::find_shortest_path(&vec![]), ((0, 0), (0, 0)));
}

#[test]
fn candidate_end_points_of_two_boxes() {
    let mut g = Graph {
        nodes: Vec::new(),
        edges: Vec::new(),
        pools: Vec::new(),
        data_elements: Vec::new(),
        config: Config::default(),
        num_layers: 0,
        pe_bpmd_definitions: Vec::new(),
    };
    let tc = TokenCoordinate { source_file_idx: 0, start: 0, end: 0 };
    let p = g.add_pool(None, tc);
    let l = g.pools[0].add_lane(None, tc);
    let t = NodeType::RealNode {
        event: BpmnNode::Activity(ActivityType::Task(TaskType::Plain), ActivityMarker::default()),
        display_text: "A".to_string(),
        tc,
        transported_data: vec![],
        pe_bpmd_hides_protection_operations: false,
    };
    let a = g.add_node(t.clone(), PoolAndLane { pool: p, lane: l }, None);
    let b = g.add_node(t, PoolAndLane { pool: p, lane: l }, None);
    g.nodes[a.0].x = 0;
    g.nodes[a.0].y = 0;
    g.nodes[a.0].width = 100;
    g.nodes[a.0].height = 80;
    g.nodes[b.0].x = 200;
    g.nodes[b.0].y = 0;
    g.nodes[b.0].width = 100;
    g.nodes[b.0].height = 80;
    let mut s = Vec::new();
    let mut e = Vec::new();
    data_edge_routing::find_start_and_end_points(&g.nodes[a.0], &g.nodes[b.0], &mut s, &mut e);
    assert_eq!(s.len(), 12);
    assert_eq!(e.len(), 10);
    assert_eq!(s[0], (0, 40));
    assert_eq!(s[5], (100, 60));
    assert_eq!(e[0], (200, 20));
    assert_eq!(e[9], (275, 80));
}

#[test]
fn lane_crossings_reported_once_with_upper_end_on_top() {
    let mut g = Graph {
        nodes: Vec::new(),
        edges: Vec::new(),
        pools: Vec::new(),
        data_elements: Vec::new(),
        config: Config::default(),
        num_layers: 0,
        pe_bpmd_definitions: Vec::new(),
    };
    let tc = |n: usize| TokenCoordinate { source_file_idx: 0, start: n, end: n };
    let p = g.add_pool(None, tc(0));
    let l0 = g.pools[0].add_lane(Some("a".to_string()), tc(0));
    let l1 = g.pools[0].add_lane(Some("b".to_string()), tc(0));
    let t = |n: usize| NodeType::RealNode {
        event: BpmnNode::Activity(ActivityType::Task(TaskType::Plain), ActivityMarker::default()),
        display_text: "T".to_string(),
        tc: tc(n),
        transported_data: vec![],
        pe_bpmd_hides_protection_operations: false,
    };
    let upper = g.add_node(t(1), PoolAndLane { pool: p, lane: l0 }, None);
    let lower = g.add_node(t(2), PoolAndLane { pool: p, lane: l1 }, None);
    let e = g.add_edge(lower, upper, EdgeType::Regular { text: None, bend_points: RegularEdgeBendPoints::ToBeDetermined }, FlowType::SequenceFlow, None);
    assert_eq!(g.nodes[upper.0].incoming, vec![e]);
    let mut cluster = VecSet::new();
    cluster.insert(upper);
    cluster.insert(lower);
    let cs = same_layer_lane_crossings_within_cluster(&g, &cluster);
    assert_eq!(cs.len(), 1);
    assert_eq!(cs[0].top_node_id, upper);
    assert_eq!(cs[0].bot_node_id, lower);
    assert_eq!(cs[0].top_tc, tc(1));
    assert_eq!(cs[0].bot_tc, tc(2));
    assert!(!cs[0].less_than(&cs[0]));
}
