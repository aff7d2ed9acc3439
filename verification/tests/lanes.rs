use bpmd::bpmn_node::{ActivityMarker, ActivityType, BpmnNode, GatewayType, TaskType};
use bpmd::config::Config;
use bpmd::graph::{EdgeType, FlowType, Graph, MessageFlowAux, NodeType, RegularEdgeBendPoints, SemanticDataElement};
use bpmd::ids::{LaneId, LayerId, NodeId, PoolAndLane, TokenCoordinate};
use bpmd::lane_neighbours::Place;
use bpmd::validate_graph_correctness::{validate_invariants, MSG_CANNOT_CATCH, MSG_INVARIANT_CANNOT_SEND};

fn tc(n: usize) -> TokenCoordinate {
    TokenCoordinate { source_file_idx: 0, start: n, end: n + 1 }
}

fn empty_graph() -> Graph {
    Graph {
        nodes: Vec::new(),
        edges: Vec::new(),
        pools: Vec::new(),
        data_elements: Vec::new(),
        config: Config::default(),
        num_layers: 0,
        pe_bpmd_definitions: Vec::new(),
    }
}

fn node(event: BpmnNode, n: usize) -> NodeType {
    NodeType::RealNode {
        event,
        display_text: format!("n{n}"),
        tc: tc(n),
        transported_data: vec![],
        pe_bpmd_hides_protection_operations: false,
    }
}

fn task(n: usize) -> NodeType {
    node(BpmnNode::Activity(ActivityType::Task(TaskType::Plain), ActivityMarker::default()), n)
}

/// One pool with three lanes; lane 0 has `a` above `b` in layer 1, lane 2 has `c` in layer 1.
fn three_lanes() -> (Graph, NodeId, NodeId, NodeId) {
    let mut g = empty_graph();
    let p = g.add_pool(None, tc(0));
    for _ in 0..3 {
        g.pools[0].add_lane(None, tc(0));
    }
    let a = g.add_node(task(1), PoolAndLane { pool: p, lane: LaneId(0) }, Some(LayerId(1)));
    let b = g.add_node(task(2), PoolAndLane { pool: p, lane: LaneId(0) }, Some(LayerId(1)));
    let c = g.add_node(task(3), PoolAndLane { pool: p, lane: LaneId(2) }, Some(LayerId(1)));
    g.adjust_above_and_below_for_new_inbetween(b, Place::Below(a));
    (g, a, b, c)
}

#[test]
fn linking_a_node_below_another() {
    let (g, a, b, _) = three_lanes();
    assert_eq!(g.nodes[a.0].node_below_in_same_lane, Some(b));
    assert_eq!(g.nodes[b.0].node_above_in_same_lane, Some(a));
    assert_eq!(g.nodes[a.0].node_above_in_same_lane, None);
    assert_eq!(g.nodes[b.0].node_below_in_same_lane, None);
}

#[test]
fn linking_a_node_between_two() {
    let (mut g, a, b, _) = three_lanes();
    let m = g.add_node(task(4), PoolAndLane { pool: g.nodes[a.0].pool, lane: LaneId(0) }, Some(LayerId(1)));
    g.adjust_above_and_below_for_new_inbetween(m, Place::Above(b));
    assert_eq!(g.nodes[a.0].node_below_in_same_lane, Some(m));
    assert_eq!(g.nodes[m.0].node_above_in_same_lane, Some(a));
    assert_eq!(g.nodes[m.0].node_below_in_same_lane, Some(b));
    assert_eq!(g.nodes[b.0].node_above_in_same_lane, Some(m));
}

#[test]
fn top_and_bottom_nodes_of_a_lane() {
    let (g, a, b, c) = three_lanes();
    let lane0 = PoolAndLane { pool: g.nodes[a.0].pool, lane: LaneId(0) };
    assert_eq!(g.get_top_node(lane0, LayerId(1)), Some(a));
    assert_eq!(g.get_bottom_node(lane0, LayerId(1)), Some(b));
    assert_eq!(g.get_top_node(lane0, LayerId(0)), None);
    assert_eq!(g.get_bottom_node(lane0, LayerId(2)), None);
    let lane2 = PoolAndLane { pool: g.nodes[c.0].pool, lane: LaneId(2) };
    assert_eq!(g.get_top_node(lane2, LayerId(1)), Some(c));
}

#[test]
fn next_lanes_up_and_down_skip_empty_lanes() {
    let (g, _, b, c) = three_lanes();
    let pool = g.nodes[b.0].pool;
    let lane0 = PoolAndLane { pool, lane: LaneId(0) };
    let lane2 = PoolAndLane { pool, lane: LaneId(2) };
    assert_eq!(g.get_nextup_higher_node_same_pool(lane2, lane0, LayerId(1)), Some((lane0, b)));
    assert_eq!(g.get_next_lower_node_same_pool(lane0, lane2, LayerId(1)), Some((lane2, c)));
    assert_eq!(g.get_nextup_higher_node_same_pool(lane0, lane0, LayerId(1)), None);
    assert_eq!(g.get_next_lower_node_same_pool(lane2, lane2, LayerId(1)), None);
}

#[test]
fn lanes_are_sorted_by_layer() {
    let mut g = empty_graph();
    let p = g.add_pool(None, tc(0));
    let l = g.pools[0].add_lane(None, tc(0));
    let pl = PoolAndLane { pool: p, lane: l };
    let x = g.add_node(task(1), pl, None);
    let y = g.add_node(task(2), pl, None);
    let z = g.add_node(task(3), pl, None);
    g.nodes[x.0].layer_id = LayerId(5);
    g.nodes[y.0].layer_id = LayerId(1);
    g.nodes[z.0].layer_id = LayerId(3);
    g.sort_lanes_by_layer();
    assert_eq!(g.pools[0].lanes[0].nodes, vec![y, z, x]);
}

#[test]
fn data_element_span() {
    let mut g = empty_graph();
    let p = g.add_pool(None, tc(0));
    let l = g.pools[0].add_lane(None, tc(0));
    let pl = PoolAndLane { pool: p, lane: l };
    let a = g.add_node(task(10), pl, None);
    let b = g.add_node(task(20), pl, None);
    let sde = SemanticDataElement { name: "d".to_string(), data_element: vec![a, b] };
    assert_eq!(sde.tc(&g), TokenCoordinate { source_file_idx: 0, start: 10, end: 21 });
}

#[test]
fn invariants_report_every_bad_message_flow_end() {
    let mut g = empty_graph();
    let p = g.add_pool(None, tc(0));
    let l = g.pools[0].add_lane(None, tc(0));
    let pl = PoolAndLane { pool: p, lane: l };
    let gw = g.add_node(node(BpmnNode::Gateway(GatewayType::Parallel), 1), pl, None);
    let other = g.add_node(node(BpmnNode::Gateway(GatewayType::Inclusive), 2), pl, None);
    let t = g.add_node(task(3), pl, None);
    let mf = |g: &mut Graph, a: NodeId, b: NodeId| {
        g.add_edge(a, b, EdgeType::Regular { text: None, bend_points: RegularEdgeBendPoints::ToBeDetermined },
            FlowType::MessageFlow(MessageFlowAux { transported_data: vec![], tc: tc(0) }), None)
    };
    mf(&mut g, gw, other);
    mf(&mut g, t, t);
    let e = validate_invariants(&g).unwrap_err();
    let got: Vec<(&str, TokenCoordinate)> = e.iter().map(|(m, t)| (m.as_str(), *t)).collect();
    assert_eq!(got, vec![(MSG_INVARIANT_CANNOT_SEND, tc(1)), (MSG_CANNOT_CATCH, tc(2))]);
    let mut ok = empty_graph();
    ok.add_pool(None, tc(0));
    assert_eq!(validate_invariants(&ok), Ok(()));
}
