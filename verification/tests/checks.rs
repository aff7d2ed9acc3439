use bpmd::bpmn_node::{ActivityMarker, ActivityType, BpmnNode, EventType, EventVisual, GatewayType, InterruptKind, TaskType};
use bpmd::config::Config;
use bpmd::graph::{EdgeType, FlowType, Graph, MessageFlowAux, NodeType, RegularEdgeBendPoints};
use bpmd::ids::{EdgeId, LayerId, NodeId, PoolAndLane, PoolId, TokenCoordinate};
use bpmd::sort_incoming_and_outgoing::sort_incoming_and_outgoing;
use bpmd::validate_graph_correctness::{
    validate_graph_correctness, MSG_BRANCH, MSG_BRANCH_TO, MSG_CANNOT_SEND, MSG_GATEWAY_CLUSTER, MSG_GATEWAY_CLUSTER_NODE,
    MSG_GATEWAY_NO_IN, MSG_SELF_EDGE, MSG_SPAN, MSG_SPAN_BOT, MSG_SPAN_TOP,
};
use bpmd::vecset::VecSet;
use bpmd::constraint::{compute_same_layer_clusters, Above, LayoutConstraints, SameLayer};

fn tc(n: usize) -> TokenCoordinate {
    TokenCoordinate { source_file_idx: 0, start: n, end: n + 1 }
}

fn empty_graph() -> Graph {
    Graph {
        nodes: Vec::new(),
        edges: Vec::new(),
        pools: Vec::new(),
        data_elements: Vec::new(),
        config: Config::default(),
        num_layers: 0,
        pe_bpmd_definitions: Vec::new(),
    }
}

fn real_node(event: BpmnNode, n: usize) -> NodeType {
    NodeType::RealNode {
        event,
        display_text: format!("n{n}"),
        tc: tc(n),
        transported_data: vec![],
        pe_bpmd_hides_protection_operations: false,
    }
}

fn task(n: usize) -> NodeType {
    real_node(BpmnNode::Activity(ActivityType::Task(TaskType::Plain), ActivityMarker::default()), n)
}

fn gateway(n: usize) -> NodeType {
    real_node(BpmnNode::Gateway(GatewayType::Exclusive), n)
}

fn sf(g: &mut Graph, from: NodeId, to: NodeId) -> EdgeId {
    g.add_edge(from, to, EdgeType::Regular { text: None, bend_points: RegularEdgeBendPoints::ToBeDetermined },
        FlowType::SequenceFlow, None)
}

fn mf(g: &mut Graph, from: NodeId, to: NodeId) -> EdgeId {
    g.add_edge(from, to, EdgeType::Regular { text: None, bend_points: RegularEdgeBendPoints::ToBeDetermined },
        FlowType::MessageFlow(MessageFlowAux { transported_data: vec![], tc: tc(99) }), None)
}

fn with_cluster(cluster: VecSet<NodeId>) -> LayoutConstraints {
    let mut lc = LayoutConstraints::new();
    lc.same_layer_clusters.push(cluster);
    lc
}

fn msgs(e: &[(String, TokenCoordinate)]) -> Vec<(&str, TokenCoordinate)> {
    e.iter().map(|(m, t)| (m.as_str(), *t)).collect()
}

#[test]
fn incoming_edges_are_ordered_by_the_position_of_their_sources() {
    let mut g = empty_graph();
    let p0 = g.add_pool(None, tc(0));
    let l0 = g.pools[0].add_lane(None, tc(0));
    let p1 = g.add_pool(None, tc(0));
    let l1 = g.pools[1].add_lane(None, tc(0));
    let top = PoolAndLane { pool: p0, lane: l0 };
    let bottom = PoolAndLane { pool: p1, lane: l1 };
    let a = g.add_node(task(1), top, Some(LayerId(0)));
    let b = g.add_node(task(2), top, Some(LayerId(0)));
    let x = g.add_node(task(3), top, Some(LayerId(1)));
    let m = g.add_node(task(4), bottom, Some(LayerId(2)));
    // `b` lies below `a`.
    g.nodes[b.0].node_above_in_same_lane = Some(a);
    g.nodes[a.0].node_below_in_same_lane = Some(b);
    let from_m = mf(&mut g, m, x);
    let from_b = sf(&mut g, b, x);
    let from_a = sf(&mut g, a, x);
    assert_eq!(g.nodes[x.0].incoming, vec![from_m, from_b, from_a]);
    sort_incoming_and_outgoing(&mut g);
    // Flows from the layer before come first, upper source first; the message flow from the pool
    // below and from a later layer comes last.
    assert_eq!(g.nodes[x.0].incoming, vec![from_a, from_b, from_m]);
    assert_eq!(g.nodes[a.0].outgoing, vec![from_a]);
}

#[test]
fn outgoing_edges_go_to_upper_pools_before_the_next_layer() {
    let mut g = empty_graph();
    let p0 = g.add_pool(None, tc(0));
    let l0 = g.pools[0].add_lane(None, tc(0));
    let p1 = g.add_pool(None, tc(0));
    let l1 = g.pools[1].add_lane(None, tc(0));
    let upper = PoolAndLane { pool: p0, lane: l0 };
    let lower = PoolAndLane { pool: p1, lane: l1 };
    let s = g.add_node(task(1), lower, Some(LayerId(3)));
    let next = g.add_node(task(2), lower, Some(LayerId(4)));
    let up = g.add_node(task(3), upper, Some(LayerId(5)));
    let to_next = sf(&mut g, s, next);
    let to_up = mf(&mut g, s, up);
    sort_incoming_and_outgoing(&mut g);
    assert_eq!(g.nodes[s.0].outgoing, vec![to_up, to_next]);
    assert_eq!(g.nodes[next.0].incoming, vec![to_next]);
}

#[test]
fn a_valid_graph_passes() {
    let mut g = empty_graph();
    let p = g.add_pool(None, tc(0));
    let l = g.pools[0].add_lane(None, tc(0));
    let pl = PoolAndLane { pool: p, lane: l };
    let a = g.add_node(task(1), pl, None);
    let gw = g.add_node(gateway(2), pl, None);
    let b = g.add_node(task(3), pl, None);
    let c = g.add_node(task(4), pl, None);
    sf(&mut g, a, gw);
    sf(&mut g, gw, b);
    sf(&mut g, gw, c);
    assert_eq!(validate_graph_correctness(&g, &LayoutConstraints::new()), Ok(()));
}

#[test]
fn a_gateway_cannot_send_messages() {
    let mut g = empty_graph();
    let p = g.add_pool(None, tc(0));
    let l = g.pools[0].add_lane(None, tc(0));
    let pl = PoolAndLane { pool: p, lane: l };
    let a = g.add_node(task(1), pl, None);
    let gw = g.add_node(gateway(2), pl, None);
    let b = g.add_node(task(3), pl, None);
    sf(&mut g, a, gw);
    sf(&mut g, gw, b);
    mf(&mut g, gw, a);
    let e = validate_graph_correctness(&g, &LayoutConstraints::new()).unwrap_err();
    assert_eq!(msgs(&e), vec![(MSG_CANNOT_SEND, tc(2))]);
}

#[test]
fn a_message_throw_event_can_send() {
    let mut g = empty_graph();
    let p = g.add_pool(None, tc(0));
    let l = g.pools[0].add_lane(None, tc(0));
    let pl = PoolAndLane { pool: p, lane: l };
    let throw = g.add_node(real_node(BpmnNode::Event(EventType::Message, EventVisual::Throw), 1), pl, None);
    let catch = g.add_node(real_node(BpmnNode::Event(EventType::Message, EventVisual::Catch(InterruptKind::Interrupting)), 2), pl, None);
    mf(&mut g, throw, catch);
    assert_eq!(validate_graph_correctness(&g, &LayoutConstraints::new()), Ok(()));
}

#[test]
fn self_edges_are_reported() {
    let mut g = empty_graph();
    let p = g.add_pool(None, tc(0));
    let l = g.pools[0].add_lane(None, tc(0));
    let a = g.add_node(task(7), PoolAndLane { pool: p, lane: l }, None);
    sf(&mut g, a, a);
    let e = validate_graph_correctness(&g, &LayoutConstraints::new()).unwrap_err();
    assert_eq!(msgs(&e), vec![(MSG_SELF_EDGE, tc(7))]);
}

#[test]
fn a_gateway_without_incoming_flow_is_reported() {
    let mut g = empty_graph();
    let p = g.add_pool(None, tc(0));
    let l = g.pools[0].add_lane(None, tc(0));
    let pl = PoolAndLane { pool: p, lane: l };
    let gw = g.add_node(gateway(5), pl, None);
    let b = g.add_node(task(6), pl, None);
    sf(&mut g, gw, b);
    let e = validate_graph_correctness(&g, &LayoutConstraints::new()).unwrap_err();
    assert_eq!(msgs(&e), vec![(MSG_GATEWAY_NO_IN, tc(5))]);
}

#[test]
fn a_task_that_branches_is_reported_with_its_targets() {
    let mut g = empty_graph();
    let p = g.add_pool(None, tc(0));
    let l = g.pools[0].add_lane(None, tc(0));
    let pl = PoolAndLane { pool: p, lane: l };
    let a = g.add_node(task(1), pl, None);
    let b = g.add_node(task(2), pl, None);
    let c = g.add_node(task(3), pl, None);
    sf(&mut g, a, b);
    sf(&mut g, a, c);
    let e = validate_graph_correctness(&g, &LayoutConstraints::new()).unwrap_err();
    assert_eq!(msgs(&e), vec![(MSG_BRANCH, tc(1)), (MSG_BRANCH_TO, tc(2)), (MSG_BRANCH_TO, tc(3))]);
}

#[test]
fn a_gateway_in_a_cluster_with_three_neighbours_is_reported() {
    let mut g = empty_graph();
    let p = g.add_pool(None, tc(0));
    let l = g.pools[0].add_lane(None, tc(0));
    let pl = PoolAndLane { pool: p, lane: l };
    let a = g.add_node(task(1), pl, None);
    let gw = g.add_node(gateway(2), pl, None);
    let b = g.add_node(task(3), pl, None);
    let c = g.add_node(task(4), pl, None);
    sf(&mut g, a, gw);
    sf(&mut g, gw, b);
    sf(&mut g, gw, c);
    let mut cluster = VecSet::new();
    for n in [gw, a, b, c] {
        cluster.insert(n);
    }
    let e = validate_graph_correctness(&g, &with_cluster(cluster)).unwrap_err();
    assert_eq!(
        msgs(&e),
        vec![
            (MSG_GATEWAY_CLUSTER, tc(2)),
            (MSG_GATEWAY_CLUSTER_NODE, tc(1)),
            (MSG_GATEWAY_CLUSTER_NODE, tc(3)),
            (MSG_GATEWAY_CLUSTER_NODE, tc(4)),
        ]
    );
}

#[test]
fn a_node_inside_a_spanned_lane_is_reported() {
    let mut g = empty_graph();
    let p = g.add_pool(None, tc(0));
    let l0 = g.pools[0].add_lane(None, tc(0));
    let l1 = g.pools[0].add_lane(None, tc(0));
    let l2 = g.pools[0].add_lane(None, tc(0));
    let top = g.add_node(task(1), PoolAndLane { pool: p, lane: l0 }, None);
    let middle = g.add_node(task(2), PoolAndLane { pool: p, lane: l1 }, None);
    let bottom = g.add_node(task(3), PoolAndLane { pool: p, lane: l2 }, None);
    sf(&mut g, top, bottom);
    let mut cluster = VecSet::new();
    for n in [top, middle, bottom] {
        cluster.insert(n);
    }
    let e = validate_graph_correctness(&g, &with_cluster(cluster)).unwrap_err();
    assert_eq!(msgs(&e), vec![(MSG_SPAN, tc(2)), (MSG_SPAN_TOP, tc(1)), (MSG_SPAN_BOT, tc(3))]);
    assert_eq!(g.pools.len(), 1);
    assert_eq!(PoolId(0), p);
}

#[test]
fn same_layer_clusters_merge_when_a_pair_links_them() {
    let mut lc = LayoutConstraints::new();
    lc.above.push(Above { above: NodeId(1), below: NodeId(2) });
    lc.same_layer.push(SameLayer(NodeId(3), NodeId(4)));
    lc.same_layer.push(SameLayer(NodeId(2), NodeId(3)));
    compute_same_layer_clusters(&mut lc);
    assert_eq!(lc.same_layer_clusters.len(), 1);
    assert_eq!(lc.same_layer_clusters[0].iter(), &[NodeId(1), NodeId(2), NodeId(3), NodeId(4)][..]);
}

#[test]
fn same_layer_clusters_stay_apart_without_a_link() {
    let mut lc = LayoutConstraints::new();
    lc.same_layer.push(SameLayer(NodeId(1), NodeId(2)));
    lc.same_layer.push(SameLayer(NodeId(3), NodeId(4)));
    lc.same_layer.push(SameLayer(NodeId(2), NodeId(1)));
    compute_same_layer_clusters(&mut lc);
    assert_eq!(lc.same_layer_clusters.len(), 2);
    assert_eq!(lc.same_layer_clusters[0].iter(), &[NodeId(1), NodeId(2)][..]);
    assert_eq!(lc.same_layer_clusters[1].iter(), &[NodeId(3), NodeId(4)][..]);
}
