use bpmd::bpmn_node::{ActivityMarker, ActivityType, BpmnNode, TaskType};
use bpmd::config::Config;
use bpmd::edge_routing::{Alignment, MessageFlowBendPointStore, MessageFlowBendState};
use bpmd::graph::{EdgeType, FlowType, Graph, MessageFlowAux, NodeType, RegularEdgeBendPoints};
use bpmd::ids::{EdgeId, LaneId, LayerId, NodeId, PoolAndLane, PoolId, RelativePort, TokenCoordinate};
use bpmd::layered_edges::{get_layered_edges, get_layered_mfs};

fn tc(n: usize) -> TokenCoordinate {
    TokenCoordinate { source_file_idx: 0, start: n, end: n + 1 }
}

fn task(n: usize) -> NodeType {
    NodeType::RealNode {
        event: BpmnNode::Activity(ActivityType::Task(TaskType::Plain), ActivityMarker::default()),
        display_text: format!("n{n}"),
        tc: tc(n),
        transported_data: vec![],
        pe_bpmd_hides_protection_operations: false,
    }
}

fn graph_with_two_pools() -> Graph {
    let mut g = Graph {
        nodes: Vec::new(),
        edges: Vec::new(),
        pools: Vec::new(),
        data_elements: Vec::new(),
        config: Config::default(),
        num_layers: 3,
        pe_bpmd_definitions: Vec::new(),
    };
    for _ in 0..2 {
        let p = g.add_pool(None, tc(0));
        g.pools[p.0].add_lane(None, tc(0));
    }
    g.pools[0].y = 0;
    g.pools[0].height = 300;
    g.pools[1].y = 300;
    g.pools[1].height = 300;
    g
}

fn place(g: &mut Graph, pool: usize, layer: usize, x: usize, y: usize) -> NodeId {
    let pl = PoolAndLane { pool: PoolId(pool), lane: LaneId(0) };
    let n = g.add_node(task(g.nodes.len()), pl, Some(LayerId(layer)));
    g.nodes[n.0].x = x;
    g.nodes[n.0].y = y;
    n
}

fn edge(g: &mut Graph, from: NodeId, to: NodeId, out: RelativePort, inc: RelativePort, message: bool) -> EdgeId {
    let flow = if message {
        FlowType::MessageFlow(MessageFlowAux { transported_data: vec![], tc: tc(0) })
    } else {
        FlowType::SequenceFlow
    };
    let e = g.add_edge(from, to, EdgeType::Regular { text: None, bend_points: RegularEdgeBendPoints::ToBeDetermined }, flow, None);
    g.nodes[from.0].outgoing_ports.push(out);
    g.nodes[to.0].incoming_ports.push(inc);
    e
}

#[test]
fn crossing_segments_over_the_same_span_are_paired() {
    let mut g = graph_with_two_pools();
    let a = place(&mut g, 0, 0, 0, 0);
    let b = place(&mut g, 0, 1, 200, 100);
    let c = place(&mut g, 0, 0, 0, 100);
    let d = place(&mut g, 0, 1, 200, 0);
    // a goes down from y 40 to y 140, c goes up from y 140 to y 40: an X.
    let down = edge(&mut g, a, b, RelativePort { x: 100, y: 40 }, RelativePort { x: 0, y: 40 }, false);
    let up = edge(&mut g, c, d, RelativePort { x: 100, y: 40 }, RelativePort { x: 0, y: 40 }, false);
    let (layers, store) = get_layered_edges(&g);
    assert_eq!(layers.len(), 4);
    assert_eq!(store.store.len(), 0);
    let gap = &layers[1];
    assert_eq!(gap.ixi_crossing.len(), 1);
    assert_eq!(gap.ixi_crossing[0].0.id, up);
    assert_eq!(gap.ixi_crossing[0].1.id, down);
    assert!(gap.up_edges.is_empty() && gap.down_edges.is_empty());
    assert!(layers[0].down_edges.is_empty() && layers[2].up_edges.is_empty());
}

#[test]
fn downward_segments_come_in_reverse_order() {
    let mut g = graph_with_two_pools();
    let a = place(&mut g, 0, 0, 0, 0);
    let b = place(&mut g, 0, 1, 200, 100);
    let c = place(&mut g, 0, 0, 0, 100);
    let d = place(&mut g, 0, 1, 200, 200);
    let long = edge(&mut g, a, b, RelativePort { x: 100, y: 10 }, RelativePort { x: 0, y: 40 }, false);
    let short = edge(&mut g, c, d, RelativePort { x: 100, y: 40 }, RelativePort { x: 0, y: 20 }, false);
    let (layers, _) = get_layered_edges(&g);
    let gap = &layers[1];
    // Sorted by lower end: `long` (10..140) before `short` (140..220); downward ones reversed.
    assert_eq!(gap.down_edges.iter().map(|s| s.id).collect::<Vec<_>>(), vec![short, long]);
    assert_eq!(gap.down_edges[1].start_y, 10);
    assert_eq!(gap.down_edges[1].end_y, 140);
}

#[test]
fn message_flow_between_neighbouring_layers_is_one_segment() {
    let mut g = graph_with_two_pools();
    let a = place(&mut g, 0, 0, 0, 0);
    let b = place(&mut g, 1, 1, 200, 300);
    let mf = edge(&mut g, a, b, RelativePort { x: 100, y: 40 }, RelativePort { x: 0, y: 40 }, true);
    let (layers, store) = get_layered_edges(&g);
    assert_eq!(store.store, vec![(mf, MessageFlowBendState::HorVerHor)]);
    let gap = &layers[1];
    assert_eq!(gap.down_message_flows.len(), 1);
    assert_eq!(gap.down_message_flows[0].alignment, Alignment::Right);
    assert_eq!((gap.down_message_flows[0].start_y, gap.down_message_flows[0].end_y), (40, 340));
}

#[test]
fn message_flow_that_bends_between_pools_has_two_segments() {
    let mut g = graph_with_two_pools();
    let a = place(&mut g, 0, 0, 0, 0);
    let b = place(&mut g, 1, 2, 400, 300);
    let mf = edge(&mut g, a, b, RelativePort { x: 100, y: 40 }, RelativePort { x: 0, y: 40 }, true);
    let (layers, store) = get_layered_edges(&g);
    assert_eq!(
        store.store,
        vec![(mf, MessageFlowBendState::HorVerHorVerHor { bends_after_pool: PoolId(0), bend_point_1: None, bend_point_2: None })]
    );
    assert_eq!((layers[1].down_message_flows[0].start_y, layers[1].down_message_flows[0].end_y), (40, 300));
    assert_eq!((layers[2].down_message_flows[0].start_y, layers[2].down_message_flows[0].end_y), (300, 340));
}

#[test]
fn message_flows_between_pools_are_grouped_per_pool() {
    let mut g = graph_with_two_pools();
    let a = place(&mut g, 0, 0, 0, 0);
    let b = place(&mut g, 1, 1, 200, 300);
    let up_a = place(&mut g, 0, 0, 0, 100);
    let up_b = place(&mut g, 1, 1, 200, 400);
    let down = edge(&mut g, a, b, RelativePort { x: 50, y: 80 }, RelativePort { x: 50, y: 0 }, true);
    let up = edge(&mut g, up_b, up_a, RelativePort { x: 50, y: 0 }, RelativePort { x: 50, y: 80 }, true);
    let mut store = MessageFlowBendPointStore::new();
    store.register_edge(down, MessageFlowBendState::VerHorVer { bends_after_pool: PoolId(0), interpool_bendpoint1_x: 50, interpool_bendpoint2_x: 250 });
    store.register_edge(up, MessageFlowBendState::VerHorVer { bends_after_pool: PoolId(0), interpool_bendpoint1_x: 50, interpool_bendpoint2_x: 250 });
    let layers = get_layered_mfs(&g, &store);
    assert_eq!(layers.len(), 2);
    // Both span 50..250 between the pools; the one to the upper pool is turned around, so the two
    // form a crossing pair.
    assert_eq!(layers[0].ixi_crossing.len(), 1);
    assert_eq!(layers[0].ixi_crossing[0].0.id, up);
    assert_eq!(layers[0].ixi_crossing[0].1.id, down);
    assert!(layers[1].ixi_crossing.is_empty() && layers[1].up_edges.is_empty());
}
