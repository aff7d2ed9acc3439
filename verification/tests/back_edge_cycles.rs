use bpmd::back_edges::{analyse_cycle, back_edge_removal, iterate_all_cycles, BackEdgeChoice, PathSegment, SegmentKind};
use bpmd::bpmn_node::{ActivityMarker, ActivityType, BpmnNode, TaskType};
use bpmd::config::Config;
use bpmd::crossing_common::{
    remove_temporarily_added_dummy_nodes_for_edges_within_same_layer, reroute_vertical_edge,
    temporarily_add_dummy_nodes_for_edges_within_same_layer,
};
use bpmd::constraint::{LayoutConstraints, LeftOf, SameLayer};
use bpmd::graph::{EdgeType, FlowType, Graph, NodeType, RegularEdgeBendPoints};
use bpmd::ids::{EdgeId, LaneId, LayerId, NodeId, PoolAndLane, PoolId, TokenCoordinate};

fn tc(n: usize) -> TokenCoordinate {
    TokenCoordinate { source_file_idx: 0, start: n, end: n + 1 }
}

fn task(n: usize) -> NodeType {
    NodeType::RealNode {
        event: BpmnNode::Activity(ActivityType::Task(TaskType::Plain), ActivityMarker::default()),
        display_text: format!("t{n}"),
        tc: tc(n),
        transported_data: vec![],
        pe_bpmd_hides_protection_operations: false,
    }
}

fn graph_with(n: usize, flows: &[(usize, usize)]) -> (Graph, Vec<EdgeId>) {
    let mut g = Graph {
        nodes: Vec::new(),
        edges: Vec::new(),
        pools: Vec::new(),
        data_elements: Vec::new(),
        config: Config::default(),
        num_layers: 1,
        pe_bpmd_definitions: Vec::new(),
    };
    g.add_pool(None, tc(0));
    g.pools[0].add_lane(None, tc(0));
    let pl = PoolAndLane { pool: PoolId(0), lane: LaneId(0) };
    for i in 0..n {
        g.add_node(task(i), pl, Some(LayerId(0)));
    }
    let mut edges = Vec::new();
    for &(from, to) in flows {
        edges.push(g.add_edge(NodeId(from), NodeId(to),
            EdgeType::Regular { text: None, bend_points: RegularEdgeBendPoints::ToBeDetermined }, FlowType::SequenceFlow, None));
    }
    (g, edges)
}

fn kinds(cycle: &[PathSegment]) -> Vec<(usize, usize)> {
    cycle.iter().map(|s| (s.from.0, s.to.0)).collect()
}

#[test]
fn a_loop_back_to_an_earlier_task_is_a_back_edge() {
    // start 0 -> 1 -> 2 -> 1
    let (g, e) = graph_with(3, &[(0, 1), (1, 2), (2, 1)]);
    let lc = LayoutConstraints::new();
    let cycles = iterate_all_cycles(&g, &lc);
    assert_eq!(cycles.len(), 1);
    assert_eq!(kinds(&cycles[0]), vec![(1, 2), (2, 1)]);
    match back_edge_removal(&g, &lc) {
        Ok(BackEdgeChoice::Chosen(v)) => assert_eq!(v, vec![e[2]]),
        _ => panic!("expected chosen back edges"),
    }
}

#[test]
fn a_graph_without_a_start_node_is_not_walked() {
    let (g, _) = graph_with(2, &[(0, 1), (1, 0)]);
    let lc = LayoutConstraints::new();
    assert!(iterate_all_cycles(&g, &lc).is_empty());
}

#[test]
fn a_cycle_with_two_back_edges_asks_for_a_minimum_cover() {
    // start 0 -> 1 -> 2 -> 3 as sequence flows, 3 left of 1, and 2 in the layer of 1.
    let (g, e) = graph_with(4, &[(0, 1), (1, 2), (2, 3)]);
    let mut lc = LayoutConstraints::new();
    lc.left_of.push(LeftOf { left: NodeId(3), right: NodeId(1) });
    lc.same_layer.push(SameLayer(NodeId(2), NodeId(1)));
    let cycles = iterate_all_cycles(&g, &lc);
    assert_eq!(cycles.len(), 4);
    assert_eq!(kinds(&cycles[0]), vec![(1, 2), (2, 3), (3, 1)]);
    assert_eq!(kinds(&cycles[1]), vec![(1, 2), (2, 1)]);
    match back_edge_removal(&g, &lc) {
        Ok(BackEdgeChoice::MinimumCover(groups)) => {
            assert_eq!(groups, vec![vec![e[1], e[2]], vec![e[1]], vec![e[2]], vec![]]);
        },
        _ => panic!("expected groups for a minimum cover"),
    }
}

#[test]
fn the_back_edge_of_a_cycle_is_its_last_sequence_flow() {
    let cycle = vec![
        PathSegment { kind: SegmentKind::SequenceFlow(EdgeId(4)), from: NodeId(0), to: NodeId(1) },
        PathSegment { kind: SegmentKind::SequenceFlow(EdgeId(7)), from: NodeId(1), to: NodeId(2) },
        PathSegment { kind: SegmentKind::SameLayerConstraint, from: NodeId(2), to: NodeId(0) },
    ];
    assert_eq!(analyse_cycle(&cycle), Ok(Some(EdgeId(7))));
    let same_layer_only = vec![
        PathSegment { kind: SegmentKind::SameLayerConstraint, from: NodeId(0), to: NodeId(1) },
        PathSegment { kind: SegmentKind::SameLayerConstraint, from: NodeId(1), to: NodeId(0) },
    ];
    assert_eq!(analyse_cycle(&same_layer_only), Ok(None));
}

#[test]
fn rerouting_to_the_right_ends_the_edge_at_the_intermediate_node() {
    let (mut g, e) = graph_with(3, &[(0, 1)]);
    reroute_vertical_edge(&mut g, e[0], None, Some(NodeId(2)));
    assert_eq!((g.edges[0].from, g.edges[0].to), (NodeId(0), NodeId(2)));
    assert_eq!((g.edges[1].from, g.edges[1].to), (NodeId(1), NodeId(2)));
    assert!(matches!(g.edges[1].edge_type, EdgeType::DummyEdge { original_edge: EdgeId(0), .. }));
    assert!(g.nodes[1].incoming.is_empty());
    assert_eq!(g.nodes[1].outgoing, vec![EdgeId(1)]);
    assert_eq!(g.nodes[2].incoming, vec![EdgeId(0), EdgeId(1)]);
}

#[test]
fn rerouting_to_the_left_starts_the_edge_at_the_intermediate_node() {
    let (mut g, e) = graph_with(3, &[(0, 1)]);
    reroute_vertical_edge(&mut g, e[0], Some(NodeId(2)), None);
    assert_eq!((g.edges[0].from, g.edges[0].to), (NodeId(2), NodeId(1)));
    assert_eq!((g.edges[1].from, g.edges[1].to), (NodeId(2), NodeId(0)));
    assert!(g.nodes[0].outgoing.is_empty());
    assert_eq!(g.nodes[0].incoming, vec![EdgeId(1)]);
    assert_eq!(g.nodes[2].outgoing, vec![EdgeId(0), EdgeId(1)]);
}

#[test]
fn shifting_the_layers_right_and_back_restores_them() {
    let (mut g, _) = graph_with(2, &[(0, 1)]);
    g.nodes[1].layer_id = LayerId(3);
    let undo = temporarily_add_dummy_nodes_for_edges_within_same_layer(&mut g);
    assert_eq!(undo.original_num_nodes, 2);
    assert_eq!((g.nodes[0].layer_id.0, g.nodes[1].layer_id.0), (1, 4));
    remove_temporarily_added_dummy_nodes_for_edges_within_same_layer(&mut g, undo);
    assert_eq!((g.nodes[0].layer_id.0, g.nodes[1].layer_id.0), (0, 3));
}
