//! Checks of a parsed diagram that the layout phases rely on: which nodes may send and receive
//! messages, no self loops, gateways either branch or join, other nodes do neither, and the
//! same-layer clusters of the place constraints do not force impossible lane crossings.
use vstd::prelude::*;
use crate::bpmn_node::{BpmnNode, EventType, EventVisual, ParseError};
use crate::constraint::LayoutConstraints;
use crate::graph::{spec_is_gateway, Graph, Node, NodeType};
use crate::ids::{EdgeId, NodeId, TokenCoordinate};
use crate::lane_crossings::{all_crossings, cluster_ok, crossing_key, key_lt, same_layer_lane_crossings_within_cluster,
    SameLayerLaneCrossing};
use crate::parser::errs;
use crate::vecset::VecSet;

verus! {

broadcast use crate::ids::lemma_nodeid_concrete_eq;

pub const MSG_CANNOT_SEND: &'static str = "This node type cannot send messages. Only message events (M#, M.) or tasks (e.g. .-) can be used as message flow starts. Note that shorthand events (#) are automatically transformed into message events when they are used in a message flow.";
pub const MSG_CANNOT_CATCH: &'static str = "This node type cannot catch messages. Only message events (M#) or tasks (e.g. .-) can be used as message flow ends. Note that shorthand events (#) are automatically transformed into message events when they are used in a message flow.";
pub const MSG_INVARIANT_CANNOT_SEND: &'static str = "This node type cannot send messages. Only message events (M#) or tasks (e.g. .-) can be used as message flow starts. Note that shorthand events (#) are automatically transformed into message events when they are used in a message flow.";
pub const MSG_SELF_EDGE: &'static str = "Self edges are forbidden. There is a self edge on this node";
pub const MSG_GATEWAY_BOTH: &'static str = "This gateway has multiple incoming sequence flows and multiple outgoing sequence flows. This is forbidden, as there must be exactly one incoming sequence flow or exactly one outgoing sequence flow. Split the joining and branching into two separate gateways to keep visuals more idiomatic.";
pub const MSG_GATEWAY_NO_IN: &'static str = "This gateway has no incoming sequence flows. This is forbidden, as there must be at least one incoming sequence flow.";
pub const MSG_GATEWAY_NO_OUT: &'static str = "This gateway has no outgoing sequence flows. This is forbidden, as there must be at least one outgoing sequence flow.";
pub const MSG_JOIN: &'static str = "This node has more than one incoming sequence flow which is forbidden. Use a gateway for joining.";
pub const MSG_JOIN_FROM: &'static str = "One sequence flow comes from here";
pub const MSG_BRANCH: &'static str = "This node has more than one outgoing sequence flow which is forbidden. Use a gateway for branching.";
pub const MSG_BRANCH_TO: &'static str = "One sequence flow goes here";
pub const MSG_GATEWAY_CLUSTER: &'static str = "This gateway is forced on the same layer as more than two of his incoming or outgoing connected nodes. This leads to confusing layouts. Please remove the constraints instead, to let them move to the next layer instead";
pub const MSG_GATEWAY_CLUSTER_NODE: &'static str = "This connected node is forced onto the same layer as the gateway";
pub const MSG_SPAN: &'static str = "Two connected nodes are forced into the same layer, but they span across another lane. This means that the algorithm must push other nodes into other layers. However, this node is forced as well into the same layer (via above or same-layer `place` constraints). Please relax some of the same-layer and/or above constraints.";
pub const MSG_SPAN_TOP: &'static str = "This is the top node of the two connected nodes";
pub const MSG_SPAN_BOT: &'static str = "This is the bottom node of the two connected nodes";
pub const MSG_SAME_CROSSING: &'static str = "Two connected nodes are put into the same layer. However, they cross from one lane to another lane, and in that case no other nodes within the same layer are allowed to do the same lane crossing. But there is another node pair which is forced into the same layer due to `above of` or `same layer` constraints and which does the same lane crossing. Please think through your above and same-layer place constraints again. This is the top node of the first pair:";
pub const MSG_FIRST_BOTTOM: &'static str = "This is the bottom node of the first pair:";
pub const MSG_SECOND_TOP: &'static str = "This the top node of the second pair:";
pub const MSG_SECOND_BOTTOM: &'static str = "This the bottom node of the second pair:";

/// A diagnostic as values: its messages with their locations.
pub type Diag = Seq<(Seq<char>, TokenCoordinate)>;

/// The source location of a node (of a real node; the others have none).
pub open spec fn tc_of(n: Node) -> TokenCoordinate {
    match n.node_type {
        NodeType::RealNode { tc, .. } => tc,
        _ => TokenCoordinate { source_file_idx: 0, start: 0, end: 0 },
    }
}

/// A node that may start a message flow: a message throw or end event, or an activity. Nodes
/// that are not real nodes are not checked.
pub open spec fn can_send(t: NodeType) -> bool {
    match t {
        NodeType::RealNode { event, .. } => match event {
            BpmnNode::Event(EventType::Message, EventVisual::Throw) => true,
            BpmnNode::Event(EventType::Message, EventVisual::End) => true,
            BpmnNode::Activity(_, _) => true,
            _ => false,
        },
        _ => true,
    }
}

/// A node that may end a message flow: a message start or catch event, any blank event, or an
/// activity. Nodes that are not real nodes are not checked.
pub open spec fn can_catch(t: NodeType) -> bool {
    match t {
        NodeType::RealNode { event, .. } => match event {
            BpmnNode::Event(EventType::Message, EventVisual::Start(_)) => true,
            BpmnNode::Event(EventType::Message, EventVisual::Catch(_)) => true,
            BpmnNode::Event(EventType::Blank, _) => true,
            BpmnNode::Activity(_, _) => true,
            _ => false,
        },
        _ => true,
    }
}

pub open spec fn single(msg: Seq<char>, tc: TokenCoordinate) -> Diag {
    seq![(msg, tc)]
}

/// The diagnostics about the ends of the message flows among the first `n` edges.
pub open spec fn message_flow_errors(g: Graph, n: int) -> Seq<Diag>
    decreases n,
{
    if n <= 0 {
        Seq::empty()
    } else {
        let e = g.edges@[n - 1];
        message_flow_errors(g, n - 1) + if e.flow_type is MessageFlow {
            (if can_send(g.nodes@[e.from.0 as int].node_type) { Seq::empty() } else {
                seq![single(MSG_CANNOT_SEND@, tc_of(g.nodes@[e.from.0 as int]))]
            }) + (if can_catch(g.nodes@[e.to.0 as int].node_type) { Seq::empty() } else {
                seq![single(MSG_CANNOT_CATCH@, tc_of(g.nodes@[e.to.0 as int]))]
            })
        } else {
            Seq::empty()
        }
    }
}

/// The diagnostics about self loops among the first `n` edges.
pub open spec fn self_loop_errors(g: Graph, n: int) -> Seq<Diag>
    decreases n,
{
    if n <= 0 {
        Seq::empty()
    } else {
        let e = g.edges@[n - 1];
        self_loop_errors(g, n - 1) + if e.from == e.to {
            seq![single(MSG_SELF_EDGE@, tc_of(g.nodes@[e.from.0 as int]))]
        } else {
            Seq::empty()
        }
    }
}

/// The sequence flows among `ids`.
pub open spec fn sequence_flows(g: Graph, ids: Seq<EdgeId>) -> Seq<EdgeId> {
    ids.filter(|e: EdgeId| g.edges@[e.0 as int].flow_type is SequenceFlow)
}

/// The diagnostics about the sequence flows of gateway `n`.
pub open spec fn gateway_errors_at(g: Graph, n: Node) -> Seq<Diag> {
    if spec_is_gateway(n.node_type) {
        let ins = sequence_flows(g, n.incoming@).len();
        let outs = sequence_flows(g, n.outgoing@).len();
        (if ins > 1 && outs > 1 { seq![single(MSG_GATEWAY_BOTH@, tc_of(n))] } else { Seq::empty() })
            + (if ins == 0 { seq![single(MSG_GATEWAY_NO_IN@, tc_of(n))] } else { Seq::empty() })
            + (if outs == 0 { seq![single(MSG_GATEWAY_NO_OUT@, tc_of(n))] } else { Seq::empty() })
    } else {
        Seq::empty()
    }
}

/// Node-wise diagnostics over the first `n` nodes.
pub open spec fn gateway_errors(g: Graph, n: int) -> Seq<Diag>
    decreases n,
{
    if n <= 0 {
        Seq::empty()
    } else {
        gateway_errors(g, n - 1) + gateway_errors_at(g, g.nodes@[n - 1])
    }
}

/// Sequence flows that do not leave from a boundary event.
pub open spec fn plain_flows(g: Graph, ids: Seq<EdgeId>) -> Seq<EdgeId> {
    ids.filter(|e: EdgeId| g.edges@[e.0 as int].flow_type is SequenceFlow && g.edges@[e.0 as int].attached_to_boundary_event is None)
}

/// The diagnostics about a node (not a gateway) that joins or branches sequence flows.
pub open spec fn branching_errors_at(g: Graph, n: Node) -> Seq<Diag> {
    if spec_is_gateway(n.node_type) {
        Seq::empty()
    } else {
        let ins = plain_flows(g, n.incoming@);
        let outs = plain_flows(g, n.outgoing@);
        (if ins.len() > 1 {
            seq![single(MSG_JOIN@, tc_of(n)) + ins.map_values(|e: EdgeId|
                (MSG_JOIN_FROM@, tc_of(g.nodes@[g.edges@[e.0 as int].from.0 as int])))]
        } else {
            Seq::empty()
        }) + (if outs.len() > 1 {
            seq![single(MSG_BRANCH@, tc_of(n)) + outs.map_values(|e: EdgeId|
                (MSG_BRANCH_TO@, tc_of(g.nodes@[g.edges@[e.0 as int].to.0 as int])))]
        } else {
            Seq::empty()
        })
    }
}

pub open spec fn branching_errors(g: Graph, n: int) -> Seq<Diag>
    decreases n,
{
    if n <= 0 {
        Seq::empty()
    } else {
        branching_errors(g, n - 1) + branching_errors_at(g, g.nodes@[n - 1])
    }
}

/// The indexes that a graph's edges and nodes hold point into it.
pub open spec fn graph_indexes_ok(g: Graph) -> bool {
    &&& forall|k: int| 0 <= k < g.edges@.len() ==> {
        &&& (#[trigger] g.edges@[k]).from.0 < g.nodes@.len()
        &&& g.edges@[k].to.0 < g.nodes@.len()
    }
    &&& forall|i: int| 0 <= i < g.nodes@.len() ==> {
        &&& forall|j: int| 0 <= j < (#[trigger] g.nodes@[i]).incoming@.len() ==> (#[trigger] g.nodes@[i].incoming@[j]).0 < g.edges@.len()
        &&& forall|j: int| 0 <= j < g.nodes@[i].outgoing@.len() ==> (#[trigger] g.nodes@[i].outgoing@[j]).0 < g.edges@.len()
    }
}

/// The diagnostics as values.
pub open spec fn diags(v: Seq<ParseError>) -> Seq<Diag> {
    v.map_values(|e: ParseError| errs(e))
}

fn diag(msg: &str, tc: TokenCoordinate) -> (r: ParseError)
    ensures
        errs(r) == single(msg@, tc),
{
    let mut r: ParseError = Vec::new();
    r.push((msg.to_string(), tc));
    assert(errs(r) =~= single(msg@, tc));
    r
}

fn push_diag(v: &mut Vec<ParseError>, d: ParseError)
    ensures
        diags(final(v)@) == diags(old(v)@).push(errs(d)),
{
    v.push(d);
    assert(diags(v@) =~= diags(old(v)@).push(errs(d)));
}

fn push_msg(e: &mut ParseError, msg: &str, tc: TokenCoordinate)
    ensures
        errs(*final(e)) == errs(*old(e)).push((msg@, tc)),
{
    e.push((msg.to_string(), tc));
    assert(errs(*e) =~= errs(*old(e)).push((msg@, tc)));
}

fn node_tc(n: &Node) -> (r: TokenCoordinate)
    ensures
        r == tc_of(*n),
{
    match &n.node_type {
        NodeType::RealNode { tc, .. } => *tc,
        _ => TokenCoordinate::zero(),
    }
}

fn can_send_exec(n: &Node) -> (r: bool)
    ensures
        r == can_send(n.node_type),
{
    match &n.node_type {
        NodeType::RealNode { event, .. } => match event {
            BpmnNode::Event(EventType::Message, EventVisual::Throw) => true,
            BpmnNode::Event(EventType::Message, EventVisual::End) => true,
            BpmnNode::Activity(_, _) => true,
            _ => false,
        },
        _ => true,
    }
}

fn can_catch_exec(n: &Node) -> (r: bool)
    ensures
        r == can_catch(n.node_type),
{
    match &n.node_type {
        NodeType::RealNode { event, .. } => match event {
            BpmnNode::Event(EventType::Message, EventVisual::Start(_)) => true,
            BpmnNode::Event(EventType::Message, EventVisual::Catch(_)) => true,
            BpmnNode::Event(EventType::Blank, _) => true,
            BpmnNode::Activity(_, _) => true,
            _ => false,
        },
        _ => true,
    }
}

/// Appends the diagnostics about message flow ends and self loops.
fn check_edges(graph: &Graph, errors: &mut Vec<ParseError>)
    requires
        graph_indexes_ok(*graph),
    ensures
        diags(final(errors)@) == diags(old(errors)@) + message_flow_errors(*graph, graph.edges@.len() as int)
            + self_loop_errors(*graph, graph.edges@.len() as int),
{
    let mut k: usize = 0;
    while k < graph.edges.len()
        invariant
            graph_indexes_ok(*graph),
            k <= graph.edges@.len(),
            diags(errors@) == diags(old(errors)@) + message_flow_errors(*graph, k as int),
        decreases graph.edges@.len() - k,
    {
        let e = &graph.edges[k];
        assert(e == graph.edges@[k as int]);
        if e.is_message_flow() {
            let from = &graph.nodes[e.from.0];
            if !can_send_exec(from) {
                push_diag(errors, diag(MSG_CANNOT_SEND, node_tc(from)));
            }
            let to = &graph.nodes[e.to.0];
            if !can_catch_exec(to) {
                push_diag(errors, diag(MSG_CANNOT_CATCH, node_tc(to)));
            }
        }
        k = k + 1;
    }
    let ghost mid = diags(errors@);
    k = 0;
    while k < graph.edges.len()
        invariant
            graph_indexes_ok(*graph),
            k <= graph.edges@.len(),
            diags(errors@) == mid + self_loop_errors(*graph, k as int),
        decreases graph.edges@.len() - k,
    {
        let e = &graph.edges[k];
        assert(e == graph.edges@[k as int]);
        if e.from.0 == e.to.0 {
            push_diag(errors, diag(MSG_SELF_EDGE, node_tc(&graph.nodes[e.from.0])));
        }
        k = k + 1;
    }
}


/// The sequence flows among `ids` (that leave from no boundary event, if `plain`).
fn flows_among(graph: &Graph, ids: &Vec<EdgeId>, plain: bool) -> (r: Vec<EdgeId>)
    requires
        forall|j: int| 0 <= j < ids@.len() ==> (#[trigger] ids@[j]).0 < graph.edges@.len(),
    ensures
        r@ == if plain { plain_flows(*graph, ids@) } else { sequence_flows(*graph, ids@) },
{
    let ghost f = if plain {
        |e: EdgeId| graph.edges@[e.0 as int].flow_type is SequenceFlow && graph.edges@[e.0 as int].attached_to_boundary_event is None
    } else {
        |e: EdgeId| graph.edges@[e.0 as int].flow_type is SequenceFlow
    };
    let mut r: Vec<EdgeId> = Vec::new();
    let mut k: usize = 0;
    while k < ids.len()
        invariant
            k <= ids@.len(),
            forall|j: int| 0 <= j < ids@.len() ==> (#[trigger] ids@[j]).0 < graph.edges@.len(),
            r@ == ids@.take(k as int).filter(f),
            f == (if plain {
                |e: EdgeId| graph.edges@[e.0 as int].flow_type is SequenceFlow && graph.edges@[e.0 as int].attached_to_boundary_event is None
            } else {
                |e: EdgeId| graph.edges@[e.0 as int].flow_type is SequenceFlow
            }),
        decreases ids@.len() - k,
    {
        proof {
            assert(ids@.take(k + 1).drop_last() == ids@.take(k as int));
            reveal_with_fuel(Seq::filter, 1);
        }
        let e = &graph.edges[ids[k].0];
        if e.is_sequence_flow() && (!plain || e.attached_to_boundary_event.is_none()) {
            r.push(ids[k]);
        }
        k = k + 1;
    }
    assert(ids@.take(ids@.len() as int) == ids@);
    r
}

/// Appends the diagnostics about the sequence flows of gateways.
fn check_gateways(graph: &Graph, errors: &mut Vec<ParseError>)
    requires
        graph_indexes_ok(*graph),
    ensures
        diags(final(errors)@) == diags(old(errors)@) + gateway_errors(*graph, graph.nodes@.len() as int),
{
    let mut i: usize = 0;
    while i < graph.nodes.len()
        invariant
            graph_indexes_ok(*graph),
            i <= graph.nodes@.len(),
            diags(errors@) == diags(old(errors)@) + gateway_errors(*graph, i as int),
        decreases graph.nodes@.len() - i,
    {
        let node = &graph.nodes[i];
        assert(node == graph.nodes@[i as int]);
        let ghost before = diags(errors@);
        if node.is_gateway() {
            let ins = flows_among(graph, &node.incoming, false).len();
            let outs = flows_among(graph, &node.outgoing, false).len();
            let tc = node_tc(node);
            if ins > 1 && outs > 1 {
                push_diag(errors, diag(MSG_GATEWAY_BOTH, tc));
            }
            if ins == 0 {
                push_diag(errors, diag(MSG_GATEWAY_NO_IN, tc));
            }
            if outs == 0 {
                push_diag(errors, diag(MSG_GATEWAY_NO_OUT, tc));
            }
        }
        assert(diags(errors@) =~= before + gateway_errors_at(*graph, graph.nodes@[i as int]));
        i = i + 1;
    }
}

/// The diagnostic that `flows` join (`incoming`) or branch at `node`.
fn branching_diag(graph: &Graph, node: &Node, flows: &Vec<EdgeId>, incoming: bool) -> (r: ParseError)
    requires
        graph_indexes_ok(*graph),
        forall|j: int| 0 <= j < flows@.len() ==> (#[trigger] flows@[j]).0 < graph.edges@.len(),
    ensures
        errs(r) == if incoming {
            single(MSG_JOIN@, tc_of(*node)) + flows@.map_values(|e: EdgeId|
                (MSG_JOIN_FROM@, tc_of(graph.nodes@[graph.edges@[e.0 as int].from.0 as int])))
        } else {
            single(MSG_BRANCH@, tc_of(*node)) + flows@.map_values(|e: EdgeId|
                (MSG_BRANCH_TO@, tc_of(graph.nodes@[graph.edges@[e.0 as int].to.0 as int])))
        },
{
    let ghost f = if incoming {
        |e: EdgeId| (MSG_JOIN_FROM@, tc_of(graph.nodes@[graph.edges@[e.0 as int].from.0 as int]))
    } else {
        |e: EdgeId| (MSG_BRANCH_TO@, tc_of(graph.nodes@[graph.edges@[e.0 as int].to.0 as int]))
    };
    let mut r = if incoming { diag(MSG_JOIN, node_tc(node)) } else { diag(MSG_BRANCH, node_tc(node)) };
    let ghost head = errs(r);
    let mut k: usize = 0;
    while k < flows.len()
        invariant
            graph_indexes_ok(*graph),
            forall|j: int| 0 <= j < flows@.len() ==> (#[trigger] flows@[j]).0 < graph.edges@.len(),
            k <= flows@.len(),
            errs(r) == head + flows@.take(k as int).map_values(f),
            f == (if incoming {
                |e: EdgeId| (MSG_JOIN_FROM@, tc_of(graph.nodes@[graph.edges@[e.0 as int].from.0 as int]))
            } else {
                |e: EdgeId| (MSG_BRANCH_TO@, tc_of(graph.nodes@[graph.edges@[e.0 as int].to.0 as int]))
            }),
        decreases flows@.len() - k,
    {
        let e = &graph.edges[flows[k].0];
        assert(graph.edges@[flows@[k as int].0 as int] == *e);
        if incoming {
            push_msg(&mut r, MSG_JOIN_FROM, node_tc(&graph.nodes[e.from.0]));
        } else {
            push_msg(&mut r, MSG_BRANCH_TO, node_tc(&graph.nodes[e.to.0]));
        }
        assert(flows@.take(k + 1).map_values(f) =~= flows@.take(k as int).map_values(f).push(f(flows@[k as int])));
        k = k + 1;
    }
    assert(flows@.take(flows@.len() as int) == flows@);
    r
}

/// Appends the diagnostics about nodes other than gateways that join or branch.
fn check_branching(graph: &Graph, errors: &mut Vec<ParseError>)
    requires
        graph_indexes_ok(*graph),
    ensures
        diags(final(errors)@) == diags(old(errors)@) + branching_errors(*graph, graph.nodes@.len() as int),
{
    let mut i: usize = 0;
    while i < graph.nodes.len()
        invariant
            graph_indexes_ok(*graph),
            i <= graph.nodes@.len(),
            diags(errors@) == diags(old(errors)@) + branching_errors(*graph, i as int),
        decreases graph.nodes@.len() - i,
    {
        let node = &graph.nodes[i];
        assert(node == graph.nodes@[i as int]);
        let ghost before = diags(errors@);
        if !node.is_gateway() {
            let ins = flows_among(graph, &node.incoming, true);
            if ins.len() > 1 {
                proof {
                    assert forall|j: int| 0 <= j < ins@.len() implies (#[trigger] ins@[j]).0 < graph.edges@.len() by {
                        let p = |e: EdgeId| graph.edges@[e.0 as int].flow_type is SequenceFlow && graph.edges@[e.0 as int].attached_to_boundary_event is None;
                        assert(ins@.contains(ins@[j]));
                        node.incoming@.lemma_filter_contains_rev(p, ins@[j]);
                    }
                }
                push_diag(errors, branching_diag(graph, node, &ins, true));
            }
            let outs = flows_among(graph, &node.outgoing, true);
            if outs.len() > 1 {
                proof {
                    assert forall|j: int| 0 <= j < outs@.len() implies (#[trigger] outs@[j]).0 < graph.edges@.len() by {
                        let p = |e: EdgeId| graph.edges@[e.0 as int].flow_type is SequenceFlow && graph.edges@[e.0 as int].attached_to_boundary_event is None;
                        assert(outs@.contains(outs@[j]));
                        node.outgoing@.lemma_filter_contains_rev(p, outs@[j]);
                    }
                }
                push_diag(errors, branching_diag(graph, node, &outs, false));
            }
        }
        assert(diags(errors@) =~= before + branching_errors_at(*graph, graph.nodes@[i as int]));
        i = i + 1;
    }
}


/// The nodes at the other end of `n`'s edges: the sources of its incoming edges, then the targets
/// of its outgoing ones.
pub open spec fn connected(g: Graph, n: Node) -> Seq<NodeId> {
    n.incoming@.map_values(|e: EdgeId| g.edges@[e.0 as int].from) + n.outgoing@.map_values(|e: EdgeId| g.edges@[e.0 as int].to)
}

/// `s` with each element at its first occurrence only.
pub open spec fn dedup(s: Seq<NodeId>) -> Seq<NodeId>
    decreases s.len(),
{
    if s.len() == 0 {
        s
    } else {
        let d = dedup(s.drop_last());
        if d.contains(s.last()) { d } else { d.push(s.last()) }
    }
}

/// The first cluster at or after `k` that holds `id`.
pub open spec fn first_cluster(cs: Seq<VecSet<NodeId>>, id: NodeId, k: int) -> Option<int>
    decreases cs.len() - k,
{
    if k < 0 || k >= cs.len() {
        None
    } else if cs[k]@.contains(id) {
        Some(k)
    } else {
        first_cluster(cs, id, k + 1)
    }
}

/// The diagnostic about gateway `n` forced into one layer with three or more of the nodes it is
/// connected to (by the first cluster that holds it).
pub open spec fn gateway_cluster_errors_at(g: Graph, cs: Seq<VecSet<NodeId>>, n: Node) -> Seq<Diag> {
    if spec_is_gateway(n.node_type) && first_cluster(cs, n.id, 0) is Some {
        let c = cs[first_cluster(cs, n.id, 0)->0];
        let forced = dedup(connected(g, n)).filter(|m: NodeId| c@.contains(m));
        if forced.len() >= 3 {
            seq![single(MSG_GATEWAY_CLUSTER@, tc_of(n))
                + forced.map_values(|m: NodeId| (MSG_GATEWAY_CLUSTER_NODE@, tc_of(g.nodes@[m.0 as int])))]
        } else {
            Seq::empty()
        }
    } else {
        Seq::empty()
    }
}

pub open spec fn gateway_cluster_errors(g: Graph, cs: Seq<VecSet<NodeId>>, n: int) -> Seq<Diag>
    decreases n,
{
    if n <= 0 {
        Seq::empty()
    } else {
        gateway_cluster_errors(g, cs, n - 1) + gateway_cluster_errors_at(g, cs, g.nodes@[n - 1])
    }
}

/// The nodes connected to `node`, each once, in order of first occurrence.
fn connected_nodes(graph: &Graph, node: &Node) -> (r: VecSet<NodeId>)
    requires
        forall|j: int| 0 <= j < node.incoming@.len() ==> (#[trigger] node.incoming@[j]).0 < graph.edges@.len(),
        forall|j: int| 0 <= j < node.outgoing@.len() ==> (#[trigger] node.outgoing@[j]).0 < graph.edges@.len(),
    ensures
        r.wf(),
        r.elems() == dedup(connected(*graph, *node)),
{
    let ghost ins = node.incoming@.map_values(|e: EdgeId| graph.edges@[e.0 as int].from);
    let ghost outs = node.outgoing@.map_values(|e: EdgeId| graph.edges@[e.0 as int].to);
    let mut all = VecSet::new();
    let mut k: usize = 0;
    while k < node.incoming.len()
        invariant
            forall|j: int| 0 <= j < node.incoming@.len() ==> (#[trigger] node.incoming@[j]).0 < graph.edges@.len(),
            ins == node.incoming@.map_values(|e: EdgeId| graph.edges@[e.0 as int].from),
            k <= node.incoming@.len(),
            all.wf(),
            all.elems() == dedup(ins.take(k as int)),
        decreases node.incoming@.len() - k,
    {
        let from = graph.edges[node.incoming[k].0].from;
        assert(ins.take(k + 1).drop_last() =~= ins.take(k as int));
        assert(ins.take(k + 1).last() == from);
        all.insert(from);
        k = k + 1;
    }
    assert(ins.take(ins.len() as int) =~= ins);
    k = 0;
    while k < node.outgoing.len()
        invariant
            forall|j: int| 0 <= j < node.outgoing@.len() ==> (#[trigger] node.outgoing@[j]).0 < graph.edges@.len(),
            outs == node.outgoing@.map_values(|e: EdgeId| graph.edges@[e.0 as int].to),
            k <= node.outgoing@.len(),
            all.wf(),
            all.elems() == dedup(ins + outs.take(k as int)),
        decreases node.outgoing@.len() - k,
    {
        let to = graph.edges[node.outgoing[k].0].to;
        assert((ins + outs.take(k + 1)).drop_last() =~= ins + outs.take(k as int));
        assert((ins + outs.take(k + 1)).last() == to);
        all.insert(to);
        k = k + 1;
    }
    assert(outs.take(outs.len() as int) =~= outs);
    assert(connected(*graph, *node) == ins + outs);
    all
}

/// Appends the diagnostics about gateways forced into a layer with too many of their neighbours.
fn check_gateway_clusters(graph: &Graph, clusters: &Vec<VecSet<NodeId>>, errors: &mut Vec<ParseError>)
    requires
        graph_indexes_ok(*graph),
        forall|k: int| 0 <= k < clusters@.len() ==> (#[trigger] clusters@[k]).wf(),
        forall|k: int, m: NodeId| 0 <= k < clusters@.len() && #[trigger] clusters@[k]@.contains(m) ==> m.0 < graph.nodes@.len(),
    ensures
        diags(final(errors)@) == diags(old(errors)@) + gateway_cluster_errors(*graph, clusters@, graph.nodes@.len() as int),
{
    let mut i: usize = 0;
    while i < graph.nodes.len()
        invariant
            graph_indexes_ok(*graph),
            forall|k: int| 0 <= k < clusters@.len() ==> (#[trigger] clusters@[k]).wf(),
            forall|k: int, m: NodeId| 0 <= k < clusters@.len() && #[trigger] clusters@[k]@.contains(m) ==> m.0 < graph.nodes@.len(),
            i <= graph.nodes@.len(),
            diags(errors@) == diags(old(errors)@) + gateway_cluster_errors(*graph, clusters@, i as int),
        decreases graph.nodes@.len() - i,
    {
        let node = &graph.nodes[i];
        assert(node == graph.nodes@[i as int]);
        let ghost before = diags(errors@);
        if node.is_gateway() {
            let mut k: usize = 0;
            let mut found = false;
            while k < clusters.len()
                invariant_except_break
                    !found,
                invariant
                    k <= clusters@.len(),
                    first_cluster(clusters@, node.id, 0) == first_cluster(clusters@, node.id, k as int),
                ensures
                    k <= clusters@.len(),
                    first_cluster(clusters@, node.id, 0) == first_cluster(clusters@, node.id, k as int),
                    found ==> k < clusters@.len() && clusters@[k as int]@.contains(node.id),
                    !found ==> k == clusters@.len(),
                decreases clusters@.len() - k,
            {
                if clusters[k].contains(&node.id) {
                    found = true;
                    break;
                }
                k = k + 1;
            }
            if found {
                assert(first_cluster(clusters@, node.id, 0) == Some(k as int));
                let cluster = &clusters[k];
                let all = connected_nodes(graph, node);
                let members = all.iter();
                let ghost p = |m: NodeId| cluster@.contains(m);
                let mut forced: Vec<NodeId> = Vec::new();
                let mut j: usize = 0;
                while j < members.len()
                    invariant
                        j <= members@.len(),
                        forced@ == members@.take(j as int).filter(p),
                        p == |m: NodeId| cluster@.contains(m),
                    decreases members@.len() - j,
                {
                    proof {
                        assert(members@.take(j + 1).drop_last() == members@.take(j as int));
                        reveal_with_fuel(Seq::filter, 1);
                    }
                    if cluster.contains(&members[j]) {
                        forced.push(members[j]);
                    }
                    j = j + 1;
                }
                assert(members@.take(members@.len() as int) == members@);
                proof {
                    broadcast use vstd::seq_lib::group_filter_ensures;
                    assert forall|m: int| 0 <= m < forced@.len() implies (#[trigger] forced@[m]).0 < graph.nodes@.len() by {
                        assert(p(forced@[m]));
                        assert(clusters@[k as int]@.contains(forced@[m]));
                    }
                }
                if forced.len() >= 3 {
                    let ghost f = |m: NodeId| (MSG_GATEWAY_CLUSTER_NODE@, tc_of(graph.nodes@[m.0 as int]));
                    let mut d = diag(MSG_GATEWAY_CLUSTER, node_tc(node));
                    let ghost head = errs(d);
                    let mut j: usize = 0;
                    while j < forced.len()
                        invariant
                            j <= forced@.len(),
                            forall|m: int| 0 <= m < forced@.len() ==> (#[trigger] forced@[m]).0 < graph.nodes@.len(),
                            errs(d) == head + forced@.take(j as int).map_values(f),
                            f == |m: NodeId| (MSG_GATEWAY_CLUSTER_NODE@, tc_of(graph.nodes@[m.0 as int])),
                        decreases forced@.len() - j,
                    {
                        push_msg(&mut d, MSG_GATEWAY_CLUSTER_NODE, node_tc(&graph.nodes[forced[j].0]));
                        assert(forced@.take(j + 1).map_values(f) =~= forced@.take(j as int).map_values(f).push(f(forced@[j as int])));
                        j = j + 1;
                    }
                    assert(forced@.take(forced@.len() as int) == forced@);
                    push_diag(errors, d);
                }
            }
        }
        assert(diags(errors@) =~= before + gateway_cluster_errors_at(*graph, clusters@, graph.nodes@[i as int]));
        i = i + 1;
    }
}


/// Inserts `x` behind the last crossing that does not come after it.
pub open spec fn insert_crossing(s: Seq<SameLayerLaneCrossing>, x: SameLayerLaneCrossing) -> Seq<SameLayerLaneCrossing>
    decreases s.len(),
{
    if s.len() == 0 {
        seq![x]
    } else if key_lt(crossing_key(x), crossing_key(s.last())) {
        insert_crossing(s.drop_last(), x).push(s.last())
    } else {
        s.push(x)
    }
}

/// The crossings in the order of `SameLayerLaneCrossing::less_than`. Crossings with equal keys
/// join the same two nodes and are equal, so no other order of them is possible.
pub open spec fn sort_crossings(s: Seq<SameLayerLaneCrossing>) -> Seq<SameLayerLaneCrossing>
    decreases s.len(),
{
    if s.len() == 0 {
        s
    } else {
        insert_crossing(sort_crossings(s.drop_last()), s.last())
    }
}

/// The sorted crossings of a cluster.
pub open spec fn cluster_crossings(g: Graph, c: VecSet<NodeId>) -> Seq<SameLayerLaneCrossing> {
    sort_crossings(all_crossings(g, c.elems(), c.elems()))
}

/// Node `m` lies in the same pool as crossing `x`, in a lane strictly between its two lanes.
pub open spec fn spans_over(g: Graph, x: SameLayerLaneCrossing, m: NodeId) -> bool {
    let n = g.nodes@[m.0 as int];
    &&& n.pool == x.top_pool_lane.pool
    &&& x.top_pool_lane.lane.0 < n.lane.0 < x.bot_pool_lane.lane.0
}

pub open spec fn span_diag(g: Graph, x: SameLayerLaneCrossing, m: NodeId) -> Diag {
    seq![(MSG_SPAN@, tc_of(g.nodes@[m.0 as int])), (MSG_SPAN_TOP@, x.top_tc), (MSG_SPAN_BOT@, x.bot_tc)]
}

/// For each crossing of `xs` in order, the diagnostics about the members of the cluster that lie
/// in a lane it spans over.
pub open spec fn span_errors(g: Graph, members: Seq<NodeId>, xs: Seq<SameLayerLaneCrossing>) -> Seq<Diag>
    decreases xs.len(),
{
    if xs.len() == 0 {
        Seq::empty()
    } else {
        let x = xs.last();
        span_errors(g, members, xs.drop_last())
            + members.filter(|m: NodeId| spans_over(g, x, m)).map_values(|m: NodeId| span_diag(g, x, m))
    }
}

/// The diagnostic about two neighbouring crossings of the sorted list that cross from the same
/// lane to the same other lane.
pub open spec fn same_crossing_diag(l: SameLayerLaneCrossing, r: SameLayerLaneCrossing) -> Seq<Diag> {
    if l.top_pool_lane == l.bot_pool_lane || !(l.top_pool_lane == r.top_pool_lane && l.bot_pool_lane == r.bot_pool_lane) {
        Seq::empty()
    } else {
        seq![seq![(MSG_SAME_CROSSING@, r.top_tc), (MSG_FIRST_BOTTOM@, r.bot_tc), (MSG_SECOND_TOP@, l.top_tc),
            (MSG_SECOND_BOTTOM@, l.bot_tc)]]
    }
}

/// The diagnostics of the first `n` pairs of neighbours in `xs`.
pub open spec fn same_crossing_errors(xs: Seq<SameLayerLaneCrossing>, n: int) -> Seq<Diag>
    decreases n,
{
    if n <= 0 {
        Seq::empty()
    } else {
        same_crossing_errors(xs, n - 1) + same_crossing_diag(xs[n - 1], xs[n])
    }
}

/// The diagnostics about the lane crossings of one cluster.
pub open spec fn cluster_errors(g: Graph, c: VecSet<NodeId>) -> Seq<Diag> {
    let xs = cluster_crossings(g, c);
    span_errors(g, c.elems(), xs) + same_crossing_errors(xs, xs.len() - 1)
}

pub open spec fn crossing_errors(g: Graph, cs: Seq<VecSet<NodeId>>, n: int) -> Seq<Diag>
    decreases n,
{
    if n <= 0 {
        Seq::empty()
    } else {
        crossing_errors(g, cs, n - 1) + cluster_errors(g, cs[n - 1])
    }
}

proof fn lemma_insert_crossing_at(s: Seq<SameLayerLaneCrossing>, x: SameLayerLaneCrossing, k: int)
    requires
        0 <= k <= s.len(),
        forall|m: int| k <= m < s.len() ==> key_lt(crossing_key(x), crossing_key(#[trigger] s[m])),
        k == 0 || !key_lt(crossing_key(x), crossing_key(s[k - 1])),
    ensures
        insert_crossing(s, x) == s.take(k).push(x) + s.skip(k),
    decreases s.len(),
{
    if s.len() == 0 {
        assert(s.take(k).push(x) + s.skip(k) =~= seq![x]);
    } else if k == s.len() {
        assert(s.take(k) =~= s);
        assert(s.take(k).push(x) + s.skip(k) =~= s.push(x));
    } else {
        assert(key_lt(crossing_key(x), crossing_key(s[s.len() - 1])));
        let t = s.drop_last();
        assert forall|m: int| k <= m < t.len() implies key_lt(crossing_key(x), crossing_key(#[trigger] t[m])) by {
            assert(t[m] == s[m]);
        }
        if k > 0 {
            assert(t[k - 1] == s[k - 1]);
        }
        lemma_insert_crossing_at(t, x, k);
        assert(t.take(k) =~= s.take(k));
        assert((t.take(k).push(x) + t.skip(k)).push(s.last()) =~= s.take(k).push(x) + s.skip(k));
    }
}

/// Sorts crossings by `less_than`, by insertion.
fn sort_crossings_exec(xs: Vec<SameLayerLaneCrossing>) -> (r: Vec<SameLayerLaneCrossing>)
    ensures
        r@ == sort_crossings(xs@),
{
    let mut sorted: Vec<SameLayerLaneCrossing> = Vec::new();
    let mut i: usize = 0;
    while i < xs.len()
        invariant
            i <= xs@.len(),
            sorted@ == sort_crossings(xs@.take(i as int)),
        decreases xs@.len() - i,
    {
        let x = xs[i];
        let mut j: usize = sorted.len();
        while j > 0 && x.less_than(&sorted[j - 1])
            invariant
                j <= sorted@.len(),
                forall|m: int| j <= m < sorted@.len() ==> key_lt(crossing_key(x), crossing_key(#[trigger] sorted@[m])),
            decreases j,
        {
            j = j - 1;
        }
        proof {
            lemma_insert_crossing_at(sorted@, x, j as int);
            assert(xs@.take(i + 1).drop_last() =~= xs@.take(i as int));
            assert(xs@.take(i + 1).last() == x);
        }
        sorted.insert(j, x);
        assert(sorted@ =~= sort_crossings(xs@.take(i + 1)));
        i = i + 1;
    }
    assert(xs@.take(xs@.len() as int) =~= xs@);
    sorted
}

fn same_pool_and_lane(a: crate::ids::PoolAndLane, b: crate::ids::PoolAndLane) -> (r: bool)
    ensures
        r == (a == b),
{
    a.pool.0 == b.pool.0 && a.lane.0 == b.lane.0
}

/// Appends the diagnostics about the lane crossings of one cluster.
fn check_cluster(graph: &Graph, cluster: &VecSet<NodeId>, errors: &mut Vec<ParseError>)
    requires
        cluster_ok(*graph, cluster.elems()),
    ensures
        diags(final(errors)@) == diags(old(errors)@) + cluster_errors(*graph, *cluster),
{
    let found = same_layer_lane_crossings_within_cluster(graph, cluster);
    let xs = sort_crossings_exec(found);
    let members = cluster.iter();
    let ghost start = diags(errors@);
    let mut i: usize = 0;
    while i < xs.len()
        invariant
            cluster_ok(*graph, cluster.elems()),
            members@ == cluster.elems(),
            i <= xs@.len(),
            diags(errors@) == start + span_errors(*graph, members@, xs@.take(i as int)),
        decreases xs@.len() - i,
    {
        let x = xs[i];
        let ghost before = diags(errors@);
        let ghost p = |m: NodeId| spans_over(*graph, x, m);
        let ghost f = |m: NodeId| span_diag(*graph, x, m);
        let mut j: usize = 0;
        while j < members.len()
            invariant
                cluster_ok(*graph, cluster.elems()),
                members@ == cluster.elems(),
                j <= members@.len(),
                diags(errors@) == before + members@.take(j as int).filter(p).map_values(f),
                p == |m: NodeId| spans_over(*graph, x, m),
                f == |m: NodeId| span_diag(*graph, x, m),
            decreases members@.len() - j,
        {
            let m = members[j];
            assert(members@[j as int] == cluster.elems()[j as int]);
            let node = &graph.nodes[m.0];
            proof {
                assert(members@.take(j + 1).drop_last() == members@.take(j as int));
                reveal_with_fuel(Seq::filter, 1);
            }
            if node.pool.0 == x.top_pool_lane.pool.0 && x.top_pool_lane.lane.0 < node.lane.0
                && node.lane.0 < x.bot_pool_lane.lane.0 {
                let mut d = diag(MSG_SPAN, node_tc(node));
                push_msg(&mut d, MSG_SPAN_TOP, x.top_tc);
                push_msg(&mut d, MSG_SPAN_BOT, x.bot_tc);
                assert(errs(d) =~= span_diag(*graph, x, m));
                push_diag(errors, d);
                assert(members@.take(j + 1).filter(p) == members@.take(j as int).filter(p).push(m));
                assert(members@.take(j + 1).filter(p).map_values(f)
                    =~= members@.take(j as int).filter(p).map_values(f).push(f(m)));
            } else {
                assert(members@.take(j + 1).filter(p) == members@.take(j as int).filter(p));
            }
            j = j + 1;
        }
        assert(members@.take(members@.len() as int) == members@);
        assert(xs@.take(i + 1).drop_last() =~= xs@.take(i as int));
        assert(xs@.take(i + 1).last() == x);
        i = i + 1;
    }
    assert(xs@.take(xs@.len() as int) =~= xs@);
    let ghost mid = diags(errors@);
    let mut k: usize = 1;
    while k < xs.len()
        invariant
            1 <= k,
            k <= xs@.len() || k == 1,
            diags(errors@) == mid + same_crossing_errors(xs@, k - 1),
        decreases xs@.len() - k,
    {
        let l = xs[k - 1];
        let r = xs[k];
        if !same_pool_and_lane(l.top_pool_lane, l.bot_pool_lane)
            && same_pool_and_lane(l.top_pool_lane, r.top_pool_lane)
            && same_pool_and_lane(l.bot_pool_lane, r.bot_pool_lane) {
            let mut d = diag(MSG_SAME_CROSSING, r.top_tc);
            push_msg(&mut d, MSG_FIRST_BOTTOM, r.bot_tc);
            push_msg(&mut d, MSG_SECOND_TOP, l.top_tc);
            push_msg(&mut d, MSG_SECOND_BOTTOM, l.bot_tc);
            push_diag(errors, d);
            assert(errs(d) =~= seq![(MSG_SAME_CROSSING@, r.top_tc), (MSG_FIRST_BOTTOM@, r.bot_tc),
                (MSG_SECOND_TOP@, l.top_tc), (MSG_SECOND_BOTTOM@, l.bot_tc)]);
            assert(same_crossing_diag(xs@[k - 1], xs@[k as int]) == seq![errs(d)]);
        }
        assert(same_crossing_errors(xs@, k as int) =~= same_crossing_errors(xs@, k - 1)
            + same_crossing_diag(xs@[k - 1], xs@[k as int]));
        k = k + 1;
    }
    assert(xs@ == cluster_crossings(*graph, *cluster));
    assert(mid == start + span_errors(*graph, cluster.elems(), xs@));
    if xs.len() == 0 {
        assert(same_crossing_errors(xs@, xs@.len() - 1) =~= Seq::<Diag>::empty());
        assert(same_crossing_errors(xs@, k - 1) =~= Seq::<Diag>::empty());
    } else {
        assert(k == xs@.len());
    }
    assert(diags(errors@) =~= start + cluster_errors(*graph, *cluster));
}


/// Every diagnostic, in the order of the checks: message flow ends and self loops edge by edge,
/// gateway sides, joining and branching, and gateways in clusters node by node, then the lane
/// crossings cluster by cluster.
pub open spec fn all_errors(g: Graph, cs: Seq<VecSet<NodeId>>) -> Seq<Diag> {
    message_flow_errors(g, g.edges@.len() as int) + self_loop_errors(g, g.edges@.len() as int)
        + gateway_errors(g, g.nodes@.len() as int) + branching_errors(g, g.nodes@.len() as int)
        + gateway_cluster_errors(g, cs, g.nodes@.len() as int) + crossing_errors(g, cs, cs.len() as int)
}

/// What the checks need: the graph's indexes point into it, it holds real nodes only (as after
/// parsing), each cluster is a set of existing nodes, and no two neighbours in the sorted
/// crossings of a cluster are equal (two flows between the same two nodes).
pub open spec fn validation_ok(g: Graph, cs: Seq<VecSet<NodeId>>) -> bool {
    &&& graph_indexes_ok(g)
    &&& forall|i: int| 0 <= i < g.nodes@.len() ==> (#[trigger] g.nodes@[i]).node_type is RealNode
    &&& forall|k: int| 0 <= k < cs.len() ==> (#[trigger] cs[k]).wf() && cluster_ok(g, cs[k].elems())
    &&& forall|k: int, j: int| 0 <= k < cs.len() && 0 <= j < cluster_crossings(g, cs[k]).len() - 1 ==>
        #[trigger] cluster_crossings(g, cs[k])[j] != cluster_crossings(g, cs[k])[j + 1]
}

/// Checks the parsed graph against the rules of the layout, with the same-layer clusters of its
/// place constraints. Returns the first diagnostic of `all_errors`, if there is one.
pub fn validate_graph_correctness(graph: &Graph, layout_constraints: &LayoutConstraints) -> (r: Result<(), ParseError>)
    requires
        validation_ok(*graph, layout_constraints.same_layer_clusters@),
    ensures
        r is Ok <==> all_errors(*graph, layout_constraints.same_layer_clusters@).len() == 0,
        r matches Err(e) ==> errs(e) == all_errors(*graph, layout_constraints.same_layer_clusters@)[0],
{
    let same_layer_clusters = &layout_constraints.same_layer_clusters;
    let ghost cs = same_layer_clusters@;
    proof {
        assert forall|k: int, m: NodeId| 0 <= k < cs.len() && #[trigger] cs[k]@.contains(m) implies m.0 < graph.nodes@.len() by {
            assert(cs[k].elems().contains(m));
            let j = choose|j: int| 0 <= j < cs[k].elems().len() && cs[k].elems()[j] == m;
            assert(cluster_ok(*graph, cs[k].elems()));
            assert(cs[k].elems()[j].0 < graph.nodes@.len());
        }
    }
    let mut errors: Vec<ParseError> = Vec::new();
    assert(diags(errors@) =~= Seq::<Diag>::empty());
    check_edges(graph, &mut errors);
    check_gateways(graph, &mut errors);
    check_branching(graph, &mut errors);
    check_gateway_clusters(graph, same_layer_clusters, &mut errors);
    let ghost mid = diags(errors@);
    let mut k: usize = 0;
    while k < same_layer_clusters.len()
        invariant
            validation_ok(*graph, cs),
            cs == same_layer_clusters@,
            k <= cs.len(),
            diags(errors@) == mid + crossing_errors(*graph, cs, k as int),
        decreases cs.len() - k,
    {
        assert(cs[k as int].wf() && cluster_ok(*graph, cs[k as int].elems()));
        check_cluster(graph, &same_layer_clusters[k], &mut errors);
        k = k + 1;
    }
    assert(diags(errors@) =~= all_errors(*graph, cs));
    if errors.len() > 0 {
        let first = errors.remove(0);
        assert(errs(first) == all_errors(*graph, cs)[0]);
        Err(first)
    } else {
        Ok(())
    }
}


/// The messages of `validate_invariants` about the message flows among the first `n` edges.
pub open spec fn invariant_errors(g: Graph, n: int) -> Diag
    decreases n,
{
    if n <= 0 {
        Seq::empty()
    } else {
        let e = g.edges@[n - 1];
        invariant_errors(g, n - 1) + if e.flow_type is MessageFlow {
            (if can_send(g.nodes@[e.from.0 as int].node_type) { Seq::empty() } else {
                single(MSG_INVARIANT_CANNOT_SEND@, tc_of(g.nodes@[e.from.0 as int]))
            }) + (if can_catch(g.nodes@[e.to.0 as int].node_type) { Seq::empty() } else {
                single(MSG_CANNOT_CATCH@, tc_of(g.nodes@[e.to.0 as int]))
            })
        } else {
            Seq::empty()
        }
    }
}

/// Adds a message when `node` cannot send messages.
fn check_if_valid_message_flow_start(node: &Node, errors: &mut ParseError)
    ensures
        errs(*final(errors)) == errs(*old(errors)) + if can_send(node.node_type) {
            Seq::empty()
        } else {
            single(MSG_INVARIANT_CANNOT_SEND@, tc_of(*node))
        },
{
    let ghost before = errs(*errors);
    if !can_send_exec(node) {
        push_msg(errors, MSG_INVARIANT_CANNOT_SEND, node_tc(node));
    } else {
        assert(errs(*errors) =~= before + Seq::empty());
    }
}

/// Adds a message when `node` cannot catch messages.
fn check_if_valid_message_flow_end(node: &Node, errors: &mut ParseError)
    ensures
        errs(*final(errors)) == errs(*old(errors)) + if can_catch(node.node_type) {
            Seq::empty()
        } else {
            single(MSG_CANNOT_CATCH@, tc_of(*node))
        },
{
    let ghost before = errs(*errors);
    if !can_catch_exec(node) {
        push_msg(errors, MSG_CANNOT_CATCH, node_tc(node));
    } else {
        assert(errs(*errors) =~= before + Seq::empty());
    }
}

/// Checks the ends of the message flows only, and returns all messages at once.
pub fn validate_invariants(graph: &Graph) -> (r: Result<(), ParseError>)
    requires
        graph_indexes_ok(*graph),
    ensures
        r is Ok <==> invariant_errors(*graph, graph.edges@.len() as int).len() == 0,
        r matches Err(e) ==> errs(e) == invariant_errors(*graph, graph.edges@.len() as int),
{
    let mut errors: ParseError = Vec::new();
    assert(errs(errors) =~= Seq::<(Seq<char>, TokenCoordinate)>::empty());
    let mut k: usize = 0;
    while k < graph.edges.len()
        invariant
            graph_indexes_ok(*graph),
            k <= graph.edges@.len(),
            errs(errors) == invariant_errors(*graph, k as int),
        decreases graph.edges@.len() - k,
    {
        let e = &graph.edges[k];
        assert(e == graph.edges@[k as int]);
        let ghost before = errs(errors);
        if e.is_message_flow() {
            check_if_valid_message_flow_start(&graph.nodes[e.from.0], &mut errors);
            check_if_valid_message_flow_end(&graph.nodes[e.to.0], &mut errors);
        }
        assert(errs(errors) =~= invariant_errors(*graph, k + 1));
        k = k + 1;
    }
    if errors.len() == 0 {
        Ok(())
    } else {
        Err(errors)
    }
}

/// The sources that may send messages, by kind: a message throw event, a message end event, or
/// an activity.
proof fn lemma_message_texts_differ()
    ensures
        MSG_CANNOT_SEND@ != MSG_CANNOT_CATCH@,
        MSG_INVARIANT_CANNOT_SEND@ != MSG_CANNOT_CATCH@,
{
    reveal_strlit("This node type cannot send messages. Only message events (M#, M.) or tasks (e.g. .-) can be used as message flow starts. Note that shorthand events (#) are automatically transformed into message events when they are used in a message flow.");
    reveal_strlit("This node type cannot catch messages. Only message events (M#) or tasks (e.g. .-) can be used as message flow ends. Note that shorthand events (#) are automatically transformed into message events when they are used in a message flow.");
    reveal_strlit("This node type cannot send messages. Only message events (M#) or tasks (e.g. .-) can be used as message flow starts. Note that shorthand events (#) are automatically transformed into message events when they are used in a message flow.");
    assert(MSG_CANNOT_SEND@[22] != MSG_CANNOT_CATCH@[22]);
    assert(MSG_INVARIANT_CANNOT_SEND@[22] != MSG_CANNOT_CATCH@[22]);
}

/// Message flows are refused at their start exactly where the start is a real node that is
/// neither a message throw event, a message end event nor an activity. Where every message flow
/// among the first `n` edges starts at such a sender (or at a node that is not a real node), no
/// diagnostic says that a node cannot send; and each message flow that starts at a real node of
/// another kind gets that diagnostic, at the start's source location, from both checks.
pub proof fn lemma_cannot_send_exactly_for_non_senders(g: Graph, n: int)
    requires
        0 <= n <= g.edges@.len(),
    ensures
        (forall|k: int| 0 <= k < n && (#[trigger] g.edges@[k]).flow_type is MessageFlow ==> {
            let t = g.nodes@[g.edges@[k].from.0 as int].node_type;
            ||| !(t is RealNode)
            ||| t matches NodeType::RealNode { event: BpmnNode::Event(EventType::Message, EventVisual::Throw), .. }
            ||| t matches NodeType::RealNode { event: BpmnNode::Event(EventType::Message, EventVisual::End), .. }
            ||| t matches NodeType::RealNode { event: BpmnNode::Activity(..), .. }
        }) ==> {
            &&& forall|i: int| 0 <= i < message_flow_errors(g, n).len() ==> #[trigger] message_flow_errors(g, n)[i][0].0 != MSG_CANNOT_SEND@
            &&& forall|i: int| 0 <= i < invariant_errors(g, n).len() ==> #[trigger] invariant_errors(g, n)[i].0 != MSG_INVARIANT_CANNOT_SEND@
        },
        forall|k: int| 0 <= k < n && (#[trigger] g.edges@[k]).flow_type is MessageFlow ==> ({
            let t = g.nodes@[g.edges@[k].from.0 as int].node_type;
            t is RealNode
            && !(t matches NodeType::RealNode { event: BpmnNode::Event(EventType::Message, EventVisual::Throw), .. })
            && !(t matches NodeType::RealNode { event: BpmnNode::Event(EventType::Message, EventVisual::End), .. })
            && !(t matches NodeType::RealNode { event: BpmnNode::Activity(..), .. })
        }) ==> {
            &&& message_flow_errors(g, n).contains(single(MSG_CANNOT_SEND@, tc_of(g.nodes@[g.edges@[k].from.0 as int])))
            &&& invariant_errors(g, n).contains((MSG_INVARIANT_CANNOT_SEND@, tc_of(g.nodes@[g.edges@[k].from.0 as int])))
        },
    decreases n,
{
    lemma_message_texts_differ();
    if n > 0 {
        lemma_cannot_send_exactly_for_non_senders(g, n - 1);
        let e = g.edges@[n - 1];
        let prev = message_flow_errors(g, n - 1);
        let cur = message_flow_errors(g, n);
        let iprev = invariant_errors(g, n - 1);
        let icur = invariant_errors(g, n);
        assert(cur == prev + (if e.flow_type is MessageFlow {
            (if can_send(g.nodes@[e.from.0 as int].node_type) { Seq::<Diag>::empty() } else {
                seq![single(MSG_CANNOT_SEND@, tc_of(g.nodes@[e.from.0 as int]))]
            }) + (if can_catch(g.nodes@[e.to.0 as int].node_type) { Seq::<Diag>::empty() } else {
                seq![single(MSG_CANNOT_CATCH@, tc_of(g.nodes@[e.to.0 as int]))]
            })
        } else {
            Seq::<Diag>::empty()
        }));
        assert forall|k: int| 0 <= k < n && (#[trigger] g.edges@[k]).flow_type is MessageFlow && ({
            let t = g.nodes@[g.edges@[k].from.0 as int].node_type;
            t is RealNode
            && !(t matches NodeType::RealNode { event: BpmnNode::Event(EventType::Message, EventVisual::Throw), .. })
            && !(t matches NodeType::RealNode { event: BpmnNode::Event(EventType::Message, EventVisual::End), .. })
            && !(t matches NodeType::RealNode { event: BpmnNode::Activity(..), .. })
        }) implies message_flow_errors(g, n).contains(single(MSG_CANNOT_SEND@, tc_of(g.nodes@[g.edges@[k].from.0 as int])))
            && invariant_errors(g, n).contains((MSG_INVARIANT_CANNOT_SEND@, tc_of(g.nodes@[g.edges@[k].from.0 as int]))) by {
            let d = single(MSG_CANNOT_SEND@, tc_of(g.nodes@[g.edges@[k].from.0 as int]));
            let id = (MSG_INVARIANT_CANNOT_SEND@, tc_of(g.nodes@[g.edges@[k].from.0 as int]));
            if k < n - 1 {
                let j = choose|j: int| 0 <= j < prev.len() && prev[j] == d;
                assert(cur[j] == d);
                let j2 = choose|j2: int| 0 <= j2 < iprev.len() && iprev[j2] == id;
                assert(icur[j2] == id);
            } else {
                assert(!can_send(g.nodes@[e.from.0 as int].node_type));
                assert(cur[prev.len() as int] == d);
                assert(icur[iprev.len() as int] == id);
            }
        }
        if forall|k: int| 0 <= k < n && (#[trigger] g.edges@[k]).flow_type is MessageFlow ==> {
            let t = g.nodes@[g.edges@[k].from.0 as int].node_type;
            ||| !(t is RealNode)
            ||| t matches NodeType::RealNode { event: BpmnNode::Event(EventType::Message, EventVisual::Throw), .. }
            ||| t matches NodeType::RealNode { event: BpmnNode::Event(EventType::Message, EventVisual::End), .. }
            ||| t matches NodeType::RealNode { event: BpmnNode::Activity(..), .. }
        } {
            assert forall|i: int| 0 <= i < cur.len() implies #[trigger] cur[i][0].0 != MSG_CANNOT_SEND@ by {
                if i >= prev.len() {
                    if e.flow_type is MessageFlow {
                        assert(can_send(g.nodes@[e.from.0 as int].node_type));
                    }
                } else {
                    assert(cur[i] == prev[i]);
                }
            }
            assert forall|i: int| 0 <= i < icur.len() implies #[trigger] icur[i].0 != MSG_INVARIANT_CANNOT_SEND@ by {
                if i >= iprev.len() {
                    if e.flow_type is MessageFlow {
                        assert(can_send(g.nodes@[e.from.0 as int].node_type));
                    }
                } else {
                    assert(icur[i] == iprev[i]);
                }
            }
        }
    }
}

} // verus!
