//! Sequence flows inside a cluster of nodes of one layer that cross lanes: each such flow is
//! reported once, with its upper and its lower end.
use vstd::prelude::*;
use crate::graph::Graph;
use crate::ids::{pool_and_lane_lt, NodeId, PoolAndLane, TokenCoordinate};
use crate::parser::tc_at;
use crate::vecset::VecSet;

verus! {

broadcast use crate::ids::lemma_nodeid_concrete_eq;

/// A flow between two nodes of a cluster that lie in different lanes (or the same lane).
#[derive(Debug, Clone, Copy)]
pub struct SameLayerLaneCrossing {
    pub top_pool_lane: PoolAndLane,
    pub top_tc: TokenCoordinate,
    pub top_node_id: NodeId,
    pub bot_pool_lane: PoolAndLane,
    pub bot_tc: TokenCoordinate,
    pub bot_node_id: NodeId,
}

pub open spec fn key_lt(a: (PoolAndLane, PoolAndLane, NodeId, NodeId), b: (PoolAndLane, PoolAndLane, NodeId, NodeId)) -> bool {
    ||| pool_and_lane_lt(a.0, b.0)
    ||| (a.0 == b.0 && pool_and_lane_lt(a.1, b.1))
    ||| (a.0 == b.0 && a.1 == b.1 && a.2.0 < b.2.0)
    ||| (a.0 == b.0 && a.1 == b.1 && a.2 == b.2 && a.3.0 < b.3.0)
}

pub open spec fn crossing_key(c: SameLayerLaneCrossing) -> (PoolAndLane, PoolAndLane, NodeId, NodeId) {
    (c.top_pool_lane, c.bot_pool_lane, c.top_node_id, c.bot_node_id)
}

impl SameLayerLaneCrossing {
    /// The order of crossings: by upper lane, lower lane, upper node, lower node.
    pub fn less_than(&self, other: &SameLayerLaneCrossing) -> (r: bool)
        ensures
            r == key_lt(crossing_key(*self), crossing_key(*other)),
    {
        let a = (self.top_pool_lane, self.bot_pool_lane, self.top_node_id, self.bot_node_id);
        let b = (other.top_pool_lane, other.bot_pool_lane, other.top_node_id, other.bot_node_id);
        let eq0 = a.0.pool.0 == b.0.pool.0 && a.0.lane.0 == b.0.lane.0;
        let eq1 = a.1.pool.0 == b.1.pool.0 && a.1.lane.0 == b.1.lane.0;
        a.0.less_than(&b.0) || (eq0 && a.1.less_than(&b.1)) || (eq0 && eq1 && a.2.0 < b.2.0)
            || (eq0 && eq1 && a.2.0 == b.2.0 && a.3.0 < b.3.0)
    }
}

pub open spec fn pool_lane_of(g: Graph, n: NodeId) -> PoolAndLane {
    PoolAndLane { pool: g.nodes@[n.0 as int].pool, lane: g.nodes@[n.0 as int].lane }
}

/// The crossing between `node` and the source `other` of one of its incoming flows, the node in
/// the upper lane first.
pub open spec fn crossing(g: Graph, node: NodeId, other: NodeId) -> SameLayerLaneCrossing {
    let pa = pool_lane_of(g, node);
    let pb = pool_lane_of(g, other);
    if pool_and_lane_lt(pa, pb) {
        SameLayerLaneCrossing { top_pool_lane: pa, top_tc: tc_at(g, node.0 as int), top_node_id: node,
            bot_pool_lane: pb, bot_tc: tc_at(g, other.0 as int), bot_node_id: other }
    } else {
        SameLayerLaneCrossing { bot_pool_lane: pa, bot_tc: tc_at(g, node.0 as int), bot_node_id: node,
            top_pool_lane: pb, top_tc: tc_at(g, other.0 as int), top_node_id: other }
    }
}

/// The crossings found at `node`: its incoming flows from nodes of the same pool in the cluster.
pub open spec fn node_crossings(g: Graph, cluster: Seq<NodeId>, node: NodeId) -> Seq<SameLayerLaneCrossing> {
    g.nodes@[node.0 as int].incoming@.filter_map(crossing_of(g, cluster, node))
}

pub open spec fn crossing_of(g: Graph, cluster: Seq<NodeId>, node: NodeId) -> spec_fn(crate::ids::EdgeId) -> Option<SameLayerLaneCrossing> {
    |e: crate::ids::EdgeId| {
        let other = g.edges@[e.0 as int].from;
        if g.nodes@[other.0 as int].pool == g.nodes@[node.0 as int].pool && cluster.contains(other) {
            Some(crossing(g, node, other))
        } else {
            None
        }
    }
}

/// The crossings of the cluster, node by node in the cluster's order.
pub open spec fn all_crossings(g: Graph, cluster: Seq<NodeId>, nodes: Seq<NodeId>) -> Seq<SameLayerLaneCrossing>
    decreases nodes.len(),
{
    if nodes.len() == 0 {
        Seq::empty()
    } else {
        all_crossings(g, cluster, nodes.drop_last()) + node_crossings(g, cluster, nodes.last())
    }
}

/// The cluster's nodes are real nodes whose ids are their positions; their incoming edges exist,
/// and so do the sources of those edges.
pub open spec fn cluster_ok(g: Graph, cluster: Seq<NodeId>) -> bool {
    &&& forall|i: int| 0 <= i < g.nodes@.len() ==> (#[trigger] g.nodes@[i]).id.0 == i
    &&& forall|k: int| 0 <= k < cluster.len() ==> {
        let n = #[trigger] cluster[k];
        &&& n.0 < g.nodes@.len()
        &&& g.nodes@[n.0 as int].node_type is RealNode
        &&& forall|j: int| 0 <= j < g.nodes@[n.0 as int].incoming@.len() ==> {
            let e = #[trigger] g.nodes@[n.0 as int].incoming@[j];
            e.0 < g.edges@.len() && g.edges@[e.0 as int].from.0 < g.nodes@.len()
        }
    }
}

/// The flows within one pool between nodes of the cluster, each reported once (at its target),
/// with the end in the upper lane as `top`.
pub fn same_layer_lane_crossings_within_cluster(graph: &Graph, cluster: &VecSet<NodeId>) -> (r: Vec<SameLayerLaneCrossing>)
    requires
        cluster_ok(*graph, cluster.elems()),
    ensures
        r@ == all_crossings(*graph, cluster.elems(), cluster.elems()),
{
    let nodes = cluster.iter();
    let ghost cl = cluster.elems();
    let mut r: Vec<SameLayerLaneCrossing> = Vec::new();
    let mut i: usize = 0;
    while i < nodes.len()
        invariant
            0 <= i <= nodes@.len(),
            nodes@ == cl,
            cl == cluster.elems(),
            cluster_ok(*graph, cl),
            r@ == all_crossings(*graph, cl, cl.take(i as int)),
        decreases nodes@.len() - i,
    {
        let node_id = nodes[i];
        assert(cl[i as int] == node_id);
        let node = &graph.nodes[node_id.0];
        let ghost before = r@;
        let ghost inc = node.incoming@;
        assert(inc.take(0) =~= Seq::<crate::ids::EdgeId>::empty());
        assert(before =~= before + inc.take(0).filter_map(crossing_of(*graph, cl, node_id)));
        let mut j: usize = 0;
        while j < node.incoming.len()
            invariant
                0 <= j <= inc.len(),
                inc == node.incoming@,
                node == graph.nodes@[node_id.0 as int],
                node_id.0 < graph.nodes@.len(),
                cl == cluster.elems(),
                cluster_ok(*graph, cl),
                cl.contains(node_id),
                r@ == before + inc.take(j as int).filter_map(crossing_of(*graph, cl, node_id)),
            decreases inc.len() - j,
        {
            let e = node.incoming[j];
            proof {
                let k = choose|k: int| 0 <= k < cl.len() && cl[k] == node_id;
                assert(cl[k] == node_id);
            }
            let from = graph.edges[e.0].from;
            let other = &graph.nodes[from.0];
            let other_id = other.id;
            assert(other_id == from);
            assert(inc.take(j + 1).drop_last() =~= inc.take(j as int));
            assert(inc.take(j + 1).last() == e);
            if other.pool.0 == node.pool.0 && cluster.contains(&other_id) {
                let pa = node.pool_and_lane();
                let pb = other.pool_and_lane();
                let c = if pa.less_than(&pb) {
                    SameLayerLaneCrossing { top_pool_lane: pa, top_tc: node.tc(), top_node_id: node.id,
                        bot_pool_lane: pb, bot_tc: other.tc(), bot_node_id: other_id }
                } else {
                    SameLayerLaneCrossing { bot_pool_lane: pa, bot_tc: node.tc(), bot_node_id: node.id,
                        top_pool_lane: pb, top_tc: other.tc(), top_node_id: other_id }
                };
                r.push(c);
            }
            j = j + 1;
        }
        assert(inc.take(j as int) =~= inc);
        assert(cl.take(i + 1).drop_last() =~= cl.take(i as int));
        assert(cl.take(i + 1).last() == node_id);
        i = i + 1;
    }
    assert(cl.take(i as int) =~= cl);
    r
}

} // verus!
