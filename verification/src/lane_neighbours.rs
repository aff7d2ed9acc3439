//! Navigation within a layer: the top and bottom node of a lane in a layer, the nearest lane above
//! or below that has a node in the layer, and linking a new node between two neighbours.
use vstd::prelude::*;
use crate::graph::{lanes_reference_nodes, Graph, Lane, Node, Pool};
use crate::ids::{LaneId, LayerId, NodeId, PoolAndLane, pool_and_lane_lt};

verus! {

/// Scanning a lane's nodes in order up to the first node of a later layer: the first node of
/// `layer` without a neighbour above (`top`) or below (not `top`).
pub open spec fn scan_lane(nodes: Seq<Node>, ids: Seq<NodeId>, layer: LayerId, top: bool) -> Option<NodeId>
    decreases ids.len(),
{
    if ids.len() == 0 {
        None
    } else {
        let n = nodes[ids[0].0 as int];
        if n.layer_id.0 > layer.0 {
            None
        } else if n.layer_id.0 == layer.0 && (if top { n.node_above_in_same_lane is None } else { n.node_below_in_same_lane is None }) {
            Some(ids[0])
        } else {
            scan_lane(nodes, ids.drop_first(), layer, top)
        }
    }
}

/// The lane `pl` exists and lists existing nodes only.
pub open spec fn lane_ok(g: Graph, pl: PoolAndLane) -> bool {
    &&& pl.pool.0 < g.pools@.len()
    &&& pl.lane.0 < g.pools@[pl.pool.0 as int].lanes@.len()
    &&& lanes_reference_nodes(g.pools@, g.nodes@.len() as int)
}

pub open spec fn lane_nodes(g: Graph, pl: PoolAndLane) -> Seq<NodeId> {
    g.pools@[pl.pool.0 as int].lanes@[pl.lane.0 as int].nodes@
}

/// The top (`top`) or bottom node of lane `pl` in `layer`.
pub open spec fn spec_end_node(g: Graph, pl: PoolAndLane, layer: LayerId, top: bool) -> Option<NodeId> {
    scan_lane(g.nodes@, lane_nodes(g, pl), layer, top)
}

/// Scanning the lanes of pool `pool` from `lane - 1` down to `last` (exclusive `lane`): the first
/// with a bottom node in `layer`.
pub open spec fn scan_up(g: Graph, pool: crate::ids::PoolId, lane: int, last: int, layer: LayerId) -> Option<(PoolAndLane, NodeId)>
    decreases lane - last,
{
    if lane <= last {
        None
    } else {
        let pl = PoolAndLane { pool, lane: LaneId((lane - 1) as usize) };
        match spec_end_node(g, pl, layer, false) {
            Some(n) => Some((pl, n)),
            None => scan_up(g, pool, lane - 1, last, layer),
        }
    }
}

/// Scanning the lanes of pool `pool` from `lane + 1` up to `last`: the first with a top node in
/// `layer`.
pub open spec fn scan_down(g: Graph, pool: crate::ids::PoolId, lane: int, last: int, layer: LayerId) -> Option<(PoolAndLane, NodeId)>
    decreases last - lane,
{
    if lane >= last {
        None
    } else {
        let pl = PoolAndLane { pool, lane: LaneId((lane + 1) as usize) };
        match spec_end_node(g, pl, layer, true) {
            Some(n) => Some((pl, n)),
            None => scan_down(g, pool, lane + 1, last, layer),
        }
    }
}

/// The node a scan finds lies in the lane, in the layer, and has no neighbour on the scanned side.
pub proof fn lemma_scan_lane_found(nodes: Seq<Node>, ids: Seq<NodeId>, layer: LayerId, top: bool)
    ensures
        scan_lane(nodes, ids, layer, top) matches Some(n) ==> {
            &&& ids.contains(n)
            &&& nodes[n.0 as int].layer_id.0 == layer.0
            &&& if top { nodes[n.0 as int].node_above_in_same_lane is None } else { nodes[n.0 as int].node_below_in_same_lane is None }
        },
    decreases ids.len(),
{
    if ids.len() > 0 {
        lemma_scan_lane_found(nodes, ids.drop_first(), layer, top);
        if let Some(n) = scan_lane(nodes, ids, layer, top) {
            if n != ids[0] || !(nodes[ids[0].0 as int].layer_id.0 == layer.0) {
                let rest = ids.drop_first();
                if rest.contains(n) {
                    let i = choose|i: int| 0 <= i < rest.len() && rest[i] == n;
                    assert(ids[i + 1] == n);
                }
            } else {
                assert(ids[0] == n);
            }
        }
    }
}

/// A new node of `layer` without neighbours, inserted after nodes of earlier layers only, is what
/// a scan of its lane finds, from either side.
pub proof fn lemma_scan_lane_new_node(nodes: Seq<Node>, ids: Seq<NodeId>, pos: int, d: NodeId, layer: LayerId, top: bool)
    requires
        0 <= pos <= ids.len(),
        forall|j: int| 0 <= j < pos ==> nodes[(#[trigger] ids[j]).0 as int].layer_id.0 < layer.0,
        nodes[d.0 as int].layer_id == layer,
        nodes[d.0 as int].node_above_in_same_lane is None,
        nodes[d.0 as int].node_below_in_same_lane is None,
    ensures
        scan_lane(nodes, ids.insert(pos, d), layer, top) == Some(d),
    decreases pos,
{
    let s = ids.insert(pos, d);
    if pos == 0 {
        assert(s[0] == d);
    } else {
        assert(s[0] == ids[0]);
        assert(s.drop_first() =~= ids.drop_first().insert(pos - 1, d));
        assert forall|j: int| 0 <= j < pos - 1 implies nodes[(#[trigger] ids.drop_first()[j]).0 as int].layer_id.0 < layer.0 by {
            assert(ids.drop_first()[j] == ids[j + 1]);
        }
        lemma_scan_lane_new_node(nodes, ids.drop_first(), pos - 1, d, layer, top);
    }
}

/// Where a new node goes relative to its neighbours in the lane and layer.
#[derive(Debug, Clone, Copy)]
pub enum Place {
    AsOnlyNode,
    Above(NodeId),
    Below(NodeId),
}

impl Graph {
    fn end_node(&self, pool_lane: PoolAndLane, layer: LayerId, top: bool) -> (r: Option<NodeId>)
        requires
            lane_ok(*self, pool_lane),
        ensures
            r == spec_end_node(*self, pool_lane, layer, top),
    {
        let ids = &self.pools[pool_lane.pool.0].lanes[pool_lane.lane.0].nodes;
        let ghost all = ids@;
        let mut i: usize = 0;
        assert(all.skip(0) =~= all);
        while i < ids.len()
            invariant
                lane_ok(*self, pool_lane),
                ids@ == all,
                all == lane_nodes(*self, pool_lane),
                i <= all.len(),
                spec_end_node(*self, pool_lane, layer, top) == scan_lane(self.nodes@, all.skip(i as int), layer, top),
            decreases all.len() - i,
        {
            let id = ids[i];
            assert(all.skip(i as int)[0] == id);
            assert(all.skip(i as int).drop_first() =~= all.skip(i + 1));
            let node = &self.nodes[id.0];
            if node.layer_id.0 > layer.0 {
                return None;
            }
            let free = if top { node.node_above_in_same_lane.is_none() } else { node.node_below_in_same_lane.is_none() };
            if node.layer_id.0 == layer.0 && free {
                return Some(id);
            }
            i = i + 1;
        }
        None
    }

    /// The node of `layer` in lane `pool_lane` that has no node below it, if the lane has nodes
    /// in that layer. The lane's nodes are scanned in order until the first of a later layer.
    pub fn get_bottom_node(&self, pool_lane: PoolAndLane, layer: LayerId) -> (r: Option<NodeId>)
        requires
            lane_ok(*self, pool_lane),
        ensures
            r == spec_end_node(*self, pool_lane, layer, false),
    {
        self.end_node(pool_lane, layer, false)
    }

    /// The node of `layer` in lane `pool_lane` that has no node above it, if the lane has nodes
    /// in that layer.
    pub fn get_top_node(&self, pool_lane: PoolAndLane, layer: LayerId) -> (r: Option<NodeId>)
        requires
            lane_ok(*self, pool_lane),
        ensures
            r == spec_end_node(*self, pool_lane, layer, true),
    {
        self.end_node(pool_lane, layer, true)
    }

    /// The nearest lane above `lane_below_requested_one`, not above `final_pool_lane_to_consider`
    /// (or the pool's first lane, where that lies in another pool), with a bottom node in `layer`,
    /// and that node.
    pub fn get_nextup_higher_node_same_pool(&self, lane_below_requested_one: PoolAndLane,
        final_pool_lane_to_consider: PoolAndLane, layer: LayerId) -> (r: Option<(PoolAndLane, NodeId)>)
        requires
            !pool_and_lane_lt(lane_below_requested_one, final_pool_lane_to_consider),
            lane_ok(*self, lane_below_requested_one),
        ensures
            r == scan_up(*self, lane_below_requested_one.pool, lane_below_requested_one.lane.0 as int,
                if final_pool_lane_to_consider.pool == lane_below_requested_one.pool { final_pool_lane_to_consider.lane.0 as int } else { 0 },
                layer),
    {
        let pool = lane_below_requested_one.pool;
        let last: usize = if final_pool_lane_to_consider.pool.0 == pool.0 { final_pool_lane_to_consider.lane.0 } else { 0 };
        assert(last as int == if final_pool_lane_to_consider.pool == lane_below_requested_one.pool {
            final_pool_lane_to_consider.lane.0 as int
        } else {
            0
        });
        let mut lane: usize = lane_below_requested_one.lane.0;
        while lane > last
            invariant
                lane_ok(*self, lane_below_requested_one),
                pool == lane_below_requested_one.pool,
                last as int == if final_pool_lane_to_consider.pool == lane_below_requested_one.pool {
                    final_pool_lane_to_consider.lane.0 as int
                } else {
                    0
                },
                last <= lane <= lane_below_requested_one.lane.0,
                scan_up(*self, pool, lane_below_requested_one.lane.0 as int, last as int, layer)
                    == scan_up(*self, pool, lane as int, last as int, layer),
            decreases lane,
        {
            lane = lane - 1;
            let pl = PoolAndLane { pool, lane: LaneId(lane) };
            let found = self.get_bottom_node(pl, layer);
            assert(scan_up(*self, pool, lane + 1, last as int, layer) == match found {
                Some(n) => Some((pl, n)),
                None => scan_up(*self, pool, lane as int, last as int, layer),
            });
            if let Some(node_id) = found {
                return Some((pl, node_id));
            }
        }
        None
    }

    /// The nearest lane below `lane_above_requested_one`, not below `final_pool_lane_to_consider`
    /// (or the pool's last lane, where that lies in another pool), with a top node in `layer`, and
    /// that node.
    pub fn get_next_lower_node_same_pool(&self, lane_above_requested_one: PoolAndLane,
        final_pool_lane_to_consider: PoolAndLane, layer: LayerId) -> (r: Option<(PoolAndLane, NodeId)>)
        requires
            !pool_and_lane_lt(final_pool_lane_to_consider, lane_above_requested_one),
            lane_ok(*self, lane_above_requested_one),
            final_pool_lane_to_consider.pool == lane_above_requested_one.pool ==>
                final_pool_lane_to_consider.lane.0 < self.pools@[lane_above_requested_one.pool.0 as int].lanes@.len(),
        ensures
            r == scan_down(*self, lane_above_requested_one.pool, lane_above_requested_one.lane.0 as int,
                if final_pool_lane_to_consider.pool == lane_above_requested_one.pool { final_pool_lane_to_consider.lane.0 as int }
                else { self.pools@[lane_above_requested_one.pool.0 as int].lanes@.len() - 1 },
                layer),
    {
        let pool = lane_above_requested_one.pool;
        let last: usize = if final_pool_lane_to_consider.pool.0 == pool.0 {
            final_pool_lane_to_consider.lane.0
        } else {
            self.pools[pool.0].lanes.len() - 1
        };
        assert(last as int == if final_pool_lane_to_consider.pool == lane_above_requested_one.pool {
            final_pool_lane_to_consider.lane.0 as int
        } else {
            self.pools@[lane_above_requested_one.pool.0 as int].lanes@.len() - 1
        });
        let mut lane: usize = lane_above_requested_one.lane.0;
        while lane < last
            invariant
                lane_ok(*self, lane_above_requested_one),
                pool == lane_above_requested_one.pool,
                last as int == if final_pool_lane_to_consider.pool == lane_above_requested_one.pool {
                    final_pool_lane_to_consider.lane.0 as int
                } else {
                    self.pools@[lane_above_requested_one.pool.0 as int].lanes@.len() - 1
                },
                last < self.pools@[pool.0 as int].lanes@.len(),
                lane_above_requested_one.lane.0 <= lane,
                lane <= last || lane == lane_above_requested_one.lane.0,
                scan_down(*self, pool, lane_above_requested_one.lane.0 as int, last as int, layer)
                    == scan_down(*self, pool, lane as int, last as int, layer),
            decreases last - lane,
        {
            lane = lane + 1;
            let pl = PoolAndLane { pool, lane: LaneId(lane) };
            let found = self.get_top_node(pl, layer);
            assert(scan_down(*self, pool, lane - 1, last as int, layer) == match found {
                Some(n) => Some((pl, n)),
                None => scan_down(*self, pool, lane as int, last as int, layer),
            });
            if let Some(node_id) = found {
                return Some((pl, node_id));
            }
        }
        None
    }
}


/// `a` and `b` are the same node but for the links to their neighbours above and below.
pub open spec fn same_but_links(a: Node, b: Node) -> bool {
    &&& a.id == b.id
    &&& a.node_type == b.node_type
    &&& a.x == b.x && a.y == b.y && a.width == b.width && a.height == b.height
    &&& a.stroke_color == b.stroke_color && a.fill_color == b.fill_color
    &&& a.pool == b.pool && a.lane == b.lane && a.layer_id == b.layer_id
    &&& a.uses_half_layer == b.uses_half_layer
    &&& a.incoming == b.incoming && a.outgoing == b.outgoing
    &&& a.incoming_ports == b.incoming_ports && a.outgoing_ports == b.outgoing_ports
}

/// The neighbours above and below that a node placed at `place` gets.
pub open spec fn neighbours_for(g: Graph, place: Place) -> (Option<NodeId>, Option<NodeId>) {
    match place {
        Place::AsOnlyNode => (None, None),
        Place::Above(r) => (g.nodes@[r.0 as int].node_above_in_same_lane, Some(r)),
        Place::Below(r) => (Some(r), g.nodes@[r.0 as int].node_below_in_same_lane),
    }
}

/// The links between neighbours within a lane go both ways: a node's neighbour above has it as
/// its neighbour below, and the other way round.
pub open spec fn links_consistent(nodes: Seq<Node>) -> bool {
    forall|i: int| 0 <= i < nodes.len() ==> {
        &&& (#[trigger] nodes[i]).node_above_in_same_lane matches Some(a) ==>
            a.0 < nodes.len() && nodes[a.0 as int].node_below_in_same_lane == Some(NodeId(i as usize))
        &&& nodes[i].node_below_in_same_lane matches Some(b) ==>
            b.0 < nodes.len() && nodes[b.0 as int].node_above_in_same_lane == Some(NodeId(i as usize))
    }
}

/// The conditions under which `inbetween` can be linked in at `place`: the nodes exist, a node
/// placed as the only one is the top and bottom node of its lane in its layer, the two new
/// neighbours are linked to each other so far, and neither is `inbetween` itself.
pub open spec fn can_link_in(g: Graph, inbetween: NodeId, place: Place) -> bool {
    let (above, below) = neighbours_for(g, place);
    let n = g.nodes@[inbetween.0 as int];
    let pl = PoolAndLane { pool: n.pool, lane: n.lane };
    &&& inbetween.0 < g.nodes@.len()
    &&& match place {
        Place::AsOnlyNode => lane_ok(g, pl) && spec_end_node(g, pl, n.layer_id, true) == Some(inbetween)
            && spec_end_node(g, pl, n.layer_id, false) == Some(inbetween),
        Place::Above(r) => r.0 < g.nodes@.len(),
        Place::Below(r) => r.0 < g.nodes@.len(),
    }
    &&& above matches Some(a) ==> a.0 < g.nodes@.len() && g.nodes@[a.0 as int].node_below_in_same_lane == below
    &&& below matches Some(b) ==> b.0 < g.nodes@.len() && g.nodes@[b.0 as int].node_above_in_same_lane == above
    &&& above != Some(inbetween)
    &&& below != Some(inbetween)
}

/// Linking a node without neighbours in between two nodes that were neighbours of each other
/// (or at the end of a chain) keeps the links between neighbours going both ways.
proof fn lemma_link_in_keeps_links_consistent(
    n0: Seq<Node>,
    n1: Seq<Node>,
    inbetween: NodeId,
    above: Option<NodeId>,
    below: Option<NodeId>,
)
    requires
        links_consistent(n0),
        n0.len() <= usize::MAX,
        n1.len() == n0.len(),
        inbetween.0 < n0.len(),
        n0[inbetween.0 as int].node_above_in_same_lane is None,
        n0[inbetween.0 as int].node_below_in_same_lane is None,
        above matches Some(a) ==> a.0 < n0.len() && n0[a.0 as int].node_below_in_same_lane == below,
        below matches Some(b) ==> b.0 < n0.len() && n0[b.0 as int].node_above_in_same_lane == above,
        above != Some(inbetween),
        below != Some(inbetween),
        forall|i: int| 0 <= i < n0.len() ==> {
            &&& (#[trigger] n1[i]).node_above_in_same_lane == if i == inbetween.0 {
                above
            } else if below matches Some(b) && b.0 == i {
                Some(inbetween)
            } else {
                n0[i].node_above_in_same_lane
            }
            &&& n1[i].node_below_in_same_lane == if i == inbetween.0 {
                below
            } else if above matches Some(a) && a.0 == i {
                Some(inbetween)
            } else {
                n0[i].node_below_in_same_lane
            }
        },
    ensures
        links_consistent(n1),
{
    assert forall|i: int| 0 <= i < n1.len() implies {
        &&& (#[trigger] n1[i]).node_above_in_same_lane matches Some(x) ==>
            x.0 < n1.len() && n1[x.0 as int].node_below_in_same_lane == Some(NodeId(i as usize))
        &&& n1[i].node_below_in_same_lane matches Some(y) ==>
            y.0 < n1.len() && n1[y.0 as int].node_above_in_same_lane == Some(NodeId(i as usize))
    } by {
        let ni = n0[i];
        let _ = n1[inbetween.0 as int];
        if let Some(a) = above {
            let _ = n1[a.0 as int];
        }
        if let Some(b) = below {
            let _ = n1[b.0 as int];
        }
        if i != inbetween.0 {
            if let Some(x) = ni.node_above_in_same_lane {
                let _ = n0[x.0 as int];
                let _ = n1[x.0 as int];
            }
            if let Some(y) = ni.node_below_in_same_lane {
                let _ = n0[y.0 as int];
                let _ = n1[y.0 as int];
            }
        }
    }
}

/// Adding a node without neighbours keeps the links between neighbours going both ways.
pub proof fn lemma_unlinked_node_keeps_links_consistent(n0: Seq<Node>, n1: Seq<Node>)
    requires
        links_consistent(n0),
        n1.len() == n0.len() + 1,
        n1.len() <= usize::MAX,
        forall|i: int| 0 <= i < n0.len() ==> (#[trigger] n1[i]).node_above_in_same_lane == n0[i].node_above_in_same_lane
            && n1[i].node_below_in_same_lane == n0[i].node_below_in_same_lane,
        n1[n0.len() as int].node_above_in_same_lane is None,
        n1[n0.len() as int].node_below_in_same_lane is None,
    ensures
        links_consistent(n1),
{
    assert forall|i: int| 0 <= i < n1.len() implies {
        &&& (#[trigger] n1[i]).node_above_in_same_lane matches Some(x) ==>
            x.0 < n1.len() && n1[x.0 as int].node_below_in_same_lane == Some(NodeId(i as usize))
        &&& n1[i].node_below_in_same_lane matches Some(y) ==>
            y.0 < n1.len() && n1[y.0 as int].node_above_in_same_lane == Some(NodeId(i as usize))
    } by {
        if i < n0.len() {
            let ni = n0[i];
            if let Some(x) = ni.node_above_in_same_lane {
                let _ = n0[x.0 as int];
                let _ = n1[x.0 as int];
            }
            if let Some(y) = ni.node_below_in_same_lane {
                let _ = n0[y.0 as int];
                let _ = n1[y.0 as int];
            }
        }
    }
}

impl Graph {
    /// Links `inbetween` into the chain of nodes of its lane and layer at `place`: it gets the
    /// neighbours of `neighbours_for`, and they get it as their new neighbour.
    pub fn adjust_above_and_below_for_new_inbetween(&mut self, inbetween: NodeId, place: Place)
        requires
            can_link_in(*old(self), inbetween, place),
        ensures
            final(self).nodes@.len() == old(self).nodes@.len(),
            forall|i: int| 0 <= i < old(self).nodes@.len() ==> {
                let (above, below) = neighbours_for(*old(self), place);
                let (n0, n1) = (old(self).nodes@[i], #[trigger] final(self).nodes@[i]);
                &&& same_but_links(n1, n0)
                &&& n1.node_above_in_same_lane == if i == inbetween.0 {
                    above
                } else if below matches Some(b) && b.0 == i {
                    Some(inbetween)
                } else {
                    n0.node_above_in_same_lane
                }
                &&& n1.node_below_in_same_lane == if i == inbetween.0 {
                    below
                } else if above matches Some(a) && a.0 == i {
                    Some(inbetween)
                } else {
                    n0.node_below_in_same_lane
                }
            },
            final(self).edges == old(self).edges,
            final(self).pools == old(self).pools,
            final(self).data_elements == old(self).data_elements,
            final(self).config == old(self).config,
            final(self).num_layers == old(self).num_layers,
            final(self).pe_bpmd_definitions == old(self).pe_bpmd_definitions,
            links_consistent(old(self).nodes@) && old(self).nodes@[inbetween.0 as int].node_above_in_same_lane is None
                && old(self).nodes@[inbetween.0 as int].node_below_in_same_lane is None
                ==> links_consistent(final(self).nodes@),
    {
        let (above, below) = match place {
            Place::AsOnlyNode => (None, None),
            Place::Above(reference) => (self.nodes[reference.0].node_above_in_same_lane, Some(reference)),
            Place::Below(reference) => (Some(reference), self.nodes[reference.0].node_below_in_same_lane),
        };
        if let Some(a) = above {
            self.nodes[a.0].node_below_in_same_lane = Some(inbetween);
        }
        if let Some(b) = below {
            self.nodes[b.0].node_above_in_same_lane = Some(inbetween);
        }
        self.nodes[inbetween.0].node_above_in_same_lane = above;
        self.nodes[inbetween.0].node_below_in_same_lane = below;
        let len = self.nodes.len();
        proof {
            let (a, b) = neighbours_for(*old(self), place);
            if links_consistent(old(self).nodes@)
                && old(self).nodes@[inbetween.0 as int].node_above_in_same_lane is None
                && old(self).nodes@[inbetween.0 as int].node_below_in_same_lane is None {
                lemma_link_in_keeps_links_consistent(old(self).nodes@, self.nodes@, inbetween, a, b);
            }
        }
    }
}


/// The layers of the nodes of `ids` never decrease.
pub open spec fn sorted_by_layer(nodes: Seq<Node>, ids: Seq<NodeId>) -> bool {
    forall|i: int, j: int| 0 <= i < j < ids.len() ==>
        nodes[(#[trigger] ids[i]).0 as int].layer_id.0 <= nodes[(#[trigger] ids[j]).0 as int].layer_id.0
}

/// `ids` in an order of non-decreasing layers.
fn sort_by_layer(nodes: &Vec<Node>, ids: &Vec<NodeId>) -> (r: Vec<NodeId>)
    requires
        forall|i: int| 0 <= i < ids@.len() ==> (#[trigger] ids@[i]).0 < nodes@.len(),
    ensures
        r@.to_multiset() == ids@.to_multiset(),
        sorted_by_layer(nodes@, r@),
{
    broadcast use vstd::seq_lib::group_to_multiset_ensures;
    let mut sorted: Vec<NodeId> = Vec::new();
    let mut i: usize = 0;
    while i < ids.len()
        invariant
            i <= ids@.len(),
            forall|k: int| 0 <= k < ids@.len() ==> (#[trigger] ids@[k]).0 < nodes@.len(),
            forall|k: int| 0 <= k < sorted@.len() ==> (#[trigger] sorted@[k]).0 < nodes@.len(),
            sorted@.to_multiset() == ids@.take(i as int).to_multiset(),
            sorted_by_layer(nodes@, sorted@),
        decreases ids@.len() - i,
    {
        let x = ids[i];
        let layer = nodes[x.0].layer_id.0;
        let mut j: usize = sorted.len();
        while j > 0 && layer < nodes[sorted[j - 1].0].layer_id.0
            invariant
                j <= sorted@.len(),
                forall|k: int| 0 <= k < sorted@.len() ==> (#[trigger] sorted@[k]).0 < nodes@.len(),
                forall|m: int| j <= m < sorted@.len() ==> layer < nodes@[(#[trigger] sorted@[m]).0 as int].layer_id.0,
            decreases j,
        {
            j = j - 1;
        }
        let ghost before = sorted@;
        sorted.insert(j, x);
        proof {
            assert(ids@.take(i + 1) =~= ids@.take(i as int).push(x));
            assert(sorted@ =~= before.insert(j as int, x));
            vstd::seq_lib::to_multiset_insert(before, j as int, x);
            vstd::seq_lib::to_multiset_build(ids@.take(i as int), x);
            assert forall|a: int, b: int| 0 <= a < b < sorted@.len() implies
                nodes@[(#[trigger] sorted@[a]).0 as int].layer_id.0 <= nodes@[(#[trigger] sorted@[b]).0 as int].layer_id.0 by {
                if j > 0 && a < j as int && b == j as int {
                    assert(nodes@[before[a].0 as int].layer_id.0 <= nodes@[before[j - 1].0 as int].layer_id.0 || a == j - 1);
                }
            }
        }
        i = i + 1;
    }
    assert(ids@.take(ids@.len() as int) =~= ids@);
    sorted
}

/// `a` and `b` are the same lane but for the order of its nodes.
pub open spec fn same_but_node_order(a: Lane, b: Lane) -> bool {
    &&& a.name == b.name && a.tc == b.tc
    &&& a.x == b.x && a.y == b.y && a.width == b.width && a.height == b.height
    &&& a.stroke_color == b.stroke_color && a.fill_color == b.fill_color
    &&& a.nodes@.to_multiset() == b.nodes@.to_multiset()
}

/// `a` and `b` are the same pool but for the order of the nodes of its lanes.
pub open spec fn same_but_lane_order(a: Pool, b: Pool) -> bool {
    &&& a.name == b.name && a.tc == b.tc
    &&& a.is_right_of_the_previous_pool == b.is_right_of_the_previous_pool
    &&& a.x == b.x && a.y == b.y && a.width == b.width && a.height == b.height
    &&& a.stroke_color == b.stroke_color && a.fill_color == b.fill_color
    &&& a.tee_admin_has_pe_bpmd_visibility_a_for == b.tee_admin_has_pe_bpmd_visibility_a_for
    &&& a.tee_admin_has_pe_bpmd_visibility_h_for == b.tee_admin_has_pe_bpmd_visibility_h_for
    &&& a.tee_external_root_access == b.tee_external_root_access
    &&& a.lanes@.len() == b.lanes@.len()
    &&& forall|l: int| 0 <= l < a.lanes@.len() ==> same_but_node_order(#[trigger] a.lanes@[l], b.lanes@[l])
}

impl Graph {
    /// Sorts the nodes of every lane by layer. Nodes of one layer may end up in any order.
    pub fn sort_lanes_by_layer(&mut self)
        requires
            lanes_reference_nodes(old(self).pools@, old(self).nodes@.len() as int),
        ensures
            final(self).pools@.len() == old(self).pools@.len(),
            forall|p: int| 0 <= p < old(self).pools@.len() ==> same_but_lane_order(#[trigger] final(self).pools@[p], old(self).pools@[p]),
            forall|p: int, l: int| 0 <= p < final(self).pools@.len() && 0 <= l < final(self).pools@[p].lanes@.len()
                ==> sorted_by_layer(final(self).nodes@, #[trigger] final(self).pools@[p].lanes@[l].nodes@),
            final(self).nodes == old(self).nodes,
            final(self).edges == old(self).edges,
            final(self).data_elements == old(self).data_elements,
            final(self).config == old(self).config,
            final(self).num_layers == old(self).num_layers,
            final(self).pe_bpmd_definitions == old(self).pe_bpmd_definitions,
    {
        let ghost g0 = *self;
        let mut p: usize = 0;
        while p < self.pools.len()
            invariant
                lanes_reference_nodes(g0.pools@, g0.nodes@.len() as int),
                p <= self.pools@.len(),
                self.pools@.len() == g0.pools@.len(),
                forall|q: int| 0 <= q < g0.pools@.len() ==> same_but_lane_order(#[trigger] self.pools@[q], g0.pools@[q]),
                forall|q: int| p <= q < g0.pools@.len() ==> #[trigger] self.pools@[q] == g0.pools@[q],
                forall|q: int, l: int| 0 <= q < p && 0 <= l < self.pools@[q].lanes@.len()
                    ==> sorted_by_layer(self.nodes@, #[trigger] self.pools@[q].lanes@[l].nodes@),
                self.nodes == g0.nodes,
                self.edges == g0.edges,
                self.data_elements == g0.data_elements,
                self.config == g0.config,
                self.num_layers == g0.num_layers,
                self.pe_bpmd_definitions == g0.pe_bpmd_definitions,
            decreases g0.pools@.len() - p,
        {
            let mut l: usize = 0;
            assert(self.pools@[p as int] == g0.pools@[p as int]);
            while l < self.pools[p].lanes.len()
                invariant
                    lanes_reference_nodes(g0.pools@, g0.nodes@.len() as int),
                    p < self.pools@.len(),
                    l <= self.pools@[p as int].lanes@.len(),
                    self.pools@.len() == g0.pools@.len(),
                    forall|q: int| 0 <= q < g0.pools@.len() ==> same_but_lane_order(#[trigger] self.pools@[q], g0.pools@[q]),
                    forall|q: int| p < q < g0.pools@.len() ==> #[trigger] self.pools@[q] == g0.pools@[q],
                    forall|m: int| l <= m < self.pools@[p as int].lanes@.len() ==>
                        #[trigger] self.pools@[p as int].lanes@[m] == g0.pools@[p as int].lanes@[m],
                    forall|q: int, m: int| 0 <= q < p && 0 <= m < self.pools@[q].lanes@.len()
                        ==> sorted_by_layer(self.nodes@, #[trigger] self.pools@[q].lanes@[m].nodes@),
                    forall|m: int| 0 <= m < l ==> sorted_by_layer(self.nodes@, #[trigger] self.pools@[p as int].lanes@[m].nodes@),
                    self.nodes == g0.nodes,
                    self.edges == g0.edges,
                    self.data_elements == g0.data_elements,
                    self.config == g0.config,
                    self.num_layers == g0.num_layers,
                    self.pe_bpmd_definitions == g0.pe_bpmd_definitions,
                decreases self.pools@[p as int].lanes@.len() - l,
            {
                assert(self.pools@[p as int].lanes@[l as int] == g0.pools@[p as int].lanes@[l as int]);
                assert forall|i: int| 0 <= i < self.pools@[p as int].lanes@[l as int].nodes@.len()
                    implies (#[trigger] self.pools@[p as int].lanes@[l as int].nodes@[i]).0 < self.nodes@.len() by {
                    assert(g0.pools@[p as int].lanes@[l as int].nodes@[i].0 < g0.nodes@.len());
                }
                let sorted = sort_by_layer(&self.nodes, &self.pools[p].lanes[l].nodes);
                let ghost s = sorted@;
                let ghost lanes_before = self.pools@[p as int].lanes@;
                assert(forall|m: int| 0 <= m < l ==> sorted_by_layer(self.nodes@, #[trigger] lanes_before[m].nodes@));
                self.pools[p].lanes[l].nodes = sorted;
                assert forall|m: int| 0 <= m < l implies sorted_by_layer(self.nodes@, #[trigger] self.pools@[p as int].lanes@[m].nodes@) by {
                    assert(self.pools@[p as int].lanes@[m] == lanes_before[m]);
                }
                assert(self.pools@[p as int].lanes@[l as int].nodes@ == s);
                assert(sorted_by_layer(self.nodes@, s));
                l = l + 1;
            }
            assert forall|q: int, m: int| 0 <= q < p + 1 && 0 <= m < self.pools@[q].lanes@.len()
                implies sorted_by_layer(self.nodes@, #[trigger] self.pools@[q].lanes@[m].nodes@) by {
                if q == p {
                    assert(sorted_by_layer(self.nodes@, self.pools@[p as int].lanes@[m].nodes@));
                }
            }
            p = p + 1;
        }
    }
}

} // verus!
