//! Walking through the nodes of one layer from a node or a lane upwards or downwards: along the
//! links to the neighbours above (below) within a lane, then on to the nearest lane above (below)
//! that has nodes in the layer, within one pool or across pools.
use vstd::prelude::*;
use crate::graph::{lanes_reference_nodes, Graph};
use crate::ids::{pool_and_lane_lt, Coord3, LaneId, LayerId, NodeId, PoolAndLane, PoolId};
use crate::lane_neighbours::{lane_ok, scan_down, scan_up, spec_end_node};

verus! {

/// Where a walk starts: after a node, or at a lane of a layer (with its own end node first).
#[derive(Debug, Clone, Copy)]
pub enum StartAt {
    Node(NodeId),
    PoolLane(Coord3),
}

/// The last lane the walk in pool `pl.pool` may enter: `fin` where it lies in that pool, else
/// the pool's first (upwards) or last (downwards) lane.
pub open spec fn last_lane(g: Graph, pl: PoolAndLane, fin: PoolAndLane, down: bool) -> int {
    if fin.pool == pl.pool {
        fin.lane.0 as int
    } else if down {
        g.pools@[pl.pool.0 as int].lanes@.len() - 1
    } else {
        0
    }
}

/// The next lane beyond `pl` (above, or below if `down`) with an end node in `layer`.
pub open spec fn next_lane(g: Graph, pl: PoolAndLane, fin: PoolAndLane, layer: LayerId, down: bool) -> Option<(PoolAndLane, NodeId)> {
    if down {
        scan_down(g, pl.pool, pl.lane.0 as int, last_lane(g, pl, fin, down), layer)
    } else {
        scan_up(g, pl.pool, pl.lane.0 as int, last_lane(g, pl, fin, down), layer)
    }
}

/// The state `(cur, pl)` allows a step: the lane exists (in a pool with lanes), lies on the near
/// side of `fin`, and `cur` exists.
pub open spec fn step_ok(g: Graph, cur: Option<NodeId>, pl: PoolAndLane, fin: PoolAndLane, down: bool) -> bool {
    &&& g.pools@[pl.pool.0 as int].lanes@.len() > 0 ==> {
        &&& lane_ok(g, pl)
        &&& if down { !pool_and_lane_lt(fin, pl) } else { !pool_and_lane_lt(pl, fin) }
        &&& (down && fin.pool == pl.pool) ==> fin.lane.0 < g.pools@[pl.pool.0 as int].lanes@.len()
        &&& cur matches Some(c) ==> c.0 < g.nodes@.len()
    }
    &&& pl.pool.0 < g.pools@.len()
}

/// One step of a walk in state `(cur, pl)`: the next node and the new lane, or `None` where the
/// walk ends. From no node, it goes to the end node of `pl` in `layer` (the bottom one upwards,
/// the top one downwards) or else to that of the next lane with one, but stays at `pl`. From a
/// node, it follows the link above (below) within the lane, or else goes to the next lane.
pub open spec fn step(g: Graph, cur: Option<NodeId>, pl: PoolAndLane, fin: PoolAndLane, layer: LayerId, down: bool) -> Option<(NodeId, PoolAndLane)> {
    if g.pools@[pl.pool.0 as int].lanes@.len() == 0 {
        None
    } else {
        match cur {
            None => match spec_end_node(g, pl, layer, down) {
                Some(n) => Some((n, pl)),
                None => match next_lane(g, pl, fin, layer, down) {
                    Some((_, n)) => Some((n, pl)),
                    None => None,
                },
            },
            Some(c) => match (if down { g.nodes@[c.0 as int].node_below_in_same_lane } else { g.nodes@[c.0 as int].node_above_in_same_lane }) {
                Some(n) => Some((n, pl)),
                None => match next_lane(g, pl, fin, layer, down) {
                    Some((npl, n)) => Some((n, npl)),
                    None => None,
                },
            },
        }
    }
}

/// The nodes a walk from state `(cur, pl)` visits, if every step is allowed and it ends within
/// `fuel` steps.
pub open spec fn walk(g: Graph, cur: Option<NodeId>, pl: PoolAndLane, fin: PoolAndLane, layer: LayerId, down: bool, fuel: nat) -> Option<Seq<NodeId>>
    decreases fuel,
{
    if !step_ok(g, cur, pl, fin, down) {
        None
    } else {
        match step(g, cur, pl, fin, layer, down) {
            None => Some(Seq::empty()),
            Some((n, npl)) => if fuel == 0 {
                None
            } else {
                match walk(g, Some(n), npl, fin, layer, down, (fuel - 1) as nat) {
                    Some(rest) => Some(seq![n] + rest),
                    None => None,
                }
            },
        }
    }
}

/// A walk that ends at all ends within this many steps: there are no more states.
pub open spec fn walk_fuel(g: Graph, pool: PoolId) -> nat {
    ((g.nodes@.len() + 1) * (g.pools@[pool.0 as int].lanes@.len() + 1)) as nat
}

/// The first state of a walk from `start`: no node and its lane, or the node, its lane and layer.
pub open spec fn start_state(g: Graph, start: StartAt) -> (Option<NodeId>, PoolAndLane, LayerId) {
    match start {
        StartAt::Node(id) => {
            let n = g.nodes@[id.0 as int];
            (Some(id), PoolAndLane { pool: n.pool, lane: n.lane }, n.layer_id)
        },
        StartAt::PoolLane(c) => (None, c.pool_and_lane, c.layer),
    }
}

/// The last lane to enter when none is given: the first lane of the first pool upwards, the last
/// lane of the starting pool downwards.
pub open spec fn default_fin(g: Graph, pl: PoolAndLane, fin: Option<PoolAndLane>, down: bool) -> PoolAndLane {
    match fin {
        Some(f) => f,
        None => if down {
            PoolAndLane { pool: pl.pool, lane: LaneId((g.pools@[pl.pool.0 as int].lanes@.len() - 1) as usize) }
        } else {
            PoolAndLane { pool: PoolId(0), lane: LaneId(0) }
        },
    }
}

/// The nodes of a walk within one pool from `start`, if it is allowed and ends.
pub open spec fn pool_walk(g: Graph, start: StartAt, fin: Option<PoolAndLane>, down: bool) -> Option<Seq<NodeId>> {
    let (cur, pl, layer) = start_state(g, start);
    walk(g, cur, pl, default_fin(g, pl, fin, down), layer, down, walk_fuel(g, pl.pool))
}

/// The start is an existing node, or a lane of an existing pool; downwards without a last lane,
/// the starting pool has lanes.
pub open spec fn start_ok(g: Graph, start: StartAt, fin: Option<PoolAndLane>, down: bool) -> bool {
    let (cur, pl, layer) = start_state(g, start);
    &&& start matches StartAt::Node(id) ==> id.0 < g.nodes@.len()
    &&& pl.pool.0 < g.pools@.len()
    &&& (down && fin is None) ==> g.pools@[pl.pool.0 as int].lanes@.len() > 0
}

impl Graph {
    pub(crate) fn walk_step(&self, cur: Option<NodeId>, pl: PoolAndLane, fin: PoolAndLane, layer: LayerId, down: bool) -> (r: Option<(NodeId, PoolAndLane)>)
        requires
            step_ok(*self, cur, pl, fin, down),
        ensures
            r == step(*self, cur, pl, fin, layer, down),
    {
        if self.pools[pl.pool.0].lanes.len() == 0 {
            return None;
        }
        match cur {
            None => {
                let end = if down { self.get_top_node(pl, layer) } else { self.get_bottom_node(pl, layer) };
                assert(end == spec_end_node(*self, pl, layer, down));
                match end {
                    Some(n) => Some((n, pl)),
                    None => {
                        let next = if down {
                            self.get_next_lower_node_same_pool(pl, fin, layer)
                        } else {
                            self.get_nextup_higher_node_same_pool(pl, fin, layer)
                        };
                        assert(next == next_lane(*self, pl, fin, layer, down));
                        match next {
                            Some(found) => Some((found.1, pl)),
                            None => None,
                        }
                    },
                }
            },
            Some(c) => {
                let link = if down {
                    self.nodes[c.0].node_below_in_same_lane
                } else {
                    self.nodes[c.0].node_above_in_same_lane
                };
                match link {
                    Some(n) => Some((n, pl)),
                    None => {
                        let next = if down {
                            self.get_next_lower_node_same_pool(pl, fin, layer)
                        } else {
                            self.get_nextup_higher_node_same_pool(pl, fin, layer)
                        };
                        match next {
                            Some(found) => Some((found.1, found.0)),
                            None => None,
                        }
                    },
                }
            },
        }
    }

    /// The nodes met on a walk within one pool from `start` upwards (or, if `down`, downwards),
    /// not beyond the lane `final_pool_lane_to_consider`.
    fn walk_same_pool(&self, start: StartAt, final_pool_lane_to_consider: Option<PoolAndLane>, down: bool) -> (r: Vec<NodeId>)
        requires
            start_ok(*self, start, final_pool_lane_to_consider, down),
            pool_walk(*self, start, final_pool_lane_to_consider, down) is Some,
        ensures
            r@ == pool_walk(*self, start, final_pool_lane_to_consider, down)->0,
    {
        let (mut cur, mut pl, layer) = match start {
            StartAt::Node(id) => {
                let n = &self.nodes[id.0];
                (Some(id), n.pool_and_lane(), n.layer_id)
            },
            StartAt::PoolLane(c) => (None, c.pool_and_lane, c.layer),
        };
        let fin = match final_pool_lane_to_consider {
            Some(f) => f,
            None => if down {
                PoolAndLane { pool: pl.pool, lane: LaneId(self.pools[pl.pool.0].lanes.len() - 1) }
            } else {
                PoolAndLane::min_value()
            },
        };
        let ghost all = pool_walk(*self, start, final_pool_lane_to_consider, down)->0;
        let ghost mut fuel: nat = walk_fuel(*self, pl.pool);
        let mut out: Vec<NodeId> = Vec::new();
        assert(all =~= out@ + walk(*self, cur, pl, fin, layer, down, fuel)->0);
        loop
            invariant
                walk(*self, cur, pl, fin, layer, down, fuel) is Some,
                all == out@ + walk(*self, cur, pl, fin, layer, down, fuel)->0,
                all == pool_walk(*self, start, final_pool_lane_to_consider, down)->0,
            ensures
                out@ == all,
            decreases fuel,
        {
            let next = self.walk_step(cur, pl, fin, layer, down);
            match next {
                None => {
                    assert(out@ + Seq::<NodeId>::empty() =~= out@);
                    return out;
                },
                Some((n, npl)) => {
                    proof {
                        let rest = walk(*self, Some(n), npl, fin, layer, down, (fuel - 1) as nat)->0;
                        assert(out@.push(n) + rest =~= out@ + (seq![n] + rest));
                        fuel = (fuel - 1) as nat;
                    }
                    out.push(n);
                    cur = Some(n);
                    pl = npl;
                },
            }
        }
    }

    /// The nodes above the start in its layer, within its pool, not above the lane
    /// `final_pool_lane_to_consider` (default: the first lane of the first pool): the chain above
    /// a start node, then lane by lane upwards the chain above each lane's bottom node.
    pub fn iter_upwards_same_pool(&self, start: StartAt, final_pool_lane_to_consider: Option<PoolAndLane>) -> (r: Vec<NodeId>)
        requires
            start_ok(*self, start, final_pool_lane_to_consider, false),
            pool_walk(*self, start, final_pool_lane_to_consider, false) is Some,
        ensures
            r@ == pool_walk(*self, start, final_pool_lane_to_consider, false)->0,
    {
        self.walk_same_pool(start, final_pool_lane_to_consider, false)
    }

    /// The nodes below the start in its layer, within its pool, not below the lane
    /// `final_pool_lane_to_consider` (default: the pool's last lane).
    pub fn iter_downwards_same_pool(&self, start: StartAt, final_pool_lane_to_consider: Option<PoolAndLane>) -> (r: Vec<NodeId>)
        requires
            start_ok(*self, start, final_pool_lane_to_consider, true),
            pool_walk(*self, start, final_pool_lane_to_consider, true) is Some,
        ensures
            r@ == pool_walk(*self, start, final_pool_lane_to_consider, true)->0,
    {
        self.walk_same_pool(start, final_pool_lane_to_consider, true)
    }
}


/// The walk of `pool_walk`, where its start is allowed and the bound on its length fits a `usize`.
pub open spec fn checked_pool_walk(g: Graph, start: StartAt, fin: Option<PoolAndLane>, down: bool) -> Option<Seq<NodeId>> {
    if start_ok(g, start, fin, down) && walk_fuel(g, start_state(g, start).1.pool) <= usize::MAX {
        pool_walk(g, start, fin, down)
    } else {
        None
    }
}

impl Graph {
    fn step_ok_exec(&self, cur: Option<NodeId>, pl: PoolAndLane, fin: PoolAndLane, down: bool) -> (r: bool)
        requires
            lanes_reference_nodes(self.pools@, self.nodes@.len() as int),
        ensures
            r == step_ok(*self, cur, pl, fin, down),
    {
        if pl.pool.0 >= self.pools.len() {
            return false;
        }
        let lanes = self.pools[pl.pool.0].lanes.len();
        if lanes == 0 {
            return true;
        }
        if pl.lane.0 >= lanes {
            return false;
        }
        let ordered = if down { !fin.less_than(&pl) } else { !pl.less_than(&fin) };
        if !ordered {
            return false;
        }
        if down && fin.pool.0 == pl.pool.0 && fin.lane.0 >= lanes {
            return false;
        }
        match cur {
            Some(c) => c.0 < self.nodes.len(),
            None => true,
        }
    }

    /// The nodes of a walk within one pool (see `iter_upwards_same_pool`), or `None` where the
    /// start is not allowed or the walk does not end.
    pub fn try_walk_same_pool(&self, start: StartAt, final_pool_lane_to_consider: Option<PoolAndLane>, down: bool) -> (r: Option<Vec<NodeId>>)
        requires
            lanes_reference_nodes(self.pools@, self.nodes@.len() as int),
        ensures
            match r {
                Some(v) => checked_pool_walk(*self, start, final_pool_lane_to_consider, down) == Some(v@),
                None => checked_pool_walk(*self, start, final_pool_lane_to_consider, down) is None,
            },
    {
        let (mut cur, mut pl, layer) = match start {
            StartAt::Node(id) => {
                if id.0 >= self.nodes.len() {
                    return None;
                }
                let n = &self.nodes[id.0];
                (Some(id), n.pool_and_lane(), n.layer_id)
            },
            StartAt::PoolLane(c) => (None, c.pool_and_lane, c.layer),
        };
        if pl.pool.0 >= self.pools.len() {
            return None;
        }
        let lanes = self.pools[pl.pool.0].lanes.len();
        if down && final_pool_lane_to_consider.is_none() && lanes == 0 {
            return None;
        }
        let n1 = self.nodes.len();
        if n1 == usize::MAX || lanes == usize::MAX {
            proof {
                assert((n1 + 1) * (lanes + 1) > usize::MAX) by (nonlinear_arith)
                    requires
                        n1 == usize::MAX || lanes == usize::MAX,
                        n1 >= 0,
                        lanes >= 0,
                ;
            }
            return None;
        }
        if n1 + 1 > usize::MAX / (lanes + 1) {
            proof {
                assert((n1 + 1) * (lanes + 1) > usize::MAX) by (nonlinear_arith)
                    requires
                        n1 + 1 > (usize::MAX as int) / (lanes + 1),
                        lanes + 1 > 0,
                ;
            }
            return None;
        }
        proof {
            assert((n1 + 1) * (lanes + 1) <= usize::MAX) by (nonlinear_arith)
                requires
                    n1 + 1 <= (usize::MAX as int) / (lanes + 1),
                    lanes + 1 > 0,
            ;
        }
        let mut fuel: usize = (n1 + 1) * (lanes + 1);
        assert(fuel == walk_fuel(*self, pl.pool));
        let fin = match final_pool_lane_to_consider {
            Some(f) => f,
            None => if down {
                PoolAndLane { pool: pl.pool, lane: LaneId(lanes - 1) }
            } else {
                PoolAndLane::min_value()
            },
        };
        let ghost total = pool_walk(*self, start, final_pool_lane_to_consider, down);
        let mut out: Vec<NodeId> = Vec::new();
        loop
            invariant
                lanes_reference_nodes(self.pools@, self.nodes@.len() as int),
                total == pool_walk(*self, start, final_pool_lane_to_consider, down),
                checked_pool_walk(*self, start, final_pool_lane_to_consider, down) == total,
                total == (match walk(*self, cur, pl, fin, layer, down, fuel as nat) {
                    Some(rest) => Some(out@ + rest),
                    None => None::<Seq<NodeId>>,
                }),
            decreases fuel,
        {
            if !self.step_ok_exec(cur, pl, fin, down) {
                return None;
            }
            let next = self.walk_step(cur, pl, fin, layer, down);
            match next {
                None => {
                    assert(out@ + Seq::<NodeId>::empty() =~= out@);
                    return Some(out);
                },
                Some((n, npl)) => {
                    if fuel == 0 {
                        return None;
                    }
                    proof {
                        match walk(*self, Some(n), npl, fin, layer, down, (fuel - 1) as nat) {
                            Some(rest) => {
                                assert(out@.push(n) + rest =~= out@ + (seq![n] + rest));
                            },
                            None => {},
                        }
                    }
                    out.push(n);
                    cur = Some(n);
                    pl = npl;
                    fuel = fuel - 1;
                },
            }
        }
    }
}

/// The walk in pool `q` from its last lane upwards, or nothing for a pool without lanes.
pub open spec fn pool_walk_from_last_lane(g: Graph, q: int, fin: Option<PoolAndLane>, layer: LayerId) -> Option<Seq<NodeId>> {
    let lanes = g.pools@[q].lanes@.len();
    if lanes == 0 {
        Some(Seq::empty())
    } else {
        pool_walk(g, StartAt::PoolLane(Coord3 {
            pool_and_lane: PoolAndLane { pool: PoolId(q as usize), lane: LaneId((lanes - 1) as usize) },
            layer,
            half_layer: false,
        }), fin, false)
    }
}

/// The walk in pool `q` from its first lane downwards, or nothing for a pool without lanes.
pub open spec fn pool_walk_from_first_lane(g: Graph, q: int, fin: Option<PoolAndLane>, layer: LayerId) -> Option<Seq<NodeId>> {
    if g.pools@[q].lanes@.len() == 0 {
        Some(Seq::empty())
    } else {
        pool_walk(g, StartAt::PoolLane(Coord3 {
            pool_and_lane: PoolAndLane { pool: PoolId(q as usize), lane: LaneId(0) },
            layer,
            half_layer: false,
        }), fin, true)
    }
}

/// The upward walks of pools `p - 1` down to `lo`, one after the other.
pub open spec fn up_pools(g: Graph, lo: int, p: int, fin: Option<PoolAndLane>, layer: LayerId) -> Option<Seq<NodeId>>
    decreases p - lo,
{
    if p <= lo {
        Some(Seq::empty())
    } else {
        match (pool_walk_from_last_lane(g, p - 1, fin, layer), up_pools(g, lo, p - 1, fin, layer)) {
            (Some(a), Some(b)) => Some(a + b),
            _ => None,
        }
    }
}

/// The downward walks of pools `p` up to `hi - 1`, one after the other.
pub open spec fn down_pools(g: Graph, p: int, hi: int, fin: Option<PoolAndLane>, layer: LayerId) -> Option<Seq<NodeId>>
    decreases hi - p,
{
    if p >= hi {
        Some(Seq::empty())
    } else {
        match (pool_walk_from_first_lane(g, p, fin, layer), down_pools(g, p + 1, hi, fin, layer)) {
            (Some(a), Some(b)) => Some(a + b),
            _ => None,
        }
    }
}

/// The nodes of a walk from `start` upwards through its pool and then through the pools above,
/// down to the pool of `fin` (or the first pool), each from its last lane.
pub open spec fn all_pools_up(g: Graph, start: StartAt, fin: Option<PoolAndLane>) -> Option<Seq<NodeId>> {
    let (_, pl, layer) = start_state(g, start);
    let lo = match fin { Some(f) => f.pool.0 as int, None => 0 };
    match (pool_walk(g, start, fin, false), up_pools(g, lo, pl.pool.0 as int, fin, layer)) {
        (Some(a), Some(b)) => Some(a + b),
        _ => None,
    }
}

/// The nodes of a walk from `start` downwards through its pool and then through the pools below,
/// up to the pool of `fin` (or the last pool), each from its first lane.
pub open spec fn all_pools_down(g: Graph, start: StartAt, fin: Option<PoolAndLane>) -> Option<Seq<NodeId>> {
    let (_, pl, layer) = start_state(g, start);
    let hi = match fin {
        Some(f) => if f.pool.0 + 1 < g.pools@.len() { f.pool.0 + 1 } else { g.pools@.len() as int },
        None => g.pools@.len() as int,
    };
    match (pool_walk(g, start, fin, true), down_pools(g, pl.pool.0 + 1, hi, fin, layer)) {
        (Some(a), Some(b)) => Some(a + b),
        _ => None,
    }
}

impl Graph {
    /// The nodes above the start in its layer: first within its pool, then in the pools above it,
    /// from the nearest one upwards, not beyond `final_pool_lane_to_consider`.
    pub fn iter_upwards_all_pools(&self, start: StartAt, final_pool_lane_to_consider: Option<PoolAndLane>) -> (r: Vec<NodeId>)
        requires
            start_ok(*self, start, final_pool_lane_to_consider, false),
            all_pools_up(*self, start, final_pool_lane_to_consider) is Some,
        ensures
            r@ == all_pools_up(*self, start, final_pool_lane_to_consider)->0,
    {
        let (first_pool, layer) = match start {
            StartAt::Node(id) => (self.nodes[id.0].pool, self.nodes[id.0].layer_id),
            StartAt::PoolLane(c) => (c.pool_and_lane.pool, c.layer),
        };
        let lo: usize = match final_pool_lane_to_consider {
            Some(f) => f.pool.0,
            None => 0,
        };
        let mut out = self.iter_upwards_same_pool(start, final_pool_lane_to_consider);
        let ghost first = out@;
        let mut p: usize = first_pool.0;
        while p > lo
            invariant
                first_pool.0 < self.pools@.len(),
                p <= first_pool.0,
                up_pools(*self, lo as int, first_pool.0 as int, final_pool_lane_to_consider, layer) is Some,
                up_pools(*self, lo as int, p as int, final_pool_lane_to_consider, layer) is Some,
                up_pools(*self, lo as int, first_pool.0 as int, final_pool_lane_to_consider, layer)->0
                    == (out@ + up_pools(*self, lo as int, p as int, final_pool_lane_to_consider, layer)->0).skip(first.len() as int),
                out@.len() >= first.len(),
                out@.take(first.len() as int) == first,
            decreases p,
        {
            let q = p - 1;
            let lanes = self.pools[q].lanes.len();
            let ghost rest = up_pools(*self, lo as int, q as int, final_pool_lane_to_consider, layer)->0;
            let ghost before = out@;
            if lanes > 0 {
                let start_q = StartAt::PoolLane(Coord3 {
                    pool_and_lane: PoolAndLane { pool: PoolId(q), lane: LaneId(lanes - 1) },
                    layer,
                    half_layer: false,
                });
                let part = self.iter_upwards_same_pool(start_q, final_pool_lane_to_consider);
                let mut k: usize = 0;
                while k < part.len()
                    invariant
                        k <= part@.len(),
                        out@ == before + part@.take(k as int),
                    decreases part@.len() - k,
                {
                    out.push(part[k]);
                    assert(part@.take(k + 1) =~= part@.take(k as int).push(part@[k as int]));
                    k = k + 1;
                }
                assert(part@.take(part@.len() as int) =~= part@);
            }
            proof {
                let here = pool_walk_from_last_lane(*self, q as int, final_pool_lane_to_consider, layer)->0;
                assert(out@ == before + here);
                assert(before + (here + rest) =~= out@ + rest);
                assert(out@.take(first.len() as int) =~= before.take(first.len() as int));
            }
            p = q;
        }
        proof {
            assert(out@ + Seq::<NodeId>::empty() =~= out@);
        }
        assert(out@ =~= first + out@.skip(first.len() as int));
        out
    }

    /// The nodes below the start in its layer: first within its pool, then in the pools below it,
    /// from the nearest one downwards, not beyond the pool of `final_pool_lane_to_consider`.
    pub fn iter_downwards_all_pools(&self, start: StartAt, final_pool_lane_to_consider: Option<PoolAndLane>) -> (r: Vec<NodeId>)
        requires
            start_ok(*self, start, final_pool_lane_to_consider, true),
            all_pools_down(*self, start, final_pool_lane_to_consider) is Some,
        ensures
            r@ == all_pools_down(*self, start, final_pool_lane_to_consider)->0,
    {
        let (first_pool, layer) = match start {
            StartAt::Node(id) => (self.nodes[id.0].pool, self.nodes[id.0].layer_id),
            StartAt::PoolLane(c) => (c.pool_and_lane.pool, c.layer),
        };
        let hi: usize = match final_pool_lane_to_consider {
            Some(f) => if f.pool.0 < self.pools.len() - 1 { f.pool.0 + 1 } else { self.pools.len() },
            None => self.pools.len(),
        };
        let mut out = self.iter_downwards_same_pool(start, final_pool_lane_to_consider);
        let ghost first = out@;
        let ghost lo = first_pool.0 + 1;
        let mut p: usize = first_pool.0 + 1;
        while p < hi
            invariant
                first_pool.0 < self.pools@.len(),
                hi <= self.pools@.len(),
                lo == first_pool.0 + 1,
                lo <= p,
                down_pools(*self, lo, hi as int, final_pool_lane_to_consider, layer) is Some,
                down_pools(*self, p as int, hi as int, final_pool_lane_to_consider, layer) is Some,
                down_pools(*self, lo, hi as int, final_pool_lane_to_consider, layer)->0
                    == (out@ + down_pools(*self, p as int, hi as int, final_pool_lane_to_consider, layer)->0).skip(first.len() as int),
                out@.len() >= first.len(),
                out@.take(first.len() as int) == first,
            decreases hi - p,
        {
            let lanes = self.pools[p].lanes.len();
            let ghost rest = down_pools(*self, p + 1, hi as int, final_pool_lane_to_consider, layer)->0;
            let ghost before = out@;
            if lanes > 0 {
                let start_p = StartAt::PoolLane(Coord3 {
                    pool_and_lane: PoolAndLane { pool: PoolId(p), lane: LaneId(0) },
                    layer,
                    half_layer: false,
                });
                let part = self.iter_downwards_same_pool(start_p, final_pool_lane_to_consider);
                let mut k: usize = 0;
                while k < part.len()
                    invariant
                        k <= part@.len(),
                        out@ == before + part@.take(k as int),
                    decreases part@.len() - k,
                {
                    out.push(part[k]);
                    assert(part@.take(k + 1) =~= part@.take(k as int).push(part@[k as int]));
                    k = k + 1;
                }
                assert(part@.take(part@.len() as int) =~= part@);
            }
            proof {
                let here = pool_walk_from_first_lane(*self, p as int, final_pool_lane_to_consider, layer)->0;
                assert(out@ == before + here);
                assert(before + (here + rest) =~= out@ + rest);
                assert(out@.take(first.len() as int) =~= before.take(first.len() as int));
            }
            p = p + 1;
        }
        proof {
            assert(out@ + Seq::<NodeId>::empty() =~= out@);
        }
        assert(out@ =~= first + out@.skip(first.len() as int));
        out
    }
}

} // verus!
