//! Orders the incoming and outgoing edges of every node by where their other end lies, so that
//! ports can later be handed out from top to bottom without crossings at the node.
use vstd::prelude::*;
use crate::graph::{spec_is_blackbox, Graph, Node};
use crate::ids::EdgeId;

verus! {

/// How many steps lead up the `node_above_in_same_lane` chain from node `id` to its top, if the
/// chain ends within `fuel` nodes without leaving `nodes`.
pub open spec fn chain_rank(nodes: Seq<Node>, id: int, fuel: nat) -> Option<nat>
    decreases fuel,
{
    if fuel == 0 || !(0 <= id < nodes.len()) {
        None
    } else {
        match nodes[id].node_above_in_same_lane {
            None => Some(0nat),
            Some(above) => match chain_rank(nodes, above.0 as int, (fuel - 1) as nat) {
                Some(r) => Some(r + 1),
                None => None,
            },
        }
    }
}

/// The rank of a node within its lane and layer: the number of nodes above it. `None` where the
/// chain of nodes above it does not end (a cycle) or points outside the graph.
pub open spec fn rank_of(nodes: Seq<Node>, id: int) -> Option<nat> {
    chain_rank(nodes, id, nodes.len())
}

proof fn lemma_chain_rank_below_fuel(nodes: Seq<Node>, id: int, fuel: nat)
    ensures
        chain_rank(nodes, id, fuel) matches Some(r) ==> r < fuel,
    decreases fuel,
{
    if fuel > 0 && 0 <= id < nodes.len() {
        if let Some(above) = nodes[id].node_above_in_same_lane {
            lemma_chain_rank_below_fuel(nodes, above.0 as int, (fuel - 1) as nat);
        }
    }
}

/// Counts the nodes above node `id` in its lane and layer.
fn rank_within_lane(nodes: &Vec<Node>, id: usize) -> (r: usize)
    requires
        rank_of(nodes@, id as int) is Some,
    ensures
        r == rank_of(nodes@, id as int)->0,
{
    let ghost total: nat = rank_of(nodes@, id as int)->0;
    let ghost mut fuel: nat = nodes@.len() as nat;
    proof {
        lemma_chain_rank_below_fuel(nodes@, id as int, fuel);
    }
    let len = nodes.len();
    let mut rank: usize = 0;
    let mut cur: usize = id;
    loop
        invariant
            chain_rank(nodes@, cur as int, fuel) == Some((total - rank) as nat),
            rank <= total,
            total == rank_of(nodes@, id as int)->0,
            total < nodes@.len(),
            len == nodes@.len(),
            fuel <= nodes@.len(),
        ensures
            rank == total,
        decreases fuel,
    {
        proof {
            reveal_with_fuel(chain_rank, 1);
            assert(fuel > 0);
        }
        match nodes[cur].node_above_in_same_lane {
            None => {
                assert(chain_rank(nodes@, cur as int, fuel) == Some(0nat));
                break;
            },
            Some(above) => {
                proof {
                    let up = chain_rank(nodes@, above.0 as int, (fuel - 1) as nat);
                    assert(up is Some);
                    assert(chain_rank(nodes@, cur as int, fuel) == Some(up->0 + 1));
                    assert(rank < total);
                    fuel = (fuel - 1) as nat;
                }
                rank = rank + 1;
                cur = above.0;
            },
        }
    }
    rank
}

/// A sort key: a group and four tie breakers, compared lexicographically.
pub type Key = (i128, i128, i128, i128, i128);

/// Strict lexicographic order of keys.
pub open spec fn key_lt(a: Key, b: Key) -> bool {
    ||| a.0 < b.0
    ||| a.0 == b.0 && a.1 < b.1
    ||| a.0 == b.0 && a.1 == b.1 && a.2 < b.2
    ||| a.0 == b.0 && a.1 == b.1 && a.2 == b.2 && a.3 < b.3
    ||| a.0 == b.0 && a.1 == b.1 && a.2 == b.2 && a.3 == b.3 && a.4 < b.4
}

fn exec_key_lt(a: Key, b: Key) -> (r: bool)
    ensures
        r == key_lt(a, b),
{
    if a.0 != b.0 {
        a.0 < b.0
    } else if a.1 != b.1 {
        a.1 < b.1
    } else if a.2 != b.2 {
        a.2 < b.2
    } else if a.3 != b.3 {
        a.3 < b.3
    } else {
        a.4 < b.4
    }
}

/// Whether (lane, rank) of `a` comes before that of `b`.
pub open spec fn lane_rank_lt(a_lane: usize, a_rank: nat, b_lane: usize, b_rank: nat) -> bool {
    a_lane < b_lane || (a_lane == b_lane && a_rank < b_rank)
}

/// The place of an incoming edge from `f` (rank `fr`) into `t` (rank `tr`), in this order: loops
/// from above within the layer, message flows from pools above that start right of or at the
/// node, then those from pools above on the left, sequence and data flows from the layer before,
/// message flows from pools below on the left, then those from below on the right, and loops
/// from below within the layer. `None` where no group fits: an edge within the pool that comes
/// from a later layer or from the node's own slot, or one that skips a layer.
pub open spec fn incoming_key(f: Node, t: Node, fr: nat, tr: nat) -> Option<Key> {
    let (fp, fl, fla) = (f.pool.0 as int, f.layer_id.0 as int, f.lane.0 as int);
    let (tp, tl) = (t.pool.0 as int, t.layer_id.0 as int);
    if fp == tp && fl == tl && lane_rank_lt(f.lane.0, fr, t.lane.0, tr) {
        Some((1, 0, 0, (-fla) as i128, (-fr) as i128))
    } else if fp < tp && fl >= tl {
        Some((2, (-fp) as i128, (-fl) as i128, fla as i128, fr as i128))
    } else if fp < tp && fl < tl {
        Some((3, fp as i128, (-fl) as i128, fla as i128, fr as i128))
    } else if fp == tp && fl < tl {
        if tl == fl + 1 {
            Some((4, 0, 0, fla as i128, fr as i128))
        } else {
            None
        }
    } else if fp > tp && fl < tl {
        Some((5, fp as i128, fl as i128, fla as i128, fr as i128))
    } else if fp > tp && fl >= tl {
        Some((6, (-fp) as i128, fl as i128, fla as i128, fr as i128))
    } else if fp == tp && fl == tl && lane_rank_lt(t.lane.0, tr, f.lane.0, fr) {
        Some((7, 0, 0, (-fla) as i128, (-fr) as i128))
    } else {
        None
    }
}

/// The place of an outgoing edge from `f` (rank `fr`) to `t` (rank `tr`), in this order: loops
/// upwards within the layer, message flows to pools above, sequence and data flows to the next
/// layer, message flows to pools below, and loops downwards within the layer. `None` where no
/// group fits.
pub open spec fn outgoing_key(f: Node, t: Node, fr: nat, tr: nat) -> Option<Key> {
    let (fp, fl) = (f.pool.0 as int, f.layer_id.0 as int);
    let (tp, tl, tla) = (t.pool.0 as int, t.layer_id.0 as int, t.lane.0 as int);
    if fp == tp && fl == tl && lane_rank_lt(t.lane.0, tr, f.lane.0, fr) {
        Some((1, 0, 0, (-tla) as i128, (-tr) as i128))
    } else if tp < fp {
        Some((3, tl as i128, tp as i128, tla as i128, tr as i128))
    } else if tp == fp && tl > fl {
        if tl == fl + 1 {
            Some((4, 0, 0, tla as i128, tr as i128))
        } else {
            None
        }
    } else if tp > fp {
        Some((5, (-tl) as i128, tp as i128, tla as i128, tr as i128))
    } else if fp == tp && fl == tl && lane_rank_lt(f.lane.0, fr, t.lane.0, tr) {
        Some((7, 0, 0, (-tla) as i128, (-tr) as i128))
    } else {
        None
    }
}

/// The ends of edge `e` exist and both have a rank.
pub open spec fn ends_ranked(g: Graph, e: EdgeId) -> bool {
    &&& e.0 < g.edges@.len()
    &&& g.edges@[e.0 as int].from.0 < g.nodes@.len()
    &&& g.edges@[e.0 as int].to.0 < g.nodes@.len()
    &&& rank_of(g.nodes@, g.edges@[e.0 as int].from.0 as int) is Some
    &&& rank_of(g.nodes@, g.edges@[e.0 as int].to.0 as int) is Some
}

/// The key of `e` as an incoming edge, where its ends exist and are ranked.
pub open spec fn incoming_key_of(g: Graph, e: EdgeId) -> Option<Key> {
    if ends_ranked(g, e) {
        let edge = g.edges@[e.0 as int];
        incoming_key(g.nodes@[edge.from.0 as int], g.nodes@[edge.to.0 as int],
            rank_of(g.nodes@, edge.from.0 as int)->0, rank_of(g.nodes@, edge.to.0 as int)->0)
    } else {
        None
    }
}

/// The key of `e` as an outgoing edge, where its ends exist and are ranked.
pub open spec fn outgoing_key_of(g: Graph, e: EdgeId) -> Option<Key> {
    if ends_ranked(g, e) {
        let edge = g.edges@[e.0 as int];
        outgoing_key(g.nodes@[edge.from.0 as int], g.nodes@[edge.to.0 as int],
            rank_of(g.nodes@, edge.from.0 as int)->0, rank_of(g.nodes@, edge.to.0 as int)->0)
    } else {
        None
    }
}

/// Inserts `x` behind the last element whose key is not greater than its own.
pub open spec fn insert_sorted(s: Seq<(Key, EdgeId)>, x: (Key, EdgeId)) -> Seq<(Key, EdgeId)>
    decreases s.len(),
{
    if s.len() == 0 {
        seq![x]
    } else if key_lt(x.0, s.last().0) {
        insert_sorted(s.drop_last(), x).push(s.last())
    } else {
        s.push(x)
    }
}

/// Stable sort by key: elements with equal keys keep their order.
pub open spec fn sort_by_key(s: Seq<(Key, EdgeId)>) -> Seq<(Key, EdgeId)>
    decreases s.len(),
{
    if s.len() == 0 {
        s
    } else {
        insert_sorted(sort_by_key(s.drop_last()), s.last())
    }
}

/// `ids` paired with the keys that `key` gives them.
pub open spec fn keyed(ids: Seq<EdgeId>, key: spec_fn(EdgeId) -> Option<Key>) -> Seq<(Key, EdgeId)> {
    ids.map_values(|e: EdgeId| (key(e)->0, e))
}

/// The ids of `ids` in the order of a stable sort by `key`.
pub open spec fn sorted_ids(ids: Seq<EdgeId>, key: spec_fn(EdgeId) -> Option<Key>) -> Seq<EdgeId> {
    sort_by_key(keyed(ids, key)).map_values(|p: (Key, EdgeId)| p.1)
}

/// Every edge of a node (but a black box) with more than one edge on a side has a key on that
/// side.
pub open spec fn all_edges_have_keys(g: Graph) -> bool {
    forall|i: int| #![trigger g.nodes@[i]] 0 <= i < g.nodes@.len() && !spec_is_blackbox(g.nodes@[i].node_type) ==> {
        &&& g.nodes@[i].incoming@.len() > 1 ==> forall|k: int| 0 <= k < g.nodes@[i].incoming@.len()
            ==> (#[trigger] incoming_key_of(g, g.nodes@[i].incoming@[k])) is Some
        &&& g.nodes@[i].outgoing@.len() > 1 ==> forall|k: int| 0 <= k < g.nodes@[i].outgoing@.len()
            ==> (#[trigger] outgoing_key_of(g, g.nodes@[i].outgoing@[k])) is Some
    }
}

/// Where `x` goes: behind the last element of `s` whose key is not greater.
proof fn lemma_insert_sorted_at(s: Seq<(Key, EdgeId)>, x: (Key, EdgeId), k: int)
    requires
        0 <= k <= s.len(),
        forall|m: int| k <= m < s.len() ==> key_lt(x.0, #[trigger] s[m].0),
        k == 0 || !key_lt(x.0, s[k - 1].0),
    ensures
        insert_sorted(s, x) == s.take(k).push(x) + s.skip(k),
    decreases s.len(),
{
    if s.len() == 0 {
        assert(s.take(k).push(x) + s.skip(k) =~= seq![x]);
    } else if k == s.len() {
        assert(s.take(k) =~= s);
        assert(s.take(k).push(x) + s.skip(k) =~= s.push(x));
    } else {
        assert(key_lt(x.0, s[s.len() - 1].0));
        let t = s.drop_last();
        assert forall|m: int| k <= m < t.len() implies key_lt(x.0, #[trigger] t[m].0) by {
            assert(t[m] == s[m]);
        }
        if k > 0 {
            assert(t[k - 1] == s[k - 1]);
        }
        lemma_insert_sorted_at(t, x, k);
        assert(t.take(k) =~= s.take(k));
        assert((t.take(k).push(x) + t.skip(k)).push(s.last()) =~= s.take(k).push(x) + s.skip(k));
    }
}

/// Sorts `ids` stably by the keys `keys`, which pair with them by position.
fn sort_ids_by_keys(ids: &Vec<EdgeId>, keys: &Vec<Key>) -> (r: Vec<EdgeId>)
    requires
        keys@.len() == ids@.len(),
    ensures
        r@ == sort_by_key(keys@.zip_with(ids@)).map_values(|p: (Key, EdgeId)| p.1),
{
    let ghost pairs = keys@.zip_with(ids@);
    let mut sorted: Vec<(Key, EdgeId)> = Vec::new();
    let mut i: usize = 0;
    while i < ids.len()
        invariant
            keys@.len() == ids@.len(),
            pairs == keys@.zip_with(ids@),
            i <= ids@.len(),
            sorted@ == sort_by_key(pairs.take(i as int)),
        decreases ids@.len() - i,
    {
        let x = (keys[i], ids[i]);
        assert(x == pairs[i as int]);
        let mut j: usize = sorted.len();
        while j > 0 && exec_key_lt(x.0, sorted[j - 1].0)
            invariant
                j <= sorted@.len(),
                forall|m: int| j <= m < sorted@.len() ==> key_lt(x.0, #[trigger] sorted@[m].0),
            decreases j,
        {
            j = j - 1;
        }
        proof {
            lemma_insert_sorted_at(sorted@, x, j as int);
            assert(pairs.take(i + 1).drop_last() =~= pairs.take(i as int));
            assert(pairs.take(i + 1).last() == x);
        }
        sorted.insert(j, x);
        assert(sorted@ =~= sort_by_key(pairs.take(i + 1)));
        i = i + 1;
    }
    assert(pairs.take(ids@.len() as int) =~= pairs);
    let mut r: Vec<EdgeId> = Vec::new();
    let mut k: usize = 0;
    while k < sorted.len()
        invariant
            k <= sorted@.len(),
            r@ == sorted@.take(k as int).map_values(|p: (Key, EdgeId)| p.1),
        decreases sorted@.len() - k,
    {
        r.push(sorted[k].1);
        assert(sorted@.take(k + 1).map_values(|p: (Key, EdgeId)| p.1)
            =~= sorted@.take(k as int).map_values(|p: (Key, EdgeId)| p.1).push(sorted@[k as int].1));
        k = k + 1;
    }
    assert(sorted@.take(sorted@.len() as int) =~= sorted@);
    r
}


fn incoming_key_exec(f: &Node, t: &Node, fr: usize, tr: usize) -> (r: Option<Key>)
    ensures
        r == incoming_key(*f, *t, fr as nat, tr as nat),
{
    let (fp, fl, fla) = (f.pool.0, f.layer_id.0, f.lane.0);
    let (tp, tl) = (t.pool.0, t.layer_id.0);
    let below = f.lane.0 < t.lane.0 || (f.lane.0 == t.lane.0 && fr < tr);
    let above = t.lane.0 < f.lane.0 || (t.lane.0 == f.lane.0 && tr < fr);
    if fp == tp && fl == tl && below {
        Some((1, 0, 0, -(fla as i128), -(fr as i128)))
    } else if fp < tp && fl >= tl {
        Some((2, -(fp as i128), -(fl as i128), fla as i128, fr as i128))
    } else if fp < tp && fl < tl {
        Some((3, fp as i128, -(fl as i128), fla as i128, fr as i128))
    } else if fp == tp && fl < tl {
        if tl - fl == 1 {
            Some((4, 0, 0, fla as i128, fr as i128))
        } else {
            None
        }
    } else if fp > tp && fl < tl {
        Some((5, fp as i128, fl as i128, fla as i128, fr as i128))
    } else if fp > tp && fl >= tl {
        Some((6, -(fp as i128), fl as i128, fla as i128, fr as i128))
    } else if fp == tp && fl == tl && above {
        Some((7, 0, 0, -(fla as i128), -(fr as i128)))
    } else {
        None
    }
}

fn outgoing_key_exec(f: &Node, t: &Node, fr: usize, tr: usize) -> (r: Option<Key>)
    ensures
        r == outgoing_key(*f, *t, fr as nat, tr as nat),
{
    let (fp, fl) = (f.pool.0, f.layer_id.0);
    let (tp, tl, tla) = (t.pool.0, t.layer_id.0, t.lane.0);
    let up = t.lane.0 < f.lane.0 || (t.lane.0 == f.lane.0 && tr < fr);
    let down = f.lane.0 < t.lane.0 || (f.lane.0 == t.lane.0 && fr < tr);
    if fp == tp && fl == tl && up {
        Some((1, 0, 0, -(tla as i128), -(tr as i128)))
    } else if tp < fp {
        Some((3, tl as i128, tp as i128, tla as i128, tr as i128))
    } else if tp == fp && tl > fl {
        if tl - fl == 1 {
            Some((4, 0, 0, tla as i128, tr as i128))
        } else {
            None
        }
    } else if tp > fp {
        Some((5, -(tl as i128), tp as i128, tla as i128, tr as i128))
    } else if fp == tp && fl == tl && down {
        Some((7, 0, 0, -(tla as i128), -(tr as i128)))
    } else {
        None
    }
}


/// `a` and `b` are the same node but for the order of their edge lists.
pub open spec fn same_but_edge_order(a: Node, b: Node) -> bool {
    &&& a.id == b.id
    &&& a.node_type == b.node_type
    &&& a.x == b.x && a.y == b.y && a.width == b.width && a.height == b.height
    &&& a.stroke_color == b.stroke_color && a.fill_color == b.fill_color
    &&& a.pool == b.pool && a.lane == b.lane && a.layer_id == b.layer_id
    &&& a.uses_half_layer == b.uses_half_layer
    &&& a.node_above_in_same_lane == b.node_above_in_same_lane
    &&& a.node_below_in_same_lane == b.node_below_in_same_lane
    &&& a.incoming_ports == b.incoming_ports && a.outgoing_ports == b.outgoing_ports
}

/// What sorting does to node `n` of graph `g`: each side with more than one edge is sorted by
/// its key, stably; black boxes keep their order.
pub open spec fn sorted_node(g: Graph, n: Node) -> (Seq<EdgeId>, Seq<EdgeId>) {
    if spec_is_blackbox(n.node_type) {
        (n.incoming@, n.outgoing@)
    } else {
    (
        if n.incoming@.len() > 1 { sorted_ids(n.incoming@, |e: EdgeId| incoming_key_of(g, e)) } else { n.incoming@ },
        if n.outgoing@.len() > 1 { sorted_ids(n.outgoing@, |e: EdgeId| outgoing_key_of(g, e)) } else { n.outgoing@ },
    )
    }
}

proof fn lemma_chain_rank_same(a: Seq<Node>, b: Seq<Node>, id: int, fuel: nat)
    requires
        a.len() == b.len(),
        forall|j: int| 0 <= j < a.len() ==> same_but_edge_order(#[trigger] a[j], b[j]),
    ensures
        chain_rank(a, id, fuel) == chain_rank(b, id, fuel),
    decreases fuel,
{
    if fuel > 0 && 0 <= id < a.len() {
        assert(same_but_edge_order(a[id], b[id]));
        if let Some(above) = a[id].node_above_in_same_lane {
            lemma_chain_rank_same(a, b, above.0 as int, (fuel - 1) as nat);
        }
    }
}

/// Reordering edge lists changes no key.
proof fn lemma_keys_same(a: Graph, b: Graph)
    requires
        a.edges == b.edges,
        a.nodes@.len() == b.nodes@.len(),
        forall|j: int| 0 <= j < a.nodes@.len() ==> same_but_edge_order(#[trigger] a.nodes@[j], b.nodes@[j]),
    ensures
        forall|e: EdgeId| #[trigger] incoming_key_of(a, e) == incoming_key_of(b, e),
        forall|e: EdgeId| #[trigger] outgoing_key_of(a, e) == outgoing_key_of(b, e),
{
    assert forall|e: EdgeId| #[trigger] incoming_key_of(a, e) == incoming_key_of(b, e) by {
        lemma_ends_same(a, b, e);
    }
    assert forall|e: EdgeId| #[trigger] outgoing_key_of(a, e) == outgoing_key_of(b, e) by {
        lemma_ends_same(a, b, e);
    }
}

proof fn lemma_ends_same(a: Graph, b: Graph, e: EdgeId)
    requires
        a.edges == b.edges,
        a.nodes@.len() == b.nodes@.len(),
        forall|j: int| 0 <= j < a.nodes@.len() ==> same_but_edge_order(#[trigger] a.nodes@[j], b.nodes@[j]),
    ensures
        incoming_key_of(a, e) == incoming_key_of(b, e),
        outgoing_key_of(a, e) == outgoing_key_of(b, e),
{
    if e.0 < a.edges@.len() {
        let edge = a.edges@[e.0 as int];
        lemma_chain_rank_same(a.nodes@, b.nodes@, edge.from.0 as int, a.nodes@.len() as nat);
        lemma_chain_rank_same(a.nodes@, b.nodes@, edge.to.0 as int, a.nodes@.len() as nat);
        if edge.from.0 < a.nodes@.len() {
            assert(same_but_edge_order(a.nodes@[edge.from.0 as int], b.nodes@[edge.from.0 as int]));
        }
        if edge.to.0 < a.nodes@.len() {
            assert(same_but_edge_order(a.nodes@[edge.to.0 as int], b.nodes@[edge.to.0 as int]));
        }
    }
}

/// The keys of `ids` on one side (`incoming` or not), in order.
fn keys_of(graph: &Graph, ids: &Vec<EdgeId>, incoming: bool) -> (r: Vec<Key>)
    requires
        forall|k: int| 0 <= k < ids@.len() ==> (if incoming {
            incoming_key_of(*graph, #[trigger] ids@[k])
        } else {
            outgoing_key_of(*graph, ids@[k])
        }) is Some,
    ensures
        r@.len() == ids@.len(),
        r@.zip_with(ids@) == keyed(ids@, if incoming {
            |e: EdgeId| incoming_key_of(*graph, e)
        } else {
            |e: EdgeId| outgoing_key_of(*graph, e)
        }),
{
    let ghost key = if incoming {
        |e: EdgeId| incoming_key_of(*graph, e)
    } else {
        |e: EdgeId| outgoing_key_of(*graph, e)
    };
    let mut r: Vec<Key> = Vec::new();
    let mut k: usize = 0;
    while k < ids.len()
        invariant
            k <= ids@.len(),
            r@.len() == k,
            forall|m: int| 0 <= m < k ==> Some(#[trigger] r@[m]) == key(ids@[m]),
            forall|m: int| 0 <= m < ids@.len() ==> (#[trigger] key(ids@[m])) is Some,
            key == (if incoming {
                |e: EdgeId| incoming_key_of(*graph, e)
            } else {
                |e: EdgeId| outgoing_key_of(*graph, e)
            }),
        decreases ids@.len() - k,
    {
        let e = ids[k];
        assert(key(e) is Some);
        let edge = &graph.edges[e.0];
        let from = edge.from.0;
        let to = edge.to.0;
        let fr = rank_within_lane(&graph.nodes, from);
        let tr = rank_within_lane(&graph.nodes, to);
        let key_k = if incoming {
            incoming_key_exec(&graph.nodes[from], &graph.nodes[to], fr, tr)
        } else {
            outgoing_key_exec(&graph.nodes[from], &graph.nodes[to], fr, tr)
        };
        r.push(key_k.unwrap());
        k = k + 1;
    }
    assert(r@.zip_with(ids@) =~= keyed(ids@, key));
    r
}

/// A copy of `v`.
fn copy_ids(v: &Vec<EdgeId>) -> (r: Vec<EdgeId>)
    ensures
        r@ == v@,
{
    let mut r: Vec<EdgeId> = Vec::new();
    let mut k: usize = 0;
    while k < v.len()
        invariant
            k <= v@.len(),
            r@ == v@.take(k as int),
        decreases v@.len() - k,
    {
        r.push(v[k]);
        assert(v@.take(k + 1) =~= v@.take(k as int).push(v@[k as int]));
        k = k + 1;
    }
    assert(v@.take(v@.len() as int) =~= v@);
    r
}

/// Sorts the incoming and outgoing edges of every node (but black boxes) that has more than one
/// on a side, by the groups of `incoming_key` and `outgoing_key`; edges with equal keys keep
/// their order. Nothing else changes.
pub fn sort_incoming_and_outgoing(graph: &mut Graph)
    requires
        all_edges_have_keys(*old(graph)),
    ensures
        final(graph).nodes@.len() == old(graph).nodes@.len(),
        forall|i: int| 0 <= i < old(graph).nodes@.len() ==> {
            let (n0, n1) = (old(graph).nodes@[i], #[trigger] final(graph).nodes@[i]);
            &&& same_but_edge_order(n1, n0)
            &&& (n1.incoming@, n1.outgoing@) == sorted_node(*old(graph), n0)
        },
        final(graph).edges == old(graph).edges,
        final(graph).pools == old(graph).pools,
        final(graph).data_elements == old(graph).data_elements,
        final(graph).config == old(graph).config,
        final(graph).num_layers == old(graph).num_layers,
        final(graph).pe_bpmd_definitions == old(graph).pe_bpmd_definitions,
{
    let ghost g0 = *graph;
    let mut i: usize = 0;
    while i < graph.nodes.len()
        invariant
            all_edges_have_keys(g0),
            graph.nodes@.len() == g0.nodes@.len(),
            i <= graph.nodes@.len(),
            forall|j: int| 0 <= j < g0.nodes@.len() ==> same_but_edge_order(#[trigger] graph.nodes@[j], g0.nodes@[j]),
            forall|j: int| i <= j < g0.nodes@.len() ==> #[trigger] graph.nodes@[j] == g0.nodes@[j],
            forall|j: int| 0 <= j < i ==> (#[trigger] graph.nodes@[j].incoming@, graph.nodes@[j].outgoing@)
                == sorted_node(g0, g0.nodes@[j]),
            graph.edges == g0.edges,
            graph.pools == g0.pools,
            graph.data_elements == g0.data_elements,
            graph.config == g0.config,
            graph.num_layers == g0.num_layers,
            graph.pe_bpmd_definitions == g0.pe_bpmd_definitions,
        decreases g0.nodes@.len() - i,
    {
        proof {
            lemma_keys_same(*graph, g0);
            assert(graph.nodes@[i as int] == g0.nodes@[i as int]);
            assert(g0.nodes@[i as int] == g0.nodes@[i as int]);
        }
        if graph.nodes[i].is_blackbox_node() {
            i = i + 1;
            continue;
        }
        if graph.nodes[i].incoming.len() > 1 {
            let inc = copy_ids(&graph.nodes[i].incoming);
            let keys = keys_of(graph, &inc, true);
            let sorted = sort_ids_by_keys(&inc, &keys);
            assert(sorted@ == sorted_ids(g0.nodes@[i as int].incoming@, |e: EdgeId| incoming_key_of(g0, e))) by {
                assert((|e: EdgeId| incoming_key_of(*graph, e)) =~= (|e: EdgeId| incoming_key_of(g0, e)));
            }
            graph.nodes[i].incoming = sorted;
        }
        proof {
            lemma_keys_same(*graph, g0);
        }
        if graph.nodes[i].outgoing.len() > 1 {
            let out = copy_ids(&graph.nodes[i].outgoing);
            let keys = keys_of(graph, &out, false);
            let sorted = sort_ids_by_keys(&out, &keys);
            assert(sorted@ == sorted_ids(g0.nodes@[i as int].outgoing@, |e: EdgeId| outgoing_key_of(g0, e))) by {
                assert((|e: EdgeId| outgoing_key_of(*graph, e)) =~= (|e: EdgeId| outgoing_key_of(g0, e)));
            }
            graph.nodes[i].outgoing = sorted;
        }
        i = i + 1;
    }
}


/// Keys never decrease along `s`.
pub open spec fn pairs_sorted(s: Seq<(Key, EdgeId)>) -> bool {
    forall|i: int, j: int| 0 <= i < j < s.len() ==> !key_lt(#[trigger] s[j].0, #[trigger] s[i].0)
}

pub open spec fn ids_of(s: Seq<(Key, EdgeId)>) -> Seq<EdgeId> {
    s.map_values(|p: (Key, EdgeId)| p.1)
}

proof fn lemma_insert_sorted(s: Seq<(Key, EdgeId)>, x: (Key, EdgeId))
    ensures
        insert_sorted(s, x).to_multiset() == s.to_multiset().insert(x),
        ids_of(insert_sorted(s, x)).to_multiset() == ids_of(s).to_multiset().insert(x.1),
        pairs_sorted(s) ==> pairs_sorted(insert_sorted(s, x)),
    decreases s.len(),
{
    broadcast use vstd::seq_lib::group_to_multiset_ensures, vstd::multiset::group_multiset_axioms;
    if s.len() == 0 {
        assert(insert_sorted(s, x) =~= Seq::<(Key, EdgeId)>::empty().push(x));
        assert(ids_of(insert_sorted(s, x)) =~= Seq::<EdgeId>::empty().push(x.1));
        assert(ids_of(s) =~= Seq::<EdgeId>::empty());
    } else {
        let t = s.drop_last();
        let l = s.last();
        assert(s =~= t.push(l));
        assert(ids_of(s) =~= ids_of(t).push(l.1));
        if key_lt(x.0, l.0) {
            let r1 = insert_sorted(t, x);
            lemma_insert_sorted(t, x);
            assert(ids_of(r1.push(l)) =~= ids_of(r1).push(l.1));
            assert(r1.to_multiset().insert(l) =~= s.to_multiset().insert(x));
            assert(ids_of(r1).to_multiset().insert(l.1) =~= ids_of(s).to_multiset().insert(x.1));
            if pairs_sorted(s) {
                let r = r1.push(l);
                assert forall|i: int, j: int| 0 <= i < j < r.len() implies !key_lt(#[trigger] r[j].0, #[trigger] r[i].0) by {
                    if j == r.len() - 1 {
                        let e = r1[i];
                        assert(r1.contains(e));
                        assert(r1.to_multiset().count(e) > 0);
                        if e != x {
                            assert(t.to_multiset().count(e) > 0);
                            assert(t.contains(e));
                            let k = choose|k: int| 0 <= k < t.len() && t[k] == e;
                            assert(s[k] == e);
                            assert(!key_lt(s[s.len() - 1].0, s[k].0));
                        }
                    }
                }
            }
        } else {
            assert(ids_of(s.push(x)) =~= ids_of(s).push(x.1));
            if pairs_sorted(s) {
                let r = s.push(x);
                assert forall|i: int, j: int| 0 <= i < j < r.len() implies !key_lt(#[trigger] r[j].0, #[trigger] r[i].0) by {
                    if j == r.len() - 1 {
                        assert(!key_lt(s[s.len() - 1].0, s[i].0) || i == s.len() - 1);
                    }
                }
            }
        }
    }
}

proof fn lemma_sort_by_key(s: Seq<(Key, EdgeId)>)
    ensures
        sort_by_key(s).to_multiset() == s.to_multiset(),
        ids_of(sort_by_key(s)).to_multiset() == ids_of(s).to_multiset(),
        pairs_sorted(sort_by_key(s)),
    decreases s.len(),
{
    broadcast use vstd::seq_lib::group_to_multiset_ensures;
    if s.len() > 0 {
        let t = s.drop_last();
        lemma_sort_by_key(t);
        lemma_insert_sorted(sort_by_key(t), s.last());
        assert(s =~= t.push(s.last()));
        assert(ids_of(s) =~= ids_of(t).push(s.last().1));
    } else {
        assert(ids_of(s) =~= ids_of(sort_by_key(s)));
    }
}

proof fn lemma_keyed_consistent(s: Seq<(Key, EdgeId)>, key: spec_fn(EdgeId) -> Option<Key>)
    requires
        forall|k: int| 0 <= k < s.len() ==> (#[trigger] s[k]).0 == key(s[k].1)->0,
    ensures
        forall|k: int| 0 <= k < sort_by_key(s).len() ==> (#[trigger] sort_by_key(s)[k]).0 == key(sort_by_key(s)[k].1)->0,
{
    broadcast use vstd::seq_lib::group_to_multiset_ensures;
    lemma_sort_by_key(s);
    let r = sort_by_key(s);
    assert forall|k: int| 0 <= k < r.len() implies (#[trigger] r[k]).0 == key(r[k].1)->0 by {
        assert(r.contains(r[k]));
        assert(r.to_multiset().count(r[k]) > 0);
        assert(s.contains(r[k]));
    }
}

/// Sorting one side of a node keeps its edges, each as often as before, and puts them in the
/// order of their keys.
pub proof fn lemma_sorted_ids_is_ordered_permutation(ids: Seq<EdgeId>, key: spec_fn(EdgeId) -> Option<Key>)
    ensures
        sorted_ids(ids, key).to_multiset() == ids.to_multiset(),
        sorted_ids(ids, key).len() == ids.len(),
        forall|i: int, j: int| 0 <= i < j < ids.len() ==>
            !key_lt(key(#[trigger] sorted_ids(ids, key)[j])->0, key(#[trigger] sorted_ids(ids, key)[i])->0),
{
    broadcast use vstd::seq_lib::group_to_multiset_ensures;
    let s = keyed(ids, key);
    lemma_sort_by_key(s);
    assert(ids_of(s) =~= ids);
    lemma_keyed_consistent(s, key);
    let r = sort_by_key(s);
    assert(r.len() == r.to_multiset().len());
    assert(s.len() == s.to_multiset().len());
    assert(r.len() == ids.len());
    assert(sorted_ids(ids, key) == ids_of(r));
    assert forall|i: int, j: int| 0 <= i < j < ids.len() implies
        !key_lt(key(#[trigger] sorted_ids(ids, key)[j])->0, key(#[trigger] sorted_ids(ids, key)[i])->0) by {
        assert(r[i].0 == key(r[i].1)->0);
        assert(r[j].0 == key(r[j].1)->0);
    }
}

/// Among the outgoing edges of a node that go to the next layer of the same pool, the sorted
/// order runs from top to bottom: lane by lane, and within a lane by the target's rank (the
/// number of nodes above it), so that these flows do not cross at the node.
pub proof fn lemma_outgoing_next_layer_top_down(g: Graph, s: int)
    requires
        all_edges_have_keys(g),
        0 <= s < g.nodes@.len(),
        !spec_is_blackbox(g.nodes@[s].node_type),
        g.nodes@[s].outgoing@.len() > 1,
    ensures
        ({
            let out = sorted_node(g, g.nodes@[s]).1;
            forall|i: int, j: int| 0 <= i < j < out.len() && ({
                let (ei, ej) = (g.edges@[out[i].0 as int], g.edges@[out[j].0 as int]);
                let (fi, ti) = (g.nodes@[ei.from.0 as int], g.nodes@[ei.to.0 as int]);
                let (fj, tj) = (g.nodes@[ej.from.0 as int], g.nodes@[ej.to.0 as int]);
                &&& ti.pool == fi.pool && ti.layer_id.0 == fi.layer_id.0 + 1
                &&& tj.pool == fj.pool && tj.layer_id.0 == fj.layer_id.0 + 1
            }) ==> {
                let (ei, ej) = (g.edges@[(#[trigger] out[i]).0 as int], g.edges@[(#[trigger] out[j]).0 as int]);
                let (ti, tj) = (g.nodes@[ei.to.0 as int], g.nodes@[ej.to.0 as int]);
                ||| ti.lane.0 < tj.lane.0
                ||| ti.lane.0 == tj.lane.0 && rank_of(g.nodes@, ei.to.0 as int)->0 <= rank_of(g.nodes@, ej.to.0 as int)->0
            }
        }),
{
    broadcast use vstd::seq_lib::group_to_multiset_ensures;
    let n = g.nodes@[s];
    let key = |e: EdgeId| outgoing_key_of(g, e);
    let out = sorted_node(g, n).1;
    assert(out == sorted_ids(n.outgoing@, key));
    lemma_sorted_ids_is_ordered_permutation(n.outgoing@, key);
    assert(all_edges_have_keys(g) ==> (g.nodes@[s].outgoing@.len() > 1 ==> forall|k: int| 0 <= k < g.nodes@[s].outgoing@.len()
        ==> (#[trigger] outgoing_key_of(g, g.nodes@[s].outgoing@[k])) is Some));
    assert forall|m: int| 0 <= m < out.len() implies (#[trigger] outgoing_key_of(g, out[m])) is Some by {
        assert(out.to_multiset().count(out[m]) > 0);
        assert(n.outgoing@.to_multiset().count(out[m]) > 0);
        assert(n.outgoing@.contains(out[m]));
        let k = choose|k: int| 0 <= k < n.outgoing@.len() && n.outgoing@[k] == out[m];
        assert(outgoing_key_of(g, n.outgoing@[k]) is Some);
    }
    assert forall|i: int, j: int| 0 <= i < j < out.len() && ({
        let (ei, ej) = (g.edges@[out[i].0 as int], g.edges@[out[j].0 as int]);
        let (fi, ti) = (g.nodes@[ei.from.0 as int], g.nodes@[ei.to.0 as int]);
        let (fj, tj) = (g.nodes@[ej.from.0 as int], g.nodes@[ej.to.0 as int]);
        &&& ti.pool == fi.pool && ti.layer_id.0 == fi.layer_id.0 + 1
        &&& tj.pool == fj.pool && tj.layer_id.0 == fj.layer_id.0 + 1
    }) implies {
        let (ei, ej) = (g.edges@[(#[trigger] out[i]).0 as int], g.edges@[(#[trigger] out[j]).0 as int]);
        let (ti, tj) = (g.nodes@[ei.to.0 as int], g.nodes@[ej.to.0 as int]);
        ||| ti.lane.0 < tj.lane.0
        ||| ti.lane.0 == tj.lane.0 && rank_of(g.nodes@, ei.to.0 as int)->0 <= rank_of(g.nodes@, ej.to.0 as int)->0
    } by {
        assert(outgoing_key_of(g, out[i]) is Some);
        assert(outgoing_key_of(g, out[j]) is Some);
        assert(ends_ranked(g, out[i]) && ends_ranked(g, out[j]));
        assert(!key_lt(key(out[j])->0, key(out[i])->0));
        let (ei, ej) = (g.edges@[out[i].0 as int], g.edges@[out[j].0 as int]);
        let (fi, ti) = (g.nodes@[ei.from.0 as int], g.nodes@[ei.to.0 as int]);
        let (fj, tj) = (g.nodes@[ej.from.0 as int], g.nodes@[ej.to.0 as int]);
        let (ri, rj) = (rank_of(g.nodes@, ei.to.0 as int)->0, rank_of(g.nodes@, ej.to.0 as int)->0);
        lemma_chain_rank_below_fuel(g.nodes@, ei.to.0 as int, g.nodes@.len() as nat);
        lemma_chain_rank_below_fuel(g.nodes@, ej.to.0 as int, g.nodes@.len() as nat);
        lemma_chain_rank_below_fuel(g.nodes@, ei.from.0 as int, g.nodes@.len() as nat);
        lemma_chain_rank_below_fuel(g.nodes@, ej.from.0 as int, g.nodes@.len() as nat);
        assert(g.nodes@.len() == g.nodes.len());
        assert(key(out[i]) == outgoing_key(fi, ti, rank_of(g.nodes@, ei.from.0 as int)->0, ri));
        assert(key(out[i]) == Some((4i128, 0i128, 0i128, ti.lane.0 as i128, ri as i128)));
        assert(key(out[j]) == Some((4i128, 0i128, 0i128, tj.lane.0 as i128, rj as i128)));
    }
}

/// Among the incoming edges of a node that come from the previous layer of the same pool, the
/// sorted order runs from top to bottom: lane by lane, and within a lane by the source's rank (the
/// number of nodes above it), so that these flows do not cross at the node.
pub proof fn lemma_incoming_previous_layer_top_down(g: Graph, s: int)
    requires
        all_edges_have_keys(g),
        0 <= s < g.nodes@.len(),
        !spec_is_blackbox(g.nodes@[s].node_type),
        g.nodes@[s].incoming@.len() > 1,
    ensures
        ({
            let out = sorted_node(g, g.nodes@[s]).0;
            forall|i: int, j: int| 0 <= i < j < out.len() && ({
                let (ei, ej) = (g.edges@[out[i].0 as int], g.edges@[out[j].0 as int]);
                let (fi, ti) = (g.nodes@[ei.from.0 as int], g.nodes@[ei.to.0 as int]);
                let (fj, tj) = (g.nodes@[ej.from.0 as int], g.nodes@[ej.to.0 as int]);
                &&& ti.pool == fi.pool && ti.layer_id.0 == fi.layer_id.0 + 1
                &&& tj.pool == fj.pool && tj.layer_id.0 == fj.layer_id.0 + 1
            }) ==> {
                let (ei, ej) = (g.edges@[(#[trigger] out[i]).0 as int], g.edges@[(#[trigger] out[j]).0 as int]);
                let (fi, fj) = (g.nodes@[ei.from.0 as int], g.nodes@[ej.from.0 as int]);
                ||| fi.lane.0 < fj.lane.0
                ||| fi.lane.0 == fj.lane.0 && rank_of(g.nodes@, ei.from.0 as int)->0 <= rank_of(g.nodes@, ej.from.0 as int)->0
            }
        }),
{
    broadcast use vstd::seq_lib::group_to_multiset_ensures;
    let n = g.nodes@[s];
    let key = |e: EdgeId| incoming_key_of(g, e);
    let out = sorted_node(g, n).0;
    assert(out == sorted_ids(n.incoming@, key));
    lemma_sorted_ids_is_ordered_permutation(n.incoming@, key);
    assert(all_edges_have_keys(g) ==> (g.nodes@[s].incoming@.len() > 1 ==> forall|k: int| 0 <= k < g.nodes@[s].incoming@.len()
        ==> (#[trigger] incoming_key_of(g, g.nodes@[s].incoming@[k])) is Some));
    assert forall|m: int| 0 <= m < out.len() implies (#[trigger] incoming_key_of(g, out[m])) is Some by {
        assert(out.to_multiset().count(out[m]) > 0);
        assert(n.incoming@.to_multiset().count(out[m]) > 0);
        assert(n.incoming@.contains(out[m]));
        let k = choose|k: int| 0 <= k < n.incoming@.len() && n.incoming@[k] == out[m];
        assert(incoming_key_of(g, n.incoming@[k]) is Some);
    }
    assert forall|i: int, j: int| 0 <= i < j < out.len() && ({
        let (ei, ej) = (g.edges@[out[i].0 as int], g.edges@[out[j].0 as int]);
        let (fi, ti) = (g.nodes@[ei.from.0 as int], g.nodes@[ei.to.0 as int]);
        let (fj, tj) = (g.nodes@[ej.from.0 as int], g.nodes@[ej.to.0 as int]);
        &&& ti.pool == fi.pool && ti.layer_id.0 == fi.layer_id.0 + 1
        &&& tj.pool == fj.pool && tj.layer_id.0 == fj.layer_id.0 + 1
    }) implies {
        let (ei, ej) = (g.edges@[(#[trigger] out[i]).0 as int], g.edges@[(#[trigger] out[j]).0 as int]);
        let (fi, fj) = (g.nodes@[ei.from.0 as int], g.nodes@[ej.from.0 as int]);
        ||| fi.lane.0 < fj.lane.0
        ||| fi.lane.0 == fj.lane.0 && rank_of(g.nodes@, ei.from.0 as int)->0 <= rank_of(g.nodes@, ej.from.0 as int)->0
    } by {
        assert(incoming_key_of(g, out[i]) is Some);
        assert(incoming_key_of(g, out[j]) is Some);
        assert(ends_ranked(g, out[i]) && ends_ranked(g, out[j]));
        assert(!key_lt(key(out[j])->0, key(out[i])->0));
        let (ei, ej) = (g.edges@[out[i].0 as int], g.edges@[out[j].0 as int]);
        let (fi, ti) = (g.nodes@[ei.from.0 as int], g.nodes@[ei.to.0 as int]);
        let (fj, tj) = (g.nodes@[ej.from.0 as int], g.nodes@[ej.to.0 as int]);
        let (ri, rj) = (rank_of(g.nodes@, ei.from.0 as int)->0, rank_of(g.nodes@, ej.from.0 as int)->0);
        lemma_chain_rank_below_fuel(g.nodes@, ei.to.0 as int, g.nodes@.len() as nat);
        lemma_chain_rank_below_fuel(g.nodes@, ej.to.0 as int, g.nodes@.len() as nat);
        lemma_chain_rank_below_fuel(g.nodes@, ei.from.0 as int, g.nodes@.len() as nat);
        lemma_chain_rank_below_fuel(g.nodes@, ej.from.0 as int, g.nodes@.len() as nat);
        assert(g.nodes@.len() == g.nodes.len());
        assert(key(out[i]) == incoming_key(fi, ti, ri, rank_of(g.nodes@, ei.to.0 as int)->0));
        assert(key(out[i]) == Some((4i128, 0i128, 0i128, fi.lane.0 as i128, ri as i128)));
        assert(key(out[j]) == Some((4i128, 0i128, 0i128, fj.lane.0 as i128, rj as i128)));
    }
}

/// Where the target of an edge lies seen from its source: a pool above (0), the next layer of
/// the same pool (1), a pool below (2), or elsewhere (none).
pub open spec fn target_side(g: Graph, e: EdgeId) -> Option<int> {
    let edge = g.edges@[e.0 as int];
    let (f, t) = (g.nodes@[edge.from.0 as int], g.nodes@[edge.to.0 as int]);
    if t.pool.0 < f.pool.0 {
        Some(0)
    } else if t.pool == f.pool && t.layer_id.0 == f.layer_id.0 + 1 {
        Some(1)
    } else if t.pool.0 > f.pool.0 {
        Some(2)
    } else {
        None
    }
}

/// In the sorted outgoing edges of a node, message flows to pools above come first, then the
/// flows to the next layer of the same pool, then message flows to pools below.
pub proof fn lemma_outgoing_above_then_next_then_below(g: Graph, s: int)
    requires
        all_edges_have_keys(g),
        0 <= s < g.nodes@.len(),
        !spec_is_blackbox(g.nodes@[s].node_type),
        g.nodes@[s].outgoing@.len() > 1,
    ensures
        ({
            let out = sorted_node(g, g.nodes@[s]).1;
            forall|i: int, j: int| 0 <= i < j < out.len() && target_side(g, out[i]) is Some && target_side(g, out[j]) is Some
                ==> target_side(g, #[trigger] out[i])->0 <= target_side(g, #[trigger] out[j])->0
        }),
{
    broadcast use vstd::seq_lib::group_to_multiset_ensures;
    let n = g.nodes@[s];
    let key = |e: EdgeId| outgoing_key_of(g, e);
    let out = sorted_node(g, n).1;
    assert(out == sorted_ids(n.outgoing@, key));
    lemma_sorted_ids_is_ordered_permutation(n.outgoing@, key);
    assert forall|m: int| 0 <= m < out.len() implies (#[trigger] outgoing_key_of(g, out[m])) is Some by {
        assert(out.to_multiset().count(out[m]) > 0);
        assert(n.outgoing@.to_multiset().count(out[m]) > 0);
        assert(n.outgoing@.contains(out[m]));
        let k = choose|k: int| 0 <= k < n.outgoing@.len() && n.outgoing@[k] == out[m];
        assert(outgoing_key_of(g, n.outgoing@[k]) is Some);
    }
    assert forall|i: int, j: int| 0 <= i < j < out.len() && target_side(g, out[i]) is Some && target_side(g, out[j]) is Some
        implies target_side(g, #[trigger] out[i])->0 <= target_side(g, #[trigger] out[j])->0 by {
        assert(outgoing_key_of(g, out[i]) is Some);
        assert(outgoing_key_of(g, out[j]) is Some);
        assert(!key_lt(key(out[j])->0, key(out[i])->0));
        assert((key(out[i])->0).0 == 3 <==> target_side(g, out[i]) == Some(0int));
        assert((key(out[j])->0).0 == 3 <==> target_side(g, out[j]) == Some(0int));
        assert((key(out[i])->0).0 == 4 <==> target_side(g, out[i]) == Some(1int));
        assert((key(out[j])->0).0 == 4 <==> target_side(g, out[j]) == Some(1int));
        assert((key(out[i])->0).0 == 5 <==> target_side(g, out[i]) == Some(2int));
        assert((key(out[j])->0).0 == 5 <==> target_side(g, out[j]) == Some(2int));
    }
}

} // verus!
