//! Finding back edges: a depth-first walk from every node without incoming edges follows the
//! sequence flows and the placement constraints; every cycle it closes needs a back edge, which
//! is the last sequence flow on it.
use vstd::prelude::*;
use crate::constraint::{Above, LayoutConstraints, LeftOf, SameLayer};
use crate::graph::{FlowType, Graph, Node};
use crate::ids::{EdgeId, NodeId};

verus! {

broadcast use crate::ids::lemma_nodeid_concrete_eq;

/// What a step of the walk follows. Message flows and data flows are never back edges.
#[derive(Debug, Clone, Copy)]
pub enum SegmentKind {
    SequenceFlow(EdgeId),
    LeftOfConstraint,
    /// `flipped`: followed from the lower node to the upper one.
    AboveConstraint { flipped: bool },
    SameLayerConstraint,
}

/// A step of the walk, between the ids of two nodes.
#[derive(Debug, Clone, Copy)]
pub struct PathSegment {
    pub kind: SegmentKind,
    pub from: NodeId,
    pub to: NodeId,
}

/// The sequence flows among `outs`, each with the index of its target.
pub open spec fn sf_moves(g: Graph, outs: Seq<EdgeId>) -> Seq<(int, SegmentKind)>
    decreases outs.len(),
{
    if outs.len() == 0 {
        Seq::empty()
    } else {
        let e = outs.last();
        sf_moves(g, outs.drop_last()) + if g.edges@[e.0 as int].flow_type is SequenceFlow {
            seq![(g.edges@[e.0 as int].to.0 as int, SegmentKind::SequenceFlow(e))]
        } else {
            Seq::empty()
        }
    }
}

/// The right nodes of the left-of constraints whose left node is `id`.
pub open spec fn left_moves(cs: Seq<LeftOf>, id: NodeId) -> Seq<(int, SegmentKind)>
    decreases cs.len(),
{
    if cs.len() == 0 {
        Seq::empty()
    } else {
        let c = cs.last();
        left_moves(cs.drop_last(), id) + if c.left == id {
            seq![(c.right.0 as int, SegmentKind::LeftOfConstraint)]
        } else {
            Seq::empty()
        }
    }
}

/// The other nodes of the above constraints that involve `id`, both ways.
pub open spec fn above_moves(cs: Seq<Above>, id: NodeId) -> Seq<(int, SegmentKind)>
    decreases cs.len(),
{
    if cs.len() == 0 {
        Seq::empty()
    } else {
        let c = cs.last();
        above_moves(cs.drop_last(), id)
            + (if c.above == id { seq![(c.below.0 as int, SegmentKind::AboveConstraint { flipped: false })] } else { Seq::empty() })
            + (if c.below == id { seq![(c.above.0 as int, SegmentKind::AboveConstraint { flipped: true })] } else { Seq::empty() })
    }
}

/// The other nodes of the same-layer constraints that involve `id`, both ways.
pub open spec fn same_moves(cs: Seq<SameLayer>, id: NodeId) -> Seq<(int, SegmentKind)>
    decreases cs.len(),
{
    if cs.len() == 0 {
        Seq::empty()
    } else {
        let c = cs.last();
        same_moves(cs.drop_last(), id)
            + (if c.0 == id { seq![(c.1.0 as int, SegmentKind::SameLayerConstraint)] } else { Seq::empty() })
            + (if c.1 == id { seq![(c.0.0 as int, SegmentKind::SameLayerConstraint)] } else { Seq::empty() })
    }
}

/// The steps from node `cur`, in order: its outgoing sequence flows, then the left-of, above and
/// same-layer constraints that lead away from it.
pub open spec fn moves(g: Graph, lc: LayoutConstraints, cur: int) -> Seq<(int, SegmentKind)> {
    let id = g.nodes@[cur].id;
    sf_moves(g, g.nodes@[cur].outgoing@) + left_moves(lc.left_of@, id) + above_moves(lc.above@, id)
        + same_moves(lc.same_layer@, id)
}

/// The edges and constraints name existing nodes and edges.
pub open spec fn walk_ok(g: Graph, lc: LayoutConstraints) -> bool {
    &&& forall|j: int| 0 <= j < g.edges@.len() ==> (#[trigger] g.edges@[j]).to.0 < g.nodes@.len()
    &&& forall|i: int, k: int| 0 <= i < g.nodes@.len() && 0 <= k < g.nodes@[i].outgoing@.len()
        ==> (#[trigger] g.nodes@[i].outgoing@[k]).0 < g.edges@.len()
    &&& forall|k: int| 0 <= k < lc.left_of@.len() ==> (#[trigger] lc.left_of@[k]).right.0 < g.nodes@.len()
    &&& forall|k: int| 0 <= k < lc.above@.len() ==> (#[trigger] lc.above@[k]).above.0 < g.nodes@.len()
        && lc.above@[k].below.0 < g.nodes@.len()
    &&& forall|k: int| 0 <= k < lc.same_layer@.len() ==> (#[trigger] lc.same_layer@[k]).0.0 < g.nodes@.len()
        && lc.same_layer@[k].1.0 < g.nodes@.len()
}

/// The next nodes of a list of steps exist.
pub open spec fn moves_in_range(g: Graph, ms: Seq<(int, SegmentKind)>) -> bool {
    forall|k: int| 0 <= k < ms.len() ==> 0 <= (#[trigger] ms[k]).0 < g.nodes@.len()
}

fn moves_of(g: &Graph, lc: &LayoutConstraints, cur: usize) -> (r: Vec<(usize, SegmentKind)>)
    requires
        walk_ok(*g, *lc),
        cur < g.nodes@.len(),
    ensures
        r@.map_values(|m: (usize, SegmentKind)| (m.0 as int, m.1)) == moves(*g, *lc, cur as int),
        moves_in_range(*g, moves(*g, *lc, cur as int)),
{
    let ghost f = |m: (usize, SegmentKind)| (m.0 as int, m.1);
    let n = &g.nodes[cur];
    let id = n.id;
    let mut r: Vec<(usize, SegmentKind)> = Vec::new();
    let mut k: usize = 0;
    assert(n.outgoing@.take(0) =~= Seq::<EdgeId>::empty());
    assert(r@.map_values(f) =~= Seq::<(int, SegmentKind)>::empty());
    while k < n.outgoing.len()
        invariant
            k <= n.outgoing@.len(),
            n == &g.nodes@[cur as int],
            cur < g.nodes@.len(),
            walk_ok(*g, *lc),
            f == (|m: (usize, SegmentKind)| (m.0 as int, m.1)),
            r@.map_values(f) == sf_moves(*g, n.outgoing@.take(k as int)),
            moves_in_range(*g, r@.map_values(f)),
        decreases n.outgoing@.len() - k,
    {
        let e = n.outgoing[k];
        assert(g.nodes@[cur as int].outgoing@[k as int] == e);
        let ghost before = r@;
        if g.edges[e.0].is_sequence_flow() {
            r.push((g.edges[e.0].to.0, SegmentKind::SequenceFlow(e)));
        }
        proof {
            assert(n.outgoing@.take(k + 1).drop_last() =~= n.outgoing@.take(k as int));
            assert(n.outgoing@.take(k + 1).last() == e);
            assert(r@.map_values(f) =~= sf_moves(*g, n.outgoing@.take(k + 1)));
        }
        k = k + 1;
    }
    assert(n.outgoing@.take(n.outgoing@.len() as int) =~= n.outgoing@);
    let ghost part1 = r@.map_values(f);
    let mut k: usize = 0;
    assert(lc.left_of@.take(0) =~= Seq::<LeftOf>::empty());
    assert(r@.map_values(f) =~= part1 + left_moves(lc.left_of@.take(0), id));
    while k < lc.left_of.len()
        invariant
            k <= lc.left_of@.len(),
            walk_ok(*g, *lc),
            f == (|m: (usize, SegmentKind)| (m.0 as int, m.1)),
            r@.map_values(f) == part1 + left_moves(lc.left_of@.take(k as int), id),
            moves_in_range(*g, r@.map_values(f)),
        decreases lc.left_of@.len() - k,
    {
        let c = lc.left_of[k];
        let ghost before = r@.map_values(f);
        assert(c.right.0 < g.nodes@.len());
        if c.left.0 == id.0 {
            r.push((c.right.0, SegmentKind::LeftOfConstraint));
            assert(r@.map_values(f) =~= before.push((c.right.0 as int, SegmentKind::LeftOfConstraint)));
        }
        proof {
            assert(lc.left_of@.take(k + 1).drop_last() =~= lc.left_of@.take(k as int));
            assert(lc.left_of@.take(k + 1).last() == c);
            assert(r@.map_values(f) =~= part1 + left_moves(lc.left_of@.take(k + 1), id));
        }
        k = k + 1;
    }
    assert(lc.left_of@.take(lc.left_of@.len() as int) =~= lc.left_of@);
    let ghost part2 = r@.map_values(f);
    let mut k: usize = 0;
    assert(lc.above@.take(0) =~= Seq::<Above>::empty());
    assert(r@.map_values(f) =~= part2 + above_moves(lc.above@.take(0), id));
    while k < lc.above.len()
        invariant
            k <= lc.above@.len(),
            walk_ok(*g, *lc),
            f == (|m: (usize, SegmentKind)| (m.0 as int, m.1)),
            r@.map_values(f) == part2 + above_moves(lc.above@.take(k as int), id),
            moves_in_range(*g, r@.map_values(f)),
        decreases lc.above@.len() - k,
    {
        let c = lc.above[k];
        let ghost before = r@.map_values(f);
        assert(c.above.0 < g.nodes@.len() && c.below.0 < g.nodes@.len());
        if c.above.0 == id.0 {
            r.push((c.below.0, SegmentKind::AboveConstraint { flipped: false }));
            assert(r@.map_values(f) =~= before.push((c.below.0 as int, SegmentKind::AboveConstraint { flipped: false })));
        }
        let ghost mid = r@.map_values(f);
        if c.below.0 == id.0 {
            r.push((c.above.0, SegmentKind::AboveConstraint { flipped: true }));
            assert(r@.map_values(f) =~= mid.push((c.above.0 as int, SegmentKind::AboveConstraint { flipped: true })));
        }
        proof {
            assert(lc.above@.take(k + 1).drop_last() =~= lc.above@.take(k as int));
            assert(lc.above@.take(k + 1).last() == c);
            assert(mid =~= before + (if c.above == id { seq![(c.below.0 as int, SegmentKind::AboveConstraint { flipped: false })] } else { Seq::empty() }));
            assert(r@.map_values(f) =~= part2 + above_moves(lc.above@.take(k + 1), id));
        }
        k = k + 1;
    }
    assert(lc.above@.take(lc.above@.len() as int) =~= lc.above@);
    let ghost part3 = r@.map_values(f);
    let mut k: usize = 0;
    assert(lc.same_layer@.take(0) =~= Seq::<SameLayer>::empty());
    assert(r@.map_values(f) =~= part3 + same_moves(lc.same_layer@.take(0), id));
    while k < lc.same_layer.len()
        invariant
            k <= lc.same_layer@.len(),
            walk_ok(*g, *lc),
            f == (|m: (usize, SegmentKind)| (m.0 as int, m.1)),
            r@.map_values(f) == part3 + same_moves(lc.same_layer@.take(k as int), id),
            moves_in_range(*g, r@.map_values(f)),
        decreases lc.same_layer@.len() - k,
    {
        let c = lc.same_layer[k];
        let ghost before = r@.map_values(f);
        assert(c.0.0 < g.nodes@.len() && c.1.0 < g.nodes@.len());
        if c.0.0 == id.0 {
            r.push((c.1.0, SegmentKind::SameLayerConstraint));
            assert(r@.map_values(f) =~= before.push((c.1.0 as int, SegmentKind::SameLayerConstraint)));
        }
        let ghost mid = r@.map_values(f);
        if c.1.0 == id.0 {
            r.push((c.0.0, SegmentKind::SameLayerConstraint));
            assert(r@.map_values(f) =~= mid.push((c.0.0 as int, SegmentKind::SameLayerConstraint)));
        }
        proof {
            assert(lc.same_layer@.take(k + 1).drop_last() =~= lc.same_layer@.take(k as int));
            assert(lc.same_layer@.take(k + 1).last() == c);
            assert(mid =~= before + (if c.0 == id { seq![(c.1.0 as int, SegmentKind::SameLayerConstraint)] } else { Seq::empty() }));
            assert(r@.map_values(f) =~= part3 + same_moves(lc.same_layer@.take(k + 1), id));
        }
        k = k + 1;
    }
    assert(lc.same_layer@.take(lc.same_layer@.len() as int) =~= lc.same_layer@);
    assert(r@.map_values(f) =~= moves(*g, *lc, cur as int));
    r
}

/// The first position from `k` on of a step in `p` that starts at `id`.
pub open spec fn first_from(p: Seq<PathSegment>, id: NodeId, k: int) -> Option<int>
    decreases p.len() - k,
{
    if k < 0 || k >= p.len() {
        None
    } else if p[k].from == id {
        Some(k)
    } else {
        first_from(p, id, k + 1)
    }
}

/// The cycles the walk reports from node `cur` with the steps `path` behind it, in the order it
/// reports them; `None` when the walk is deeper than `fuel`.
pub open spec fn traverse(g: Graph, lc: LayoutConstraints, cur: int, path: Seq<PathSegment>, fuel: nat) -> Option<Seq<Seq<PathSegment>>>
    decreases fuel, 1nat, 0nat,
{
    if fuel == 0 {
        None
    } else {
        run_moves(g, lc, cur, moves(g, lc, cur), path, fuel)
    }
}

/// The cycles the walk reports when it takes the steps `ms` from `cur`, one after the other.
pub open spec fn run_moves(g: Graph, lc: LayoutConstraints, cur: int, ms: Seq<(int, SegmentKind)>, path: Seq<PathSegment>,
    fuel: nat) -> Option<Seq<Seq<PathSegment>>>
    decreases fuel, 0nat, ms.len(),
{
    if fuel == 0 {
        None
    } else if ms.len() == 0 {
        Some(Seq::empty())
    } else {
        match (run_moves(g, lc, cur, ms.drop_last(), path, fuel), step(g, lc, cur, ms.last(), path, fuel)) {
            (Some(a), Some(b)) => Some(a + b),
            _ => None,
        }
    }
}

/// The cycles the walk reports when it takes step `m` from `cur`: the cycle closed by the step,
/// from the first step that left the node it reaches; else what the walk reports from there.
pub open spec fn step(g: Graph, lc: LayoutConstraints, cur: int, m: (int, SegmentKind), path: Seq<PathSegment>, fuel: nat)
    -> Option<Seq<Seq<PathSegment>>>
    decreases fuel, 0nat, 0nat,
{
    if fuel == 0 {
        None
    } else {
        let p2 = path.push(PathSegment { kind: m.1, from: g.nodes@[cur].id, to: g.nodes@[m.0].id });
        match first_from(p2, g.nodes@[m.0].id, 0) {
            Some(idx) => Some(seq![p2.subrange(idx, p2.len() as int)]),
            None => traverse(g, lc, m.0, p2, (fuel - 1) as nat),
        }
    }
}

pub open spec fn cycle_views(v: Seq<Vec<PathSegment>>) -> Seq<Seq<PathSegment>> {
    v.map_values(|c: Vec<PathSegment>| c@)
}

proof fn lemma_run_moves_prefix(g: Graph, lc: LayoutConstraints, cur: int, ms: Seq<(int, SegmentKind)>, path: Seq<PathSegment>,
    fuel: nat, k: int)
    requires
        run_moves(g, lc, cur, ms, path, fuel) is Some,
        0 <= k <= ms.len(),
    ensures
        run_moves(g, lc, cur, ms.take(k), path, fuel) is Some,
    decreases ms.len(),
{
    if k < ms.len() {
        assert(ms.drop_last().take(k) =~= ms.take(k));
        lemma_run_moves_prefix(g, lc, cur, ms.drop_last(), path, fuel, k);
    } else {
        assert(ms.take(k) =~= ms);
    }
}

fn copy_from(path: &Vec<PathSegment>, idx: usize) -> (r: Vec<PathSegment>)
    requires
        idx <= path@.len(),
    ensures
        r@ == path@.subrange(idx as int, path@.len() as int),
{
    let mut r: Vec<PathSegment> = Vec::new();
    let mut k: usize = idx;
    while k < path.len()
        invariant
            idx <= k <= path@.len(),
            r@ == path@.subrange(idx as int, k as int),
        decreases path@.len() - k,
    {
        r.push(path[k]);
        assert(path@.subrange(idx as int, k + 1) =~= path@.subrange(idx as int, k as int).push(path@[k as int]));
        k = k + 1;
    }
    r
}

fn recurse_maybe(g: &Graph, lc: &LayoutConstraints, cur: usize, next: usize, kind: SegmentKind,
    path: &mut Vec<PathSegment>, cycles: &mut Vec<Vec<PathSegment>>, Ghost(fuel): Ghost<nat>)
    requires
        walk_ok(*g, *lc),
        cur < g.nodes@.len(),
        next < g.nodes@.len(),
        step(*g, *lc, cur as int, (next as int, kind), old(path)@, fuel) is Some,
    ensures
        final(path)@ == old(path)@,
        cycle_views(final(cycles)@) == cycle_views(old(cycles)@) + step(*g, *lc, cur as int, (next as int, kind), old(path)@, fuel)->0,
    decreases fuel, 0nat,
{
    let ghost p0 = path@;
    let next_id = g.nodes[next].id;
    path.push(PathSegment { kind, from: g.nodes[cur].id, to: next_id });
    let ghost p2 = path@;
    let mut idx: usize = 0;
    while idx < path.len() && path[idx].from.0 != next_id.0
        invariant
            idx <= path@.len(),
            path@ == p2,
            first_from(p2, next_id, 0) == first_from(p2, next_id, idx as int),
        decreases path@.len() - idx,
    {
        idx = idx + 1;
    }
    if idx < path.len() {
        assert(first_from(p2, next_id, idx as int) == Some(idx as int));
        let c = copy_from(path, idx);
        let ghost before = cycles@;
        cycles.push(c);
        proof {
            assert(cycle_views(cycles@) =~= cycle_views(before) + seq![p2.subrange(idx as int, p2.len() as int)]);
        }
        path.pop();
        assert(path@ =~= p0);
        return;
    }
    assert(first_from(p2, next_id, idx as int) is None);
    traverse_path(g, lc, next, path, cycles, Ghost((fuel - 1) as nat));
    path.pop();
    assert(path@ =~= p0);
}

fn traverse_path(g: &Graph, lc: &LayoutConstraints, cur: usize, path: &mut Vec<PathSegment>,
    cycles: &mut Vec<Vec<PathSegment>>, Ghost(fuel): Ghost<nat>)
    requires
        walk_ok(*g, *lc),
        cur < g.nodes@.len(),
        traverse(*g, *lc, cur as int, old(path)@, fuel) is Some,
    ensures
        final(path)@ == old(path)@,
        cycle_views(final(cycles)@) == cycle_views(old(cycles)@) + traverse(*g, *lc, cur as int, old(path)@, fuel)->0,
    decreases fuel, 1nat,
{
    let ghost p0 = path@;
    let ghost c0 = cycle_views(cycles@);
    let ms = moves_of(g, lc, cur);
    let ghost spec_ms = moves(*g, *lc, cur as int);
    assert(spec_ms.take(0) =~= Seq::<(int, SegmentKind)>::empty());
    assert(c0 + Seq::<Seq<PathSegment>>::empty() =~= c0);
    let mut k: usize = 0;
    while k < ms.len()
        invariant
            walk_ok(*g, *lc),
            cur < g.nodes@.len(),
            k <= ms@.len(),
            fuel > 0,
            spec_ms == moves(*g, *lc, cur as int),
            ms@.map_values(|m: (usize, SegmentKind)| (m.0 as int, m.1)) == spec_ms,
            moves_in_range(*g, spec_ms),
            run_moves(*g, *lc, cur as int, spec_ms, p0, fuel) is Some,
            path@ == p0,
            cycle_views(cycles@) == c0 + run_moves(*g, *lc, cur as int, spec_ms.take(k as int), p0, fuel)->0,
        decreases ms@.len() - k,
    {
        let (next, kind) = ms[k];
        proof {
            assert(spec_ms[k as int] == (next as int, kind));
            lemma_run_moves_prefix(*g, *lc, cur as int, spec_ms, p0, fuel, k + 1);
            let t1 = spec_ms.take(k + 1);
            assert(t1.drop_last() =~= spec_ms.take(k as int));
            assert(t1.last() == (next as int, kind));
        }
        recurse_maybe(g, lc, cur, next, kind, path, cycles, Ghost(fuel));
        proof {
            let t1 = spec_ms.take(k + 1);
            let a = run_moves(*g, *lc, cur as int, spec_ms.take(k as int), p0, fuel)->0;
            let b = step(*g, *lc, cur as int, (next as int, kind), p0, fuel)->0;
            assert(run_moves(*g, *lc, cur as int, t1, p0, fuel)->0 == a + b);
            assert(c0 + a + b =~= c0 + (a + b));
        }
        k = k + 1;
    }
    assert(spec_ms.take(ms@.len() as int) =~= spec_ms);
}

/// The nodes the steps of `p` start at.
pub open spec fn froms(p: Seq<PathSegment>) -> Seq<NodeId> {
    p.map_values(|s: PathSegment| s.from)
}

/// The ids of the nodes of `g`.
pub open spec fn node_ids(g: Graph) -> Set<NodeId> {
    g.nodes@.map_values(|n: Node| n.id).to_set()
}

proof fn lemma_first_from_none(p: Seq<PathSegment>, id: NodeId, k: int)
    requires
        0 <= k,
        first_from(p, id, k) is None,
    ensures
        forall|j: int| k <= j < p.len() ==> (#[trigger] p[j]).from != id,
    decreases p.len() - k,
{
    if k < p.len() {
        lemma_first_from_none(p, id, k + 1);
    }
}

/// A walk whose steps start at distinct nodes, none of them the current one, is at most as deep
/// as there are nodes.
proof fn lemma_path_shorter_than_nodes(g: Graph, cur: int, path: Seq<PathSegment>)
    requires
        0 <= cur < g.nodes@.len(),
        froms(path).no_duplicates(),
        froms(path).to_set().subset_of(node_ids(g)),
        !froms(path).contains(g.nodes@[cur].id),
    ensures
        path.len() + 1 <= g.nodes@.len(),
{
    let ids = g.nodes@.map_values(|n: Node| n.id);
    let f = froms(path);
    f.unique_seq_to_set();
    ids.lemma_cardinality_of_set();
    let cur_id = g.nodes@[cur].id;
    assert(ids[cur] == cur_id);
    let s = f.to_set().insert(cur_id);
    assert(s.subset_of(node_ids(g)));
    vstd::set_lib::lemma_len_subset(s, node_ids(g));
    assert(!f.to_set().contains(cur_id));
}

proof fn lemma_traverse_ends(g: Graph, lc: LayoutConstraints, cur: int, path: Seq<PathSegment>, fuel: nat)
    requires
        walk_ok(g, lc),
        0 <= cur < g.nodes@.len(),
        froms(path).no_duplicates(),
        froms(path).to_set().subset_of(node_ids(g)),
        !froms(path).contains(g.nodes@[cur].id),
        fuel + path.len() >= g.nodes@.len() + 1,
    ensures
        traverse(g, lc, cur, path, fuel) is Some,
    decreases fuel, 1nat, 0nat,
{
    lemma_path_shorter_than_nodes(g, cur, path);
    assert(moves_in_range(g, moves(g, lc, cur))) by {
        lemma_moves_in_range(g, lc, cur);
    }
    lemma_run_moves_ends(g, lc, cur, moves(g, lc, cur), path, fuel);
}

proof fn lemma_run_moves_ends(g: Graph, lc: LayoutConstraints, cur: int, ms: Seq<(int, SegmentKind)>, path: Seq<PathSegment>, fuel: nat)
    requires
        walk_ok(g, lc),
        0 <= cur < g.nodes@.len(),
        moves_in_range(g, ms),
        froms(path).no_duplicates(),
        froms(path).to_set().subset_of(node_ids(g)),
        !froms(path).contains(g.nodes@[cur].id),
        fuel + path.len() >= g.nodes@.len() + 1,
        path.len() + 1 <= g.nodes@.len(),
    ensures
        run_moves(g, lc, cur, ms, path, fuel) is Some,
    decreases fuel, 0nat, ms.len(),
{
    if ms.len() > 0 {
        assert(moves_in_range(g, ms.drop_last())) by {
            assert forall|k: int| 0 <= k < ms.drop_last().len() implies 0 <= (#[trigger] ms.drop_last()[k]).0 < g.nodes@.len() by {
                assert(ms.drop_last()[k] == ms[k]);
            }
        }
        lemma_run_moves_ends(g, lc, cur, ms.drop_last(), path, fuel);
        assert(ms.last() == ms[ms.len() - 1]);
        lemma_step_ends(g, lc, cur, ms.last(), path, fuel);
    }
}

proof fn lemma_step_ends(g: Graph, lc: LayoutConstraints, cur: int, m: (int, SegmentKind), path: Seq<PathSegment>, fuel: nat)
    requires
        walk_ok(g, lc),
        0 <= cur < g.nodes@.len(),
        0 <= m.0 < g.nodes@.len(),
        froms(path).no_duplicates(),
        froms(path).to_set().subset_of(node_ids(g)),
        !froms(path).contains(g.nodes@[cur].id),
        fuel + path.len() >= g.nodes@.len() + 1,
        path.len() + 1 <= g.nodes@.len(),
    ensures
        step(g, lc, cur, m, path, fuel) is Some,
    decreases fuel, 0nat, 0nat,
{
    let cur_id = g.nodes@[cur].id;
    let next_id = g.nodes@[m.0].id;
    let p2 = path.push(PathSegment { kind: m.1, from: cur_id, to: next_id });
    if first_from(p2, next_id, 0) is None {
        lemma_first_from_none(p2, next_id, 0);
        let f = froms(path);
        let f2 = froms(p2);
        assert(f2 =~= f.push(cur_id));
        assert(f2.no_duplicates()) by {
            assert forall|a: int, b: int| 0 <= a < f2.len() && 0 <= b < f2.len() && a != b implies f2[a] != f2[b] by {
                if a < f.len() && b < f.len() {
                } else if a == f.len() {
                    assert(f.contains(f[b]));
                } else {
                    assert(f.contains(f[a]));
                }
            }
        }
        assert(f2.to_set().subset_of(node_ids(g))) by {
            let ids = g.nodes@.map_values(|n: Node| n.id);
            assert(ids[cur] == cur_id);
            assert forall|x: NodeId| f2.to_set().contains(x) implies node_ids(g).contains(x) by {
                let w = choose|w: int| 0 <= w < f2.len() && f2[w] == x;
                if w < f.len() {
                    assert(f[w] == x);
                    assert(f.to_set().contains(x));
                }
            }
        }
        assert(!f2.contains(next_id)) by {
            if f2.contains(next_id) {
                let w = choose|w: int| 0 <= w < f2.len() && f2[w] == next_id;
                assert(p2[w].from == next_id);
            }
        }
        lemma_traverse_ends(g, lc, m.0, p2, (fuel - 1) as nat);
    }
}

proof fn lemma_moves_in_range(g: Graph, lc: LayoutConstraints, cur: int)
    requires
        walk_ok(g, lc),
        0 <= cur < g.nodes@.len(),
    ensures
        moves_in_range(g, moves(g, lc, cur)),
{
    let id = g.nodes@[cur].id;
    assert forall|k: int| 0 <= k < g.nodes@[cur].outgoing@.len() implies (#[trigger] g.nodes@[cur].outgoing@[k]).0 < g.edges@.len() by {}
    lemma_sf_moves_in_range(g, g.nodes@[cur].outgoing@);
    lemma_left_moves_in_range(g, lc.left_of@, id);
    lemma_above_moves_in_range(g, lc.above@, id);
    lemma_same_moves_in_range(g, lc.same_layer@, id);
    let a = sf_moves(g, g.nodes@[cur].outgoing@);
    let b = left_moves(lc.left_of@, id);
    let c = above_moves(lc.above@, id);
    let d = same_moves(lc.same_layer@, id);
    assert forall|k: int| 0 <= k < (a + b + c + d).len() implies 0 <= (#[trigger] (a + b + c + d)[k]).0 < g.nodes@.len() by {
        if k < a.len() {
            assert((a + b + c + d)[k] == a[k]);
        } else if k < a.len() + b.len() {
            assert((a + b + c + d)[k] == b[k - a.len()]);
        } else if k < a.len() + b.len() + c.len() {
            assert((a + b + c + d)[k] == c[k - a.len() - b.len()]);
        } else {
            assert((a + b + c + d)[k] == d[k - a.len() - b.len() - c.len()]);
        }
    }
}

proof fn lemma_sf_moves_in_range(g: Graph, outs: Seq<EdgeId>)
    requires
        forall|j: int| 0 <= j < g.edges@.len() ==> (#[trigger] g.edges@[j]).to.0 < g.nodes@.len(),
        forall|k: int| 0 <= k < outs.len() ==> (#[trigger] outs[k]).0 < g.edges@.len(),
    ensures
        moves_in_range(g, sf_moves(g, outs)),
    decreases outs.len(),
{
    if outs.len() > 0 {
        lemma_sf_moves_in_range(g, outs.drop_last());
        assert(outs.last() == outs[outs.len() - 1]);
        let a = sf_moves(g, outs.drop_last());
        let e = outs.last();
        let b: Seq<(int, SegmentKind)> = if g.edges@[e.0 as int].flow_type is SequenceFlow {
            seq![(g.edges@[e.0 as int].to.0 as int, SegmentKind::SequenceFlow(e))]
        } else {
            Seq::empty()
        };
        assert forall|k: int| 0 <= k < (a + b).len() implies 0 <= (#[trigger] (a + b)[k]).0 < g.nodes@.len() by {
            if k < a.len() {
                assert((a + b)[k] == a[k]);
            } else {
                assert((a + b)[k] == b[k - a.len()]);
            }
        }
    }
}

proof fn lemma_left_moves_in_range(g: Graph, cs: Seq<LeftOf>, id: NodeId)
    requires
        forall|k: int| 0 <= k < cs.len() ==> (#[trigger] cs[k]).right.0 < g.nodes@.len(),
    ensures
        moves_in_range(g, left_moves(cs, id)),
    decreases cs.len(),
{
    if cs.len() > 0 {
        lemma_left_moves_in_range(g, cs.drop_last(), id);
        assert(cs.last() == cs[cs.len() - 1]);
        let a = left_moves(cs.drop_last(), id);
        let c = cs.last();
        let b: Seq<(int, SegmentKind)> = if c.left == id { seq![(c.right.0 as int, SegmentKind::LeftOfConstraint)] } else { Seq::empty() };
        assert forall|k: int| 0 <= k < (a + b).len() implies 0 <= (#[trigger] (a + b)[k]).0 < g.nodes@.len() by {
            if k < a.len() {
                assert((a + b)[k] == a[k]);
            } else {
                assert((a + b)[k] == b[k - a.len()]);
            }
        }
    }
}

proof fn lemma_above_moves_in_range(g: Graph, cs: Seq<Above>, id: NodeId)
    requires
        forall|k: int| 0 <= k < cs.len() ==> (#[trigger] cs[k]).above.0 < g.nodes@.len() && cs[k].below.0 < g.nodes@.len(),
    ensures
        moves_in_range(g, above_moves(cs, id)),
    decreases cs.len(),
{
    if cs.len() > 0 {
        lemma_above_moves_in_range(g, cs.drop_last(), id);
        assert(cs.last() == cs[cs.len() - 1]);
        let a = above_moves(cs.drop_last(), id);
        let c = cs.last();
        let b: Seq<(int, SegmentKind)> = if c.above == id { seq![(c.below.0 as int, SegmentKind::AboveConstraint { flipped: false })] } else { Seq::empty() };
        let d: Seq<(int, SegmentKind)> = if c.below == id { seq![(c.above.0 as int, SegmentKind::AboveConstraint { flipped: true })] } else { Seq::empty() };
        assert forall|k: int| 0 <= k < (a + b + d).len() implies 0 <= (#[trigger] (a + b + d)[k]).0 < g.nodes@.len() by {
            if k < a.len() {
                assert((a + b + d)[k] == a[k]);
            } else if k < a.len() + b.len() {
                assert((a + b + d)[k] == b[k - a.len()]);
            } else {
                assert((a + b + d)[k] == d[k - a.len() - b.len()]);
            }
        }
    }
}

proof fn lemma_same_moves_in_range(g: Graph, cs: Seq<SameLayer>, id: NodeId)
    requires
        forall|k: int| 0 <= k < cs.len() ==> (#[trigger] cs[k]).0.0 < g.nodes@.len() && cs[k].1.0 < g.nodes@.len(),
    ensures
        moves_in_range(g, same_moves(cs, id)),
    decreases cs.len(),
{
    if cs.len() > 0 {
        lemma_same_moves_in_range(g, cs.drop_last(), id);
        assert(cs.last() == cs[cs.len() - 1]);
        let a = same_moves(cs.drop_last(), id);
        let c = cs.last();
        let b: Seq<(int, SegmentKind)> = if c.0 == id { seq![(c.1.0 as int, SegmentKind::SameLayerConstraint)] } else { Seq::empty() };
        let d: Seq<(int, SegmentKind)> = if c.1 == id { seq![(c.0.0 as int, SegmentKind::SameLayerConstraint)] } else { Seq::empty() };
        assert forall|k: int| 0 <= k < (a + b + d).len() implies 0 <= (#[trigger] (a + b + d)[k]).0 < g.nodes@.len() by {
            if k < a.len() {
                assert((a + b + d)[k] == a[k]);
            } else if k < a.len() + b.len() {
                assert((a + b + d)[k] == b[k - a.len()]);
            } else {
                assert((a + b + d)[k] == d[k - a.len() - b.len()]);
            }
        }
    }
}

/// How deep the walk may go: one step per node, and one more.
pub open spec fn walk_depth(g: Graph) -> nat {
    (g.nodes@.len() + 1) as nat
}

/// The cycles found by walking from each of the first `k` nodes that has no incoming edge.
pub open spec fn cycles_from(g: Graph, lc: LayoutConstraints, k: int) -> Seq<Seq<PathSegment>>
    decreases k,
{
    if k <= 0 {
        Seq::empty()
    } else {
        cycles_from(g, lc, k - 1) + if g.nodes@[k - 1].incoming@.len() == 0 {
            traverse(g, lc, k - 1, Seq::empty(), walk_depth(g))->0
        } else {
            Seq::empty()
        }
    }
}

/// All cycles of the walk, in the order it finds them.
pub open spec fn all_cycles(g: Graph, lc: LayoutConstraints) -> Seq<Seq<PathSegment>> {
    cycles_from(g, lc, g.nodes@.len() as int)
}

/// Walks from every node without incoming edges and returns the cycles it closes.
pub fn iterate_all_cycles(graph: &Graph, lc: &LayoutConstraints) -> (r: Vec<Vec<PathSegment>>)
    requires
        walk_ok(*graph, *lc),
    ensures
        cycle_views(r@) == all_cycles(*graph, *lc),
{
    let mut cycles: Vec<Vec<PathSegment>> = Vec::new();
    let mut path: Vec<PathSegment> = Vec::new();
    let mut i: usize = 0;
    assert(cycle_views(cycles@) =~= Seq::<Seq<PathSegment>>::empty());
    while i < graph.nodes.len()
        invariant
            walk_ok(*graph, *lc),
            i <= graph.nodes@.len(),
            path@ == Seq::<PathSegment>::empty(),
            cycle_views(cycles@) == cycles_from(*graph, *lc, i as int),
        decreases graph.nodes@.len() - i,
    {
        let ghost before = cycle_views(cycles@);
        if graph.nodes[i].incoming.len() == 0 {
            proof {
                assert(froms(path@) =~= Seq::<NodeId>::empty());
                assert(froms(path@).to_set() =~= Set::<NodeId>::empty());
                lemma_traverse_ends(*graph, *lc, i as int, path@, walk_depth(*graph));
            }
            traverse_path(graph, lc, i, &mut path, &mut cycles, Ghost(walk_depth(*graph)));
        } else {
            assert(cycle_views(cycles@) =~= before + Seq::<Seq<PathSegment>>::empty());
        }
        i = i + 1;
    }
    cycles
}

/// The edge of the last sequence flow of `c`, if it has one.
pub open spec fn last_sequence_flow(c: Seq<PathSegment>) -> Option<EdgeId>
    decreases c.len(),
{
    if c.len() == 0 {
        None
    } else if let SegmentKind::SequenceFlow(e) = c.last().kind {
        Some(e)
    } else {
        last_sequence_flow(c.drop_last())
    }
}

pub open spec fn has_left_of(c: Seq<PathSegment>) -> bool {
    exists|k: int| 0 <= k < c.len() && (#[trigger] c[k]).kind is LeftOfConstraint
}

pub open spec fn has_above(c: Seq<PathSegment>, flipped: bool) -> bool {
    exists|k: int| 0 <= k < c.len() && (#[trigger] c[k]).kind == (SegmentKind::AboveConstraint { flipped })
}

pub open spec fn has_same_layer(c: Seq<PathSegment>) -> bool {
    exists|k: int| 0 <= k < c.len() && (#[trigger] c[k]).kind is SameLayerConstraint
}

/// A cycle without sequence flows is one the analysis accepts: it is not empty, holds no left-of
/// constraint, and does not consist of above constraints in a single direction.
pub open spec fn cycle_acceptable(c: Seq<PathSegment>) -> bool {
    last_sequence_flow(c) is None ==> {
        &&& c.len() > 0
        &&& !has_left_of(c)
        &&& !((has_above(c, false) != has_above(c, true)) && !has_same_layer(c))
    }
}

/// The back edge that a cycle needs: its last sequence flow; a cycle of constraints that only
/// place nodes in one layer needs none.
pub fn analyse_cycle(cycle: &Vec<PathSegment>) -> (r: Result<Option<EdgeId>, String>)
    requires
        cycle_acceptable(cycle@),
    ensures
        r matches Ok(x) && x == last_sequence_flow(cycle@),
{
    let mut contains_left_of = false;
    let mut contains_above_flipped = false;
    let mut contains_above_not_flipped = false;
    let mut contains_same_layer = false;
    let mut k: usize = cycle.len();
    assert(cycle@.take(k as int) =~= cycle@);
    while k > 0
        invariant
            k <= cycle@.len(),
            last_sequence_flow(cycle@) == last_sequence_flow(cycle@.take(k as int)),
            contains_left_of == (exists|j: int| k <= j < cycle@.len() && (#[trigger] cycle@[j]).kind is LeftOfConstraint),
            contains_above_flipped == (exists|j: int| k <= j < cycle@.len()
                && (#[trigger] cycle@[j]).kind == (SegmentKind::AboveConstraint { flipped: true })),
            contains_above_not_flipped == (exists|j: int| k <= j < cycle@.len()
                && (#[trigger] cycle@[j]).kind == (SegmentKind::AboveConstraint { flipped: false })),
            contains_same_layer == (exists|j: int| k <= j < cycle@.len() && (#[trigger] cycle@[j]).kind is SameLayerConstraint),
        decreases k,
    {
        proof {
            assert(cycle@.take(k as int).drop_last() =~= cycle@.take(k - 1));
            assert(cycle@.take(k as int).last() == cycle@[k - 1]);
        }
        match cycle[k - 1].kind {
            SegmentKind::SequenceFlow(e) => {
                return Ok(Some(e));
            },
            SegmentKind::LeftOfConstraint => {
                contains_left_of = true;
            },
            SegmentKind::AboveConstraint { flipped } => {
                if flipped {
                    contains_above_flipped = true;
                } else {
                    contains_above_not_flipped = true;
                }
            },
            SegmentKind::SameLayerConstraint => {
                contains_same_layer = true;
            },
        }
        k = k - 1;
    }
    proof {
        assert(cycle@.take(0) =~= Seq::<PathSegment>::empty());
        assert(contains_left_of == has_left_of(cycle@));
        assert(contains_above_flipped == has_above(cycle@, true));
        assert(contains_above_not_flipped == has_above(cycle@, false));
        assert(contains_same_layer == has_same_layer(cycle@));
    }
    Ok(None)
}

/// The back edges of the cycles `cs` that have one, in the order of the cycles.
pub open spec fn found_back_edges(cs: Seq<Seq<PathSegment>>) -> Seq<EdgeId>
    decreases cs.len(),
{
    if cs.len() == 0 {
        Seq::empty()
    } else {
        found_back_edges(cs.drop_last()) + match last_sequence_flow(cs.last()) {
            Some(e) => seq![e],
            None => Seq::empty(),
        }
    }
}

/// The sequence flows of cycle `c` that are among the back edges `bes`, in the order of `c`.
pub open spec fn back_edge_group(c: Seq<PathSegment>, bes: Seq<EdgeId>) -> Seq<EdgeId>
    decreases c.len(),
{
    if c.len() == 0 {
        Seq::empty()
    } else {
        back_edge_group(c.drop_last(), bes) + if let SegmentKind::SequenceFlow(e) = c.last().kind {
            if bes.contains(e) { seq![e] } else { Seq::empty() }
        } else {
            Seq::empty()
        }
    }
}

/// The back edges of each cycle.
pub open spec fn back_edge_groups(cs: Seq<Seq<PathSegment>>) -> Seq<Seq<EdgeId>> {
    cs.map_values(|c: Seq<PathSegment>| back_edge_group(c, found_back_edges(cs)))
}

/// The first edge of each group that has one.
pub open spec fn firsts(groups: Seq<Seq<EdgeId>>) -> Seq<EdgeId>
    decreases groups.len(),
{
    if groups.len() == 0 {
        Seq::empty()
    } else {
        firsts(groups.drop_last()) + if groups.last().len() > 0 { seq![groups.last()[0]] } else { Seq::empty() }
    }
}

/// The back edges, when every cycle has at most one; otherwise the back edges of each cycle, of
/// which a smallest set that meets every cycle is to be chosen.
pub enum BackEdgeChoice {
    Chosen(Vec<EdgeId>),
    MinimumCover(Vec<Vec<EdgeId>>),
}

fn contains_edge(v: &Vec<EdgeId>, e: EdgeId) -> (r: bool)
    ensures
        r == v@.contains(e),
{
    let mut k: usize = 0;
    while k < v.len()
        invariant
            k <= v@.len(),
            forall|j: int| 0 <= j < k ==> v@[j] != e,
        decreases v@.len() - k,
    {
        if v[k].0 == e.0 {
            assert(v@[k as int] == e);
            return true;
        }
        k = k + 1;
    }
    false
}

fn group_of(c: &Vec<PathSegment>, bes: &Vec<EdgeId>) -> (r: Vec<EdgeId>)
    ensures
        r@ == back_edge_group(c@, bes@),
{
    let mut r: Vec<EdgeId> = Vec::new();
    let mut k: usize = 0;
    assert(c@.take(0) =~= Seq::<PathSegment>::empty());
    while k < c.len()
        invariant
            k <= c@.len(),
            r@ == back_edge_group(c@.take(k as int), bes@),
        decreases c@.len() - k,
    {
        proof {
            assert(c@.take(k + 1).drop_last() =~= c@.take(k as int));
            assert(c@.take(k + 1).last() == c@[k as int]);
        }
        if let SegmentKind::SequenceFlow(e) = c[k].kind {
            if contains_edge(bes, e) {
                r.push(e);
            } else {
                assert(r@ =~= r@ + Seq::<EdgeId>::empty());
            }
        } else {
            assert(r@ =~= r@ + Seq::<EdgeId>::empty());
        }
        k = k + 1;
    }
    assert(c@.take(c@.len() as int) =~= c@);
    r
}

/// Finds the back edges: every cycle of the walk needs its last sequence flow as a back edge. If
/// each cycle then holds at most one back edge, these are chosen; otherwise the groups of back
/// edges per cycle are handed on, so that a smallest set meeting every group can be chosen.
pub fn back_edge_removal(graph: &Graph, lc: &LayoutConstraints) -> (r: Result<BackEdgeChoice, String>)
    requires
        walk_ok(*graph, *lc),
        forall|k: int| 0 <= k < all_cycles(*graph, *lc).len() ==> cycle_acceptable(#[trigger] all_cycles(*graph, *lc)[k]),
    ensures
        r matches Ok(choice) && {
            let groups = back_edge_groups(all_cycles(*graph, *lc));
            if forall|k: int| 0 <= k < groups.len() ==> (#[trigger] groups[k]).len() <= 1 {
                choice matches BackEdgeChoice::Chosen(v) && v@ == firsts(groups)
            } else {
                choice matches BackEdgeChoice::MinimumCover(gs) && gs@.map_values(|v: Vec<EdgeId>| v@) == groups
            }
        },
{
    let cycles = iterate_all_cycles(graph, lc);
    let ghost cs = all_cycles(*graph, *lc);
    let mut back_edges: Vec<EdgeId> = Vec::new();
    let mut k: usize = 0;
    assert(cs.take(0) =~= Seq::<Seq<PathSegment>>::empty());
    while k < cycles.len()
        invariant
            k <= cycles@.len(),
            cycle_views(cycles@) == cs,
            forall|j: int| 0 <= j < cs.len() ==> cycle_acceptable(#[trigger] cs[j]),
            back_edges@ == found_back_edges(cs.take(k as int)),
        decreases cycles@.len() - k,
    {
        assert(cycles@[k as int]@ == cs[k as int]);
        let found = analyse_cycle(&cycles[k]);
        proof {
            assert(cs.take(k + 1).drop_last() =~= cs.take(k as int));
            assert(cs.take(k + 1).last() == cs[k as int]);
        }
        match found {
            Ok(Some(e)) => {
                back_edges.push(e);
            },
            _ => {
                assert(back_edges@ =~= back_edges@ + Seq::<EdgeId>::empty());
            },
        }
        k = k + 1;
    }
    assert(cs.take(cs.len() as int) =~= cs);
    let ghost groups = back_edge_groups(cs);
    let mut gs: Vec<Vec<EdgeId>> = Vec::new();
    let mut all_small = true;
    let mut k: usize = 0;
    while k < cycles.len()
        invariant
            k <= cycles@.len(),
            cycle_views(cycles@) == cs,
            back_edges@ == found_back_edges(cs),
            groups == back_edge_groups(cs),
            gs@.len() == k,
            forall|j: int| 0 <= j < k ==> (#[trigger] gs@[j])@ == groups[j],
            all_small == (forall|j: int| 0 <= j < k ==> (#[trigger] groups[j]).len() <= 1),
        decreases cycles@.len() - k,
    {
        assert(cycles@[k as int]@ == cs[k as int]);
        let group = group_of(&cycles[k], &back_edges);
        assert(group@ == groups[k as int]);
        if group.len() > 1 {
            all_small = false;
        }
        gs.push(group);
        proof {
            if all_small {
                assert forall|j: int| 0 <= j < k + 1 implies (#[trigger] groups[j]).len() <= 1 by {
                    if j < k {
                    }
                }
            } else {
                if (forall|j: int| 0 <= j < k + 1 ==> (#[trigger] groups[j]).len() <= 1) {
                    assert(groups[k as int].len() <= 1);
                    assert(forall|j: int| 0 <= j < k ==> (#[trigger] groups[j]).len() <= 1);
                }
            }
        }
        k = k + 1;
    }
    if all_small {
        let mut chosen: Vec<EdgeId> = Vec::new();
        let mut k: usize = 0;
        assert(groups.take(0) =~= Seq::<Seq<EdgeId>>::empty());
        while k < gs.len()
            invariant
                k <= gs@.len(),
                gs@.len() == groups.len(),
                forall|j: int| 0 <= j < gs@.len() ==> (#[trigger] gs@[j])@ == groups[j],
                chosen@ == firsts(groups.take(k as int)),
            decreases gs@.len() - k,
        {
            proof {
                assert(groups.take(k + 1).drop_last() =~= groups.take(k as int));
                assert(groups.take(k + 1).last() == groups[k as int]);
                assert(gs@[k as int]@ == groups[k as int]);
            }
            if gs[k].len() > 0 {
                chosen.push(gs[k][0]);
            } else {
                assert(chosen@ =~= chosen@ + Seq::<EdgeId>::empty());
            }
            k = k + 1;
        }
        assert(groups.take(groups.len() as int) =~= groups);
        Ok(BackEdgeChoice::Chosen(chosen))
    } else {
        assert(gs@.map_values(|v: Vec<EdgeId>| v@) =~= groups);
        Ok(BackEdgeChoice::MinimumCover(gs))
    }
}

} // verus!
