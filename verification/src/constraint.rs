//! The placement constraints a diagram states (left of, above, same layer, back edge), and the
//! clusters of nodes that `above` and `same layer` constraints force into one layer.
use vstd::prelude::*;
use crate::ids::{EdgeId, NodeId};
use crate::vecset::VecSet;

verus! {

broadcast use crate::ids::lemma_nodeid_concrete_eq;

/// `left` is placed in an earlier layer than `right`.
#[derive(Debug, Clone, Copy)]
pub struct LeftOf {
    pub left: NodeId,
    pub right: NodeId,
}

/// `above` is placed above `below`, in the same layer.
#[derive(Debug, Clone, Copy)]
pub struct Above {
    pub above: NodeId,
    pub below: NodeId,
}

/// The two nodes are placed in the same layer.
#[derive(Debug, Clone, Copy)]
pub struct SameLayer(pub NodeId, pub NodeId);

/// The layer assignment treats this edge as one that goes backwards.
#[derive(Debug, Clone, Copy)]
pub struct BackEdge(pub EdgeId);

#[derive(Debug)]
pub struct LayoutConstraints {
    pub left_of: Vec<LeftOf>,
    pub above: Vec<Above>,
    pub same_layer: Vec<SameLayer>,
    /// Only the back edges the user asked for.
    pub back_edge: Vec<BackEdge>,
    /// The clusters that the `above` and `same_layer` constraints form.
    pub same_layer_clusters: Vec<VecSet<NodeId>>,
}

impl LayoutConstraints {
    /// No constraints and no clusters.
    pub fn new() -> (r: LayoutConstraints)
        ensures
            r.left_of@.len() == 0 && r.above@.len() == 0 && r.same_layer@.len() == 0,
            r.back_edge@.len() == 0 && r.same_layer_clusters@.len() == 0,
    {
        LayoutConstraints { left_of: Vec::new(), above: Vec::new(), same_layer: Vec::new(), back_edge: Vec::new(),
            same_layer_clusters: Vec::new() }
    }
}

/// The pairs of nodes that must share a layer: those of the `above` constraints, then those of
/// the `same_layer` constraints.
pub open spec fn layer_pairs(lc: LayoutConstraints) -> Seq<(NodeId, NodeId)> {
    lc.above@.map_values(|c: Above| (c.above, c.below)) + lc.same_layer@.map_values(|c: SameLayer| (c.0, c.1))
}

/// `c` with `x` added at the end unless it holds it.
pub open spec fn insert_elem(c: Seq<NodeId>, x: NodeId) -> Seq<NodeId> {
    if c.contains(x) { c } else { c.push(x) }
}

/// `target` with the elements of `src` added in order.
pub open spec fn merge_into(target: Seq<NodeId>, src: Seq<NodeId>) -> Seq<NodeId>
    decreases src.len(),
{
    if src.len() == 0 { target } else { insert_elem(merge_into(target, src.drop_last()), src.last()) }
}

/// The first cluster at or after `k` that holds `x` or `y`.
pub open spec fn first_holding(cs: Seq<Seq<NodeId>>, x: NodeId, y: NodeId, k: int) -> Option<int>
    decreases cs.len() - k,
{
    if k < 0 || k >= cs.len() {
        None
    } else if cs[k].contains(x) || cs[k].contains(y) {
        Some(k)
    } else {
        first_holding(cs, x, y, k + 1)
    }
}

/// Adds the pair `(a, b)` to the clusters `cs`: nothing changes where the first cluster that
/// holds one of them holds both; where it holds one, the other (the "needle") joins it, and the
/// first later cluster that holds the needle is merged into it; where none holds either, they form
/// a new cluster. `None` where that later cluster is not the last one: the merge loop then runs
/// past the end of the shortened list.
pub open spec fn add_pair(cs: Seq<Seq<NodeId>>, a: NodeId, b: NodeId) -> Option<Seq<Seq<NodeId>>> {
    match first_holding(cs, a, b, 0) {
        None => Some(cs.push(insert_elem(seq![a], b))),
        Some(k) => {
            if cs[k].contains(a) && cs[k].contains(b) {
                Some(cs)
            } else {
                let needle = if cs[k].contains(a) { b } else { a };
                let c0 = cs[k].push(needle);
                match first_holding(cs, needle, needle, k + 1) {
                    None => Some(cs.update(k, c0)),
                    Some(j) => if j == cs.len() - 1 {
                        Some(cs.update(k, merge_into(c0, cs[j])).drop_last())
                    } else {
                        None
                    },
                }
            }
        }
    }
}

/// The clusters after adding the pairs `ps` in order, if no step fails.
pub open spec fn add_pairs(cs: Seq<Seq<NodeId>>, ps: Seq<(NodeId, NodeId)>) -> Option<Seq<Seq<NodeId>>>
    decreases ps.len(),
{
    if ps.len() == 0 {
        Some(cs)
    } else {
        match add_pairs(cs, ps.drop_last()) {
            Some(c) => add_pair(c, ps.last().0, ps.last().1),
            None => None,
        }
    }
}

/// The elements of each cluster, in order.
pub open spec fn cluster_elems(cs: Seq<VecSet<NodeId>>) -> Seq<Seq<NodeId>> {
    cs.map_values(|c: VecSet<NodeId>| c.elems())
}

pub open spec fn all_wf(cs: Seq<VecSet<NodeId>>) -> bool {
    forall|k: int| 0 <= k < cs.len() ==> (#[trigger] cs[k]).wf()
}

/// Adds `(a, b)` to the clusters, as `add_pair` says.
fn add_pair_exec(c: &mut Vec<VecSet<NodeId>>, a: NodeId, b: NodeId)
    requires
        all_wf(old(c)@),
        add_pair(cluster_elems(old(c)@), a, b) is Some,
    ensures
        all_wf(final(c)@),
        cluster_elems(final(c)@) == add_pair(cluster_elems(old(c)@), a, b)->0,
{
    let ghost cs = cluster_elems(c@);
    let mut k: usize = 0;
    while k < c.len()
        invariant
            all_wf(c@),
            cs == cluster_elems(c@),
            cs == cluster_elems(old(c)@),
            add_pair(cs, a, b) is Some,
            k <= c@.len(),
            first_holding(cs, a, b, 0) == first_holding(cs, a, b, k as int),
        decreases c@.len() - k,
    {
        assert(cs[k as int] == c@[k as int].elems());
        let contains_a = c[k].contains(&a);
        let contains_b = c[k].contains(&b);
        if contains_a || contains_b {
            assert(first_holding(cs, a, b, k as int) == Some(k as int));
        }
        if contains_a && contains_b {
            return;
        }
        if contains_a || contains_b {
            let needle = if contains_a { b } else { a };
            let ghost c0 = cs[k as int].push(needle);
            c[k].insert(needle);
            assert(cluster_elems(c@) =~= cs.update(k as int, c0));
            let mut j: usize = k + 1;
            while j < c.len()
                invariant
                    all_wf(c@),
                    cluster_elems(c@) == cs.update(k as int, c0),
                    cs == cluster_elems(old(c)@),
                    add_pair(cs, a, b) is Some,
                    first_holding(cs, a, b, 0) == Some(k as int),
                    !(cs[k as int].contains(a) && cs[k as int].contains(b)),
                    needle == if cs[k as int].contains(a) { b } else { a },
                    c0 == cs[k as int].push(needle),
                    k < j <= c@.len(),
                    c@.len() == cs.len(),
                    first_holding(cs, needle, needle, k + 1) == first_holding(cs, needle, needle, j as int),
                decreases c@.len() - j,
            {
                assert(cluster_elems(c@)[j as int] == c@[j as int].elems());
                assert(cs[j as int] == c@[j as int].elems());
                if c[j].contains(&needle) {
                    assert(first_holding(cs, needle, needle, k + 1) == Some(j as int));
                    assert(j == c@.len() - 1);
                    let ghost before_swap = c@;
                    assert(cluster_elems(before_swap)[k as int] == c0);
                    let to_be_merged = c.swap_remove(j);
                    let items = to_be_merged.iter();
                    assert(items@ == cs[j as int]);
                    assert(c@ =~= before_swap.drop_last());
                    assert(c@[k as int].elems() == c0);
                    assert(items@.take(0) =~= Seq::<NodeId>::empty());
                    let mut m: usize = 0;
                    let ghost base = c@;
                    while m < items.len()
                        invariant
                            all_wf(c@),
                            k < c@.len(),
                            c@.len() == base.len(),
                            forall|q: int| 0 <= q < c@.len() && q != k ==> #[trigger] c@[q] == base[q],
                            c@[k as int].elems() == merge_into(c0, items@.take(m as int)),
                            m <= items@.len(),
                        decreases items@.len() - m,
                    {
                        c[k].insert(items[m]);
                        assert(items@.take(m + 1).drop_last() =~= items@.take(m as int));
                        m = m + 1;
                    }
                    proof {
                        assert(items@.take(items@.len() as int) =~= items@);
                        let target = cs.update(k as int, merge_into(c0, cs[j as int])).drop_last();
                        assert forall|q: int| 0 <= q < c@.len() implies #[trigger] cluster_elems(c@)[q] == target[q] by {
                            if q != k {
                                assert(c@[q] == base[q]);
                                assert(base[q] == before_swap[q]);
                                assert(cluster_elems(before_swap)[q] == cs[q]);
                            }
                        }
                        assert(cluster_elems(c@) =~= target);
                    }
                    return;
                }
                j = j + 1;
            }
            return;
        }
        k = k + 1;
    }
    let mut fresh = VecSet::new();
    fresh.insert(a);
    fresh.insert(b);
    c.push(fresh);
    assert(cluster_elems(c@) =~= cs.push(insert_elem(seq![a], b)));
}

/// Forms the clusters of nodes that the `above` and `same_layer` constraints force into one
/// layer, adding their pairs to the existing clusters one by one.
pub fn compute_same_layer_clusters(layout_constraints: &mut LayoutConstraints)
    requires
        all_wf(old(layout_constraints).same_layer_clusters@),
        add_pairs(cluster_elems(old(layout_constraints).same_layer_clusters@), layer_pairs(*old(layout_constraints))) is Some,
    ensures
        all_wf(final(layout_constraints).same_layer_clusters@),
        cluster_elems(final(layout_constraints).same_layer_clusters@)
            == add_pairs(cluster_elems(old(layout_constraints).same_layer_clusters@), layer_pairs(*old(layout_constraints)))->0,
        final(layout_constraints).left_of == old(layout_constraints).left_of,
        final(layout_constraints).above == old(layout_constraints).above,
        final(layout_constraints).same_layer == old(layout_constraints).same_layer,
        final(layout_constraints).back_edge == old(layout_constraints).back_edge,
{
    let ghost ps = layer_pairs(*layout_constraints);
    let ghost start = cluster_elems(layout_constraints.same_layer_clusters@);
    let mut pairs: Vec<(NodeId, NodeId)> = Vec::new();
    let mut i: usize = 0;
    while i < layout_constraints.above.len()
        invariant
            i <= layout_constraints.above@.len(),
            pairs@ == layout_constraints.above@.take(i as int).map_values(|c: Above| (c.above, c.below)),
        decreases layout_constraints.above@.len() - i,
    {
        let c = layout_constraints.above[i];
        pairs.push((c.above, c.below));
        assert(layout_constraints.above@.take(i + 1) =~= layout_constraints.above@.take(i as int).push(c));
        i = i + 1;
    }
    i = 0;
    let ghost first = pairs@;
    assert(layout_constraints.above@.take(layout_constraints.above@.len() as int) =~= layout_constraints.above@);
    while i < layout_constraints.same_layer.len()
        invariant
            i <= layout_constraints.same_layer@.len(),
            pairs@ == first + layout_constraints.same_layer@.take(i as int).map_values(|c: SameLayer| (c.0, c.1)),
        decreases layout_constraints.same_layer@.len() - i,
    {
        let c = layout_constraints.same_layer[i];
        pairs.push((c.0, c.1));
        assert(layout_constraints.same_layer@.take(i + 1) =~= layout_constraints.same_layer@.take(i as int).push(c));
        i = i + 1;
    }
    assert(layout_constraints.same_layer@.take(layout_constraints.same_layer@.len() as int) =~= layout_constraints.same_layer@);
    assert(pairs@ =~= ps);
    i = 0;
    while i < pairs.len()
        invariant
            i <= pairs@.len(),
            pairs@ == ps,
            all_wf(layout_constraints.same_layer_clusters@),
            add_pairs(start, ps) is Some,
            add_pairs(start, ps.take(i as int)) == Some(cluster_elems(layout_constraints.same_layer_clusters@)),
            layout_constraints.left_of == old(layout_constraints).left_of,
            layout_constraints.above == old(layout_constraints).above,
            layout_constraints.same_layer == old(layout_constraints).same_layer,
            layout_constraints.back_edge == old(layout_constraints).back_edge,
        decreases pairs@.len() - i,
    {
        let (a, b) = pairs[i];
        proof {
            assert(ps.take(i + 1).drop_last() =~= ps.take(i as int));
            lemma_add_pairs_prefix(start, ps, i as int + 1);
        }
        add_pair_exec(&mut layout_constraints.same_layer_clusters, a, b);
        i = i + 1;
    }
    assert(ps.take(ps.len() as int) =~= ps);
}

/// A run that succeeds succeeds on every prefix too.
proof fn lemma_add_pairs_prefix(cs: Seq<Seq<NodeId>>, ps: Seq<(NodeId, NodeId)>, n: int)
    requires
        0 <= n <= ps.len(),
        add_pairs(cs, ps) is Some,
    ensures
        add_pairs(cs, ps.take(n)) is Some,
    decreases ps.len() - n,
{
    if n < ps.len() {
        assert(ps.take(n + 1).drop_last() =~= ps.take(n));
        lemma_add_pairs_prefix(cs, ps, n + 1);
    } else {
        assert(ps.take(n) =~= ps);
    }
}


/// Some cluster holds both `x` and `y`.
pub open spec fn together(cs: Seq<Seq<NodeId>>, x: NodeId, y: NodeId) -> bool {
    exists|k: int| 0 <= k < cs.len() && (#[trigger] cs[k]).contains(x) && cs[k].contains(y)
}

proof fn lemma_merge_into_holds_both(t: Seq<NodeId>, src: Seq<NodeId>)
    ensures
        forall|x: NodeId| t.contains(x) || src.contains(x) ==> #[trigger] merge_into(t, src).contains(x),
    decreases src.len(),
{
    if src.len() > 0 {
        lemma_merge_into_holds_both(t, src.drop_last());
        assert forall|x: NodeId| t.contains(x) || src.contains(x) implies #[trigger] merge_into(t, src).contains(x) by {
            let m = merge_into(t, src.drop_last());
            if x == src.last() {
                if !m.contains(x) {
                    assert(m.push(x)[m.len() as int] == x);
                }
            } else {
                if src.contains(x) {
                    let i = choose|i: int| 0 <= i < src.len() && src[i] == x;
                    assert(src.drop_last()[i] == x);
                }
                assert(m.contains(x));
                if !m.contains(src.last()) {
                    let i = choose|i: int| 0 <= i < m.len() && m[i] == x;
                    assert(m.push(src.last())[i] == x);
                }
            }
        }
    }
}

proof fn lemma_push_keeps(c: Seq<NodeId>, n: NodeId)
    ensures
        forall|x: NodeId| c.contains(x) ==> #[trigger] c.push(n).contains(x),
        c.push(n).contains(n),
{
    assert(c.push(n)[c.len() as int] == n);
    assert forall|x: NodeId| c.contains(x) implies #[trigger] c.push(n).contains(x) by {
        let i = choose|i: int| 0 <= i < c.len() && c[i] == x;
        assert(c.push(n)[i] == x);
    }
}

proof fn lemma_first_holding(cs: Seq<Seq<NodeId>>, x: NodeId, y: NodeId, k: int)
    ensures
        first_holding(cs, x, y, k) matches Some(j) ==> k <= j < cs.len() && (cs[j].contains(x) || cs[j].contains(y)),
    decreases cs.len() - k,
{
    if 0 <= k < cs.len() && !(cs[k].contains(x) || cs[k].contains(y)) {
        lemma_first_holding(cs, x, y, k + 1);
    }
}

/// Adding a pair keeps every two nodes that shared a cluster together, and puts the pair's two
/// nodes together.
proof fn lemma_add_pair_together(cs: Seq<Seq<NodeId>>, a: NodeId, b: NodeId, x: NodeId, y: NodeId)
    requires
        add_pair(cs, a, b) is Some,
    ensures
        together(cs, x, y) ==> together(add_pair(cs, a, b)->0, x, y),
        together(add_pair(cs, a, b)->0, a, b),
{
    let r = add_pair(cs, a, b)->0;
    lemma_first_holding(cs, a, b, 0);
    match first_holding(cs, a, b, 0) {
        None => {
            let n = insert_elem(seq![a], b);
            assert(seq![a][0] == a);
            lemma_push_keeps(seq![a], b);
            assert(n.contains(a) && n.contains(b));
            assert(r[cs.len() as int] == n);
            if together(cs, x, y) {
                let k = choose|k: int| 0 <= k < cs.len() && (#[trigger] cs[k]).contains(x) && cs[k].contains(y);
                assert(r[k] == cs[k]);
            }
        },
        Some(k) => {
            if cs[k].contains(a) && cs[k].contains(b) {
                assert(r[k] == cs[k]);
            } else {
                let needle = if cs[k].contains(a) { b } else { a };
                let c0 = cs[k].push(needle);
                lemma_push_keeps(cs[k], needle);
                assert(c0.contains(a) && c0.contains(b));
                lemma_first_holding(cs, needle, needle, k + 1);
                match first_holding(cs, needle, needle, k + 1) {
                    None => {
                        assert(r[k] == c0);
                        if together(cs, x, y) {
                            let q = choose|q: int| 0 <= q < cs.len() && (#[trigger] cs[q]).contains(x) && cs[q].contains(y);
                            if q != k {
                                assert(r[q] == cs[q]);
                            } else {
                                assert(r[k].contains(x) && r[k].contains(y));
                            }
                        }
                    },
                    Some(j) => {
                        let m = merge_into(c0, cs[j]);
                        lemma_merge_into_holds_both(c0, cs[j]);
                        assert(r[k] == m);
                        assert(m.contains(a) && m.contains(b));
                        if together(cs, x, y) {
                            let q = choose|q: int| 0 <= q < cs.len() && (#[trigger] cs[q]).contains(x) && cs[q].contains(y);
                            if q == k || q == j {
                                assert(r[k].contains(x) && r[k].contains(y));
                            } else {
                                assert(r[q] == cs[q]);
                            }
                        }
                    },
                }
            }
        },
    }
}

/// After the clusters are formed, the two nodes of every `above` and `same_layer` constraint lie
/// in one cluster.
pub proof fn lemma_pairs_share_a_cluster(cs: Seq<Seq<NodeId>>, ps: Seq<(NodeId, NodeId)>)
    requires
        add_pairs(cs, ps) is Some,
    ensures
        forall|i: int| 0 <= i < ps.len() ==> together(add_pairs(cs, ps)->0, (#[trigger] ps[i]).0, ps[i].1),
    decreases ps.len(),
{
    if ps.len() > 0 {
        let prev = ps.drop_last();
        assert(add_pairs(cs, prev) is Some);
        lemma_pairs_share_a_cluster(cs, prev);
        let c = add_pairs(cs, prev)->0;
        let last = ps.last();
        assert forall|i: int| 0 <= i < ps.len() implies together(add_pairs(cs, ps)->0, (#[trigger] ps[i]).0, ps[i].1) by {
            lemma_add_pair_together(c, last.0, last.1, ps[i].0, ps[i].1);
            if i < ps.len() - 1 {
                assert(prev[i] == ps[i]);
            }
        }
    }
}

} // verus!
