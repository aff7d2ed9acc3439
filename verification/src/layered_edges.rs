//! Collecting the vertical segments between two layers (or, for message flows that bend between
//! pools, between two pools) and grouping them by direction, with pairs of an upward and a
//! downward segment over the same span set apart as crossings.
use vstd::prelude::*;
use crate::edge_routing::{seg_max, seg_min, spec_breaks, state_complete, transpose, Alignment, MessageFlowBendPointStore,
    StartEnd, VerticalSegment};
use crate::edge_routing::{store_index, store_wf, MessageFlowBendState};
use crate::graph::{ports_fit, spec_port_is_left_or_right, spec_port_of, Edge, EdgeType, Graph, RegularEdgeBendPoints};
use crate::ids::{AbsolutePort, EdgeId, PoolId, XY};

verus! {

/// The vertical segments of one layer gap, grouped by direction.
#[derive(Debug)]
pub struct SegmentsOfSameLayer {
    pub left_loops: Vec<VerticalSegment>,
    pub up_message_flows: Vec<VerticalSegment>,
    pub up_edges: Vec<VerticalSegment>,
    /// An upward and a downward segment over the same span, which cross like an X.
    pub ixi_crossing: Vec<(VerticalSegment, VerticalSegment)>,
    pub down_edges: Vec<VerticalSegment>,
    pub down_message_flows: Vec<VerticalSegment>,
    pub right_loops: Vec<VerticalSegment>,
}

/// The groups of a layer gap as values.
pub struct SegmentGroups {
    pub up_message_flows: Seq<VerticalSegment>,
    pub up_edges: Seq<VerticalSegment>,
    pub ixi_crossing: Seq<(VerticalSegment, VerticalSegment)>,
    pub down_edges: Seq<VerticalSegment>,
    pub down_message_flows: Seq<VerticalSegment>,
}

/// `a` does not come after `b` in the order by lower end, then upper end.
pub open spec fn seg_le(a: VerticalSegment, b: VerticalSegment) -> bool {
    seg_min(a) < seg_min(b) || (seg_min(a) == seg_min(b) && seg_max(a) <= seg_max(b))
}

/// `s` is ordered by lower end, then upper end.
pub open spec fn segs_sorted(s: Seq<VerticalSegment>) -> bool {
    forall|i: int, j: int| 0 <= i < j < s.len() ==> seg_le(#[trigger] s[i], #[trigger] s[j])
}

/// Lexicographic order of pairs.
pub open spec fn pair_lt(a: (usize, usize), b: (usize, usize)) -> bool {
    a.0 < b.0 || (a.0 == b.0 && a.1 < b.1)
}

/// Walks the upward and the downward segments side by side, both in their order: an upward
/// segment and a downward one over the same span are paired; otherwise the one whose span
/// (upper end first for both) is smaller is kept and the walk goes on past it. Returns the kept
/// upward segments, the pairs and the kept downward segments.
pub open spec fn pair_crossings(ups: Seq<VerticalSegment>, downs: Seq<VerticalSegment>)
    -> (Seq<VerticalSegment>, Seq<(VerticalSegment, VerticalSegment)>, Seq<VerticalSegment>)
    decreases ups.len() + downs.len(),
{
    if ups.len() == 0 || downs.len() == 0 {
        (ups, Seq::empty(), downs)
    } else {
        let u = ups[0];
        let d = downs[0];
        let ku = (u.start_y, u.end_y);
        let kd = (d.end_y, d.start_y);
        if ku == kd {
            let r = pair_crossings(ups.drop_first(), downs.drop_first());
            (r.0, seq![(u, d)] + r.1, r.2)
        } else if pair_lt(ku, kd) {
            let r = pair_crossings(ups.drop_first(), downs);
            (seq![u] + r.0, r.1, r.2)
        } else {
            let r = pair_crossings(ups, downs.drop_first());
            (r.0, r.1, seq![d] + r.2)
        }
    }
}

pub open spec fn with_alignment(s: VerticalSegment, a: Alignment) -> VerticalSegment {
    VerticalSegment { alignment: a, ..s }
}

/// Whether `s` goes into the message flow groups.
pub open spec fn as_message_flow(s: VerticalSegment, split_message_flows: bool) -> bool {
    split_message_flows && s.is_message_flow
}

/// The groups of the segments `s` (ordered by `segs_sorted`): message flows apart (when
/// `split_message_flows`), aligned right when they go down and left when they go up, then the
/// other segments by direction, with the crossing pairs taken out, and the downward ones in
/// reverse order.
pub open spec fn group_segments(s: Seq<VerticalSegment>, split_message_flows: bool) -> SegmentGroups {
    let ups = s.filter(|x: VerticalSegment| !as_message_flow(x, split_message_flows) && x.start_y > x.end_y);
    let downs = s.filter(|x: VerticalSegment| !as_message_flow(x, split_message_flows) && x.start_y < x.end_y);
    let paired = pair_crossings(ups, downs);
    SegmentGroups {
        up_message_flows: s.filter(|x: VerticalSegment| as_message_flow(x, split_message_flows) && x.start_y > x.end_y)
            .map_values(|x: VerticalSegment| with_alignment(x, Alignment::Left)),
        up_edges: paired.0,
        ixi_crossing: paired.1,
        down_edges: paired.2.reverse(),
        down_message_flows: s.filter(|x: VerticalSegment| as_message_flow(x, split_message_flows) && x.start_y < x.end_y)
            .map_values(|x: VerticalSegment| with_alignment(x, Alignment::Right)),
    }
}

impl SegmentsOfSameLayer {
    pub open spec fn groups(&self) -> SegmentGroups {
        SegmentGroups {
            up_message_flows: self.up_message_flows@,
            up_edges: self.up_edges@,
            ixi_crossing: self.ixi_crossing@,
            down_edges: self.down_edges@,
            down_message_flows: self.down_message_flows@,
        }
    }
}

/// `segs` ordered by lower end, then upper end.
fn sort_segments(segs: Vec<VerticalSegment>) -> (r: Vec<VerticalSegment>)
    ensures
        r@.to_multiset() == segs@.to_multiset(),
        segs_sorted(r@),
{
    broadcast use vstd::seq_lib::group_to_multiset_ensures;
    let mut sorted: Vec<VerticalSegment> = Vec::new();
    let mut i: usize = 0;
    while i < segs.len()
        invariant
            i <= segs@.len(),
            sorted@.to_multiset() == segs@.take(i as int).to_multiset(),
            segs_sorted(sorted@),
        decreases segs@.len() - i,
    {
        let x = segs[i];
        let (lo, hi) = (x.min_y(), x.max_y());
        let mut j: usize = sorted.len();
        while j > 0 && (lo < sorted[j - 1].min_y() || (lo == sorted[j - 1].min_y() && hi < sorted[j - 1].max_y()))
            invariant
                j <= sorted@.len(),
                lo == seg_min(x),
                hi == seg_max(x),
                forall|m: int| j <= m < sorted@.len() ==> !seg_le(#[trigger] sorted@[m], x),
            decreases j,
        {
            j = j - 1;
        }
        let ghost before = sorted@;
        sorted.insert(j, x);
        proof {
            assert(sorted@ =~= before.insert(j as int, x));
            vstd::seq_lib::to_multiset_insert(before, j as int, x);
            assert(segs@.take(i + 1) =~= segs@.take(i as int).push(x));
            vstd::seq_lib::to_multiset_build(segs@.take(i as int), x);
            assert forall|a: int, b: int| 0 <= a < b < sorted@.len() implies seg_le(#[trigger] sorted@[a], #[trigger] sorted@[b]) by {
                if j > 0 && a < j as int && b == j as int {
                    assert(seg_le(before[a], before[j - 1]) || a == j - 1);
                }
            }
        }
        i = i + 1;
    }
    assert(segs@.take(segs@.len() as int) =~= segs@);
    sorted
}

fn set_alignment(s: VerticalSegment, a: Alignment) -> (r: VerticalSegment)
    ensures
        r == with_alignment(s, a),
{
    VerticalSegment { alignment: a, ..s }
}

/// Groups the segments `sorted` of one layer gap, as `group_segments` says.
fn group_sorted_segments(sorted: &Vec<VerticalSegment>, split_message_flows: bool) -> (r: SegmentsOfSameLayer)
    requires
        forall|k: int| 0 <= k < sorted@.len() ==> (#[trigger] sorted@[k]).start_y != sorted@[k].end_y,
    ensures
        r.groups() == group_segments(sorted@, split_message_flows),
        r.left_loops@.len() == 0,
        r.right_loops@.len() == 0,
{
    let ghost s = sorted@;
    let ghost up_p = |x: VerticalSegment| !as_message_flow(x, split_message_flows) && x.start_y > x.end_y;
    let ghost down_p = |x: VerticalSegment| !as_message_flow(x, split_message_flows) && x.start_y < x.end_y;
    let ghost up_mf_p = |x: VerticalSegment| as_message_flow(x, split_message_flows) && x.start_y > x.end_y;
    let ghost down_mf_p = |x: VerticalSegment| as_message_flow(x, split_message_flows) && x.start_y < x.end_y;
    let ghost left = |x: VerticalSegment| with_alignment(x, Alignment::Left);
    let ghost right = |x: VerticalSegment| with_alignment(x, Alignment::Right);
    let mut ups: Vec<VerticalSegment> = Vec::new();
    let mut downs: Vec<VerticalSegment> = Vec::new();
    let mut up_mfs: Vec<VerticalSegment> = Vec::new();
    let mut down_mfs: Vec<VerticalSegment> = Vec::new();
    let mut k: usize = 0;
    while k < sorted.len()
        invariant
            s == sorted@,
            k <= s.len(),
            forall|m: int| 0 <= m < s.len() ==> (#[trigger] s[m]).start_y != s[m].end_y,
            up_p == |x: VerticalSegment| !as_message_flow(x, split_message_flows) && x.start_y > x.end_y,
            down_p == |x: VerticalSegment| !as_message_flow(x, split_message_flows) && x.start_y < x.end_y,
            up_mf_p == |x: VerticalSegment| as_message_flow(x, split_message_flows) && x.start_y > x.end_y,
            down_mf_p == |x: VerticalSegment| as_message_flow(x, split_message_flows) && x.start_y < x.end_y,
            left == |x: VerticalSegment| with_alignment(x, Alignment::Left),
            right == |x: VerticalSegment| with_alignment(x, Alignment::Right),
            ups@ == s.take(k as int).filter(up_p),
            downs@ == s.take(k as int).filter(down_p),
            up_mfs@ == s.take(k as int).filter(up_mf_p).map_values(left),
            down_mfs@ == s.take(k as int).filter(down_mf_p).map_values(right),
        decreases s.len() - k,
    {
        let x = sorted[k];
        proof {
            assert(s.take(k + 1).drop_last() == s.take(k as int));
            assert(s.take(k + 1).last() == x);
            reveal_with_fuel(Seq::filter, 1);
        }
        if split_message_flows && x.is_message_flow {
            if x.start_y < x.end_y {
                down_mfs.push(set_alignment(x, Alignment::Right));
                assert(s.take(k + 1).filter(down_mf_p) == s.take(k as int).filter(down_mf_p).push(x));
                assert(s.take(k + 1).filter(down_mf_p).map_values(right)
                    =~= s.take(k as int).filter(down_mf_p).map_values(right).push(right(x)));
            } else {
                up_mfs.push(set_alignment(x, Alignment::Left));
                assert(s.take(k + 1).filter(up_mf_p) == s.take(k as int).filter(up_mf_p).push(x));
                assert(s.take(k + 1).filter(up_mf_p).map_values(left)
                    =~= s.take(k as int).filter(up_mf_p).map_values(left).push(left(x)));
            }
        } else if x.start_y < x.end_y {
            downs.push(x);
        } else {
            ups.push(x);
        }
        k = k + 1;
    }
    assert(s.take(s.len() as int) =~= s);
    // Pair upward and downward segments over the same span.
    let mut kept_ups: Vec<VerticalSegment> = Vec::new();
    let mut kept_downs: Vec<VerticalSegment> = Vec::new();
    let mut pairs: Vec<(VerticalSegment, VerticalSegment)> = Vec::new();
    let ghost all = pair_crossings(ups@, downs@);
    let mut i: usize = 0;
    let mut j: usize = 0;
    proof {
        assert(ups@.skip(0) =~= ups@);
        assert(downs@.skip(0) =~= downs@);
        let rest = pair_crossings(ups@, downs@);
        assert(kept_ups@ + rest.0 =~= rest.0);
        assert(pairs@ + rest.1 =~= rest.1);
        assert(kept_downs@ + rest.2 =~= rest.2);
    }
    while i < ups.len() && j < downs.len()
        invariant
            i <= ups@.len(),
            j <= downs@.len(),
            all == pair_crossings(ups@, downs@),
            ({
                let rest = pair_crossings(ups@.skip(i as int), downs@.skip(j as int));
                all == (kept_ups@ + rest.0, pairs@ + rest.1, kept_downs@ + rest.2)
            }),
        decreases ups@.len() - i + downs@.len() - j,
    {
        let u = ups[i];
        let d = downs[j];
        proof {
            assert(ups@.skip(i as int)[0] == u);
            assert(downs@.skip(j as int)[0] == d);
            assert(ups@.skip(i as int).drop_first() =~= ups@.skip(i + 1));
            assert(downs@.skip(j as int).drop_first() =~= downs@.skip(j + 1));
        }
        if u.start_y == d.end_y && u.end_y == d.start_y {
            pairs.push((u, d));
            i = i + 1;
            j = j + 1;
        } else if u.start_y < d.end_y || (u.start_y == d.end_y && u.end_y < d.start_y) {
            kept_ups.push(u);
            i = i + 1;
        } else {
            kept_downs.push(d);
            j = j + 1;
        }
        proof {
            let rest = pair_crossings(ups@.skip(i as int), downs@.skip(j as int));
            assert(all.0 =~= kept_ups@ + rest.0);
            assert(all.1 =~= pairs@ + rest.1);
            assert(all.2 =~= kept_downs@ + rest.2);
        }
    }
    proof {
        let rest = pair_crossings(ups@.skip(i as int), downs@.skip(j as int));
        assert(rest == (ups@.skip(i as int), Seq::<(VerticalSegment, VerticalSegment)>::empty(), downs@.skip(j as int)));
        assert(all.1 =~= pairs@);
    }
    while i < ups.len()
        invariant
            i <= ups@.len(),
            all.0 == kept_ups@ + ups@.skip(i as int),
        decreases ups@.len() - i,
    {
        let ghost before = kept_ups@;
        kept_ups.push(ups[i]);
        assert(kept_ups@ + ups@.skip(i + 1) =~= before + ups@.skip(i as int));
        i = i + 1;
    }
    assert(ups@.skip(i as int) =~= Seq::<VerticalSegment>::empty());
    assert(all.0 =~= kept_ups@);
    while j < downs.len()
        invariant
            j <= downs@.len(),
            all.2 == kept_downs@ + downs@.skip(j as int),
        decreases downs@.len() - j,
    {
        let ghost before = kept_downs@;
        kept_downs.push(downs[j]);
        assert(kept_downs@ + downs@.skip(j + 1) =~= before + downs@.skip(j as int));
        j = j + 1;
    }
    assert(downs@.skip(j as int) =~= Seq::<VerticalSegment>::empty());
    assert(all.2 =~= kept_downs@);
    let reversed = reverse_segments(&kept_downs);
    SegmentsOfSameLayer {
        left_loops: Vec::new(),
        up_message_flows: up_mfs,
        up_edges: kept_ups,
        ixi_crossing: pairs,
        down_edges: reversed,
        down_message_flows: down_mfs,
        right_loops: Vec::new(),
    }
}

fn reverse_segments(v: &Vec<VerticalSegment>) -> (r: Vec<VerticalSegment>)
    ensures
        r@ == v@.reverse(),
{
    let mut r: Vec<VerticalSegment> = Vec::new();
    let mut k: usize = v.len();
    while k > 0
        invariant
            k <= v@.len(),
            r@ == v@.skip(k as int).reverse(),
        decreases k,
    {
        k = k - 1;
        r.push(v[k]);
        assert(v@.skip(k as int).reverse() =~= v@.skip(k + 1).reverse().push(v@[k as int]));
    }
    assert(v@.skip(0) =~= v@);
    r
}


/// What grouping the segments `segs` of a layer gap gives: the groups of some order of `segs` by
/// lower end, then upper end. Segments with equal ends may come in either order.
pub open spec fn groups_of(r: SegmentsOfSameLayer, segs: Seq<VerticalSegment>, split_message_flows: bool) -> bool {
    exists|s: Seq<VerticalSegment>| #![trigger group_segments(s, split_message_flows)]
        s.to_multiset() == segs.to_multiset() && segs_sorted(s) && r.groups() == group_segments(s, split_message_flows)
}

/// Sorts and groups the segments of one layer gap.
fn group_layer(segs: Vec<VerticalSegment>, split_message_flows: bool) -> (r: SegmentsOfSameLayer)
    requires
        forall|k: int| 0 <= k < segs@.len() ==> (#[trigger] segs@[k]).start_y != segs@[k].end_y,
    ensures
        groups_of(r, segs@, split_message_flows),
        r.left_loops@.len() == 0,
        r.right_loops@.len() == 0,
{
    broadcast use vstd::seq_lib::group_to_multiset_ensures;
    let ghost orig = segs@;
    let sorted = sort_segments(segs);
    assert forall|k: int| 0 <= k < sorted@.len() implies (#[trigger] sorted@[k]).start_y != sorted@[k].end_y by {
        assert(sorted@.contains(sorted@[k]));
        assert(sorted@.to_multiset().count(sorted@[k]) > 0);
        assert(orig.contains(sorted@[k]));
    }
    let r = group_sorted_segments(&sorted, split_message_flows);
    assert(group_segments(sorted@, split_message_flows) == r.groups());
    r
}

/// The segment between pools of a message flow that bends after pool `b.0`: it runs from the
/// start to the end of its part between the pools, downwards when the flow goes to a later pool.
pub open spec fn break_segment(g: Graph, b: (PoolId, EdgeId, StartEnd)) -> VerticalSegment {
    let e = g.edges@[b.1.0 as int];
    let down = g.nodes@[e.from.0 as int].pool.0 < g.nodes@[e.to.0 as int].pool.0;
    VerticalSegment {
        id: b.1,
        start_y: if down { b.2.start } else { b.2.end },
        end_y: if down { b.2.end } else { b.2.start },
        idx: 0,
        idx2: None,
        is_message_flow: true,
        alignment: Alignment::Center,
    }
}

/// The segments between pools that bend after pool `p`, in the order of the store.
pub open spec fn pool_segments(g: Graph, breaks: Seq<(PoolId, EdgeId, StartEnd)>, p: int) -> Seq<VerticalSegment> {
    breaks.filter(|b: (PoolId, EdgeId, StartEnd)| b.0.0 == p).map_values(|b: (PoolId, EdgeId, StartEnd)| break_segment(g, b))
}

/// The message flows of the store are complete, bend after existing pools, exist with their
/// ends, and have parts between the pools of non-zero length.
pub open spec fn mf_store_ok(g: Graph, store: MessageFlowBendPointStore) -> bool {
    &&& forall|i: int| 0 <= i < store.store@.len() ==> state_complete(#[trigger] store.store@[i].1)
    &&& forall|i: int| 0 <= i < spec_breaks(store.store@).len() ==> {
        let b = #[trigger] spec_breaks(store.store@)[i];
        &&& b.0.0 < g.pools@.len()
        &&& b.1.0 < g.edges@.len()
        &&& g.edges@[b.1.0 as int].from.0 < g.nodes@.len()
        &&& g.edges@[b.1.0 as int].to.0 < g.nodes@.len()
        &&& b.2.start != b.2.end
    }
}

/// For every pool, the grouped segments between it and the next pool of the message flows that
/// bend after it.
pub fn get_layered_mfs(graph: &Graph, mf_store: &MessageFlowBendPointStore) -> (r: Vec<SegmentsOfSameLayer>)
    requires
        mf_store_ok(*graph, *mf_store),
    ensures
        r@.len() == graph.pools@.len(),
        forall|p: int| 0 <= p < r@.len() ==> groups_of(#[trigger] r@[p], pool_segments(*graph, spec_breaks(mf_store.store@), p), false),
{
    let breaks = mf_store.iter_edges_for_break_after_pool();
    let ghost bs = breaks@;
    let mut layers: Vec<Vec<VerticalSegment>> = Vec::new();
    let mut p: usize = 0;
    while p < graph.pools.len()
        invariant
            p <= graph.pools@.len(),
            layers@.len() == p,
            forall|q: int| 0 <= q < p ==> (#[trigger] layers@[q])@.len() == 0,
        decreases graph.pools@.len() - p,
    {
        layers.push(Vec::new());
        p = p + 1;
    }
    let ghost sel = |b: (PoolId, EdgeId, StartEnd)| break_segment(*graph, b);
    let mut k: usize = 0;
    while k < breaks.len()
        invariant
            bs == breaks@,
            bs == spec_breaks(mf_store.store@),
            mf_store_ok(*graph, *mf_store),
            k <= bs.len(),
            layers@.len() == graph.pools@.len(),
            sel == |b: (PoolId, EdgeId, StartEnd)| break_segment(*graph, b),
            forall|q: int| 0 <= q < layers@.len() ==> (#[trigger] layers@[q])@
                == bs.take(k as int).filter(|b: (PoolId, EdgeId, StartEnd)| b.0.0 == q).map_values(sel),
        decreases bs.len() - k,
    {
        let (pool_id, edge_id, start_end) = breaks[k];
        assert(bs[k as int] == (pool_id, edge_id, start_end));
        let edge = &graph.edges[edge_id.0];
        let is_down = graph.nodes[edge.from.0].pool.0 < graph.nodes[edge.to.0].pool.0;
        let ((_, start_y), (_, end_y)) = transpose((start_end.start, 0), (start_end.end, 0), is_down);
        let seg = VerticalSegment {
            id: edge_id,
            start_y,
            end_y,
            idx: 0,
            idx2: None,
            is_message_flow: true,
            alignment: Alignment::Center,
        };
        assert(seg == sel(bs[k as int]));
        let ghost before = layers@;
        layers[pool_id.0].push(seg);
        proof {
            assert(bs.take(k + 1).drop_last() == bs.take(k as int));
            assert forall|q: int| 0 <= q < layers@.len() implies (#[trigger] layers@[q])@
                == bs.take(k + 1).filter(|b: (PoolId, EdgeId, StartEnd)| b.0.0 == q).map_values(sel) by {
                let f = |b: (PoolId, EdgeId, StartEnd)| b.0.0 == q;
                reveal_with_fuel(Seq::filter, 1);
                if q == pool_id.0 {
                    assert(bs.take(k + 1).filter(f) == bs.take(k as int).filter(f).push(bs[k as int]));
                    assert(bs.take(k + 1).filter(f).map_values(sel) =~= bs.take(k as int).filter(f).map_values(sel).push(seg));
                } else {
                    assert(bs.take(k + 1).filter(f) == bs.take(k as int).filter(f));
                    assert(layers@[q] == before[q]);
                }
            }
        }
        k = k + 1;
    }
    assert(bs.take(bs.len() as int) =~= bs);
    let mut result: Vec<SegmentsOfSameLayer> = Vec::new();
    let mut p: usize = 0;
    while p < layers.len()
        invariant
            p <= layers@.len(),
            layers@.len() == graph.pools@.len(),
            bs == spec_breaks(mf_store.store@),
            mf_store_ok(*graph, *mf_store),
            sel == |b: (PoolId, EdgeId, StartEnd)| break_segment(*graph, b),
            forall|q: int| 0 <= q < layers@.len() ==> (#[trigger] layers@[q])@
                == bs.filter(|b: (PoolId, EdgeId, StartEnd)| b.0.0 == q).map_values(sel),
            result@.len() == p,
            forall|q: int| 0 <= q < p ==> groups_of(#[trigger] result@[q], pool_segments(*graph, bs, q), false),
        decreases layers@.len() - p,
    {
        let segs = copy_segments(&layers[p]);
        assert(segs@ == pool_segments(*graph, bs, p as int));
        proof {
            broadcast use vstd::seq_lib::group_filter_ensures;
            let f = |b: (PoolId, EdgeId, StartEnd)| b.0.0 == p;
            assert forall|m: int| 0 <= m < segs@.len() implies (#[trigger] segs@[m]).start_y != segs@[m].end_y by {
                let b = bs.filter(f)[m];
                assert(bs.filter(f).contains(b));
                bs.lemma_filter_contains_rev(f, b);
                let i = choose|i: int| 0 <= i < bs.len() && bs[i] == b;
                assert(bs[i].2.start != bs[i].2.end);
            }
        }
        result.push(group_layer(segs, false));
        p = p + 1;
    }
    result
}

fn copy_segments(v: &Vec<VerticalSegment>) -> (r: Vec<VerticalSegment>)
    ensures
        r@ == v@,
{
    let mut r: Vec<VerticalSegment> = Vec::new();
    let mut k: usize = 0;
    while k < v.len()
        invariant
            k <= v@.len(),
            r@ == v@.take(k as int),
        decreases v@.len() - k,
    {
        r.push(v[k]);
        assert(v@.take(k + 1) =~= v@.take(k as int).push(v@[k as int]));
        k = k + 1;
    }
    assert(v@.take(v@.len() as int) =~= v@);
    r
}


/// The absolute port at which edge `k` leaves its source.
pub open spec fn out_port(g: Graph, k: int) -> Option<AbsolutePort> {
    let n = g.nodes@[g.edges@[k].from.0 as int];
    spec_port_of(n.outgoing@, n.outgoing_ports@, XY { x: n.x, y: n.y }, EdgeId(k as usize))
}

/// The absolute port at which edge `k` enters its target.
pub open spec fn in_port(g: Graph, k: int) -> Option<AbsolutePort> {
    let n = g.nodes@[g.edges@[k].to.0 as int];
    spec_port_of(n.incoming@, n.incoming_ports@, XY { x: n.x, y: n.y }, EdgeId(k as usize))
}

/// Edges that need no segments here: vertical ones, fully routed ones and those replaced by
/// dummies.
pub open spec fn needs_no_segments(e: Edge) -> bool {
    ||| e.is_vertical
    ||| e.edge_type matches EdgeType::Regular { bend_points: RegularEdgeBendPoints::FullyRouted(_), .. }
    ||| e.edge_type is ReplacedByDummies
}

pub open spec fn new_segment(id: EdgeId, start_y: usize, end_y: usize, is_message_flow: bool) -> VerticalSegment {
    VerticalSegment { id, start_y, end_y, idx: 0, idx2: None, is_message_flow, alignment: Alignment::Center }
}

/// The pool after which a message flow from pool `from` to pool `to` bends, and the bottom border
/// of that pool.
pub open spec fn interpool(g: Graph, from: PoolId, to: PoolId) -> (PoolId, int) {
    let p = if from.0 < to.0 { from.0 as int } else { from.0 - 1 };
    (PoolId(p as usize), g.pools@[p].y + g.pools@[p].height)
}

/// The vertical segments of edge `k`, each with the index of the layer gap it goes into. A
/// sequence or data flow has one segment in the gap after its source's layer, unless it is
/// horizontal. A message flow that leaves and enters at a side has one segment in the gap before
/// its target's layer if that is the next one, else one down (or up) to the border of the pool
/// it bends after and one from there; one that leaves at a side and enters at the top or bottom
/// has only the first of these; one that neither leaves nor enters at a side has none.
pub open spec fn edge_segments(g: Graph, k: int) -> Seq<(int, VerticalSegment)> {
    let e = g.edges@[k];
    let id = EdgeId(k as usize);
    if needs_no_segments(e) {
        Seq::empty()
    } else {
        let f = g.nodes@[e.from.0 as int];
        let t = g.nodes@[e.to.0 as int];
        let s = out_port(g, k)->0;
        let d = in_port(g, k)->0;
        if !(e.flow_type is MessageFlow) {
            if s.y == d.y { Seq::empty() } else { seq![(f.layer_id.0 + 1, new_segment(id, s.y, d.y, false))] }
        } else {
            let iy = interpool(g, f.pool, t.pool).1 as usize;
            let fh = spec_port_is_left_or_right(f, s.y);
            let th = spec_port_is_left_or_right(t, d.y);
            if fh && th {
                if f.layer_id.0 + 1 == t.layer_id.0 {
                    seq![(t.layer_id.0 as int, new_segment(id, s.y, d.y, true))]
                } else {
                    seq![(f.layer_id.0 + 1, new_segment(id, s.y, iy, true)), (t.layer_id.0 as int, new_segment(id, iy, d.y, true))]
                }
            } else if fh {
                seq![(f.layer_id.0 + 1, new_segment(id, s.y, iy, true))]
            } else {
                Seq::empty()
            }
        }
    }
}

/// The bend state that edge `k` is registered with, if it is a message flow that needs segments.
pub open spec fn edge_state(g: Graph, k: int) -> Option<MessageFlowBendState> {
    let e = g.edges@[k];
    if needs_no_segments(e) || !(e.flow_type is MessageFlow) {
        None
    } else {
        let f = g.nodes@[e.from.0 as int];
        let t = g.nodes@[e.to.0 as int];
        let s = out_port(g, k)->0;
        let d = in_port(g, k)->0;
        let bap = interpool(g, f.pool, t.pool).0;
        let fh = spec_port_is_left_or_right(f, s.y);
        let th = spec_port_is_left_or_right(t, d.y);
        if fh && th {
            if f.layer_id.0 + 1 == t.layer_id.0 {
                Some(MessageFlowBendState::HorVerHor)
            } else {
                Some(MessageFlowBendState::HorVerHorVerHor { bends_after_pool: bap, bend_point_1: None, bend_point_2: None })
            }
        } else if fh {
            Some(MessageFlowBendState::HorVerHorVer { bends_after_pool: bap, bend_point_1: None, interpool_bendpoint2_x: d.x })
        } else {
            Some(MessageFlowBendState::VerHorVer { bends_after_pool: bap, interpool_bendpoint1_x: s.x, interpool_bendpoint2_x: d.x })
        }
    }
}

/// The segments of `s` that go into layer gap `layer`.
pub open spec fn layer_pick(s: Seq<(int, VerticalSegment)>, layer: int) -> Seq<VerticalSegment> {
    s.filter(in_layer(layer)).map_values(|p: (int, VerticalSegment)| p.1)
}

pub open spec fn in_layer(layer: int) -> spec_fn((int, VerticalSegment)) -> bool {
    |p: (int, VerticalSegment)| p.0 == layer
}

proof fn lemma_layer_pick_push(s: Seq<(int, VerticalSegment)>, p: (int, VerticalSegment), layer: int)
    ensures
        layer_pick(s.push(p), layer) == layer_pick(s, layer) + if p.0 == layer { seq![p.1] } else { Seq::empty() },
{
    let f = in_layer(layer);
    let m = |p: (int, VerticalSegment)| p.1;
    reveal_with_fuel(Seq::filter, 1);
    assert(s.push(p).drop_last() =~= s);
    if p.0 == layer {
        assert(s.push(p).filter(f) == s.filter(f).push(p));
        assert(s.push(p).filter(f).map_values(m) =~= s.filter(f).map_values(m).push(p.1));
        assert(layer_pick(s, layer) + seq![p.1] =~= layer_pick(s, layer).push(p.1));
    } else {
        assert(s.push(p).filter(f) == s.filter(f));
        assert(layer_pick(s, layer) + Seq::empty() =~= layer_pick(s, layer));
    }
}

/// The segments of the first `n` edges that go into layer gap `layer`, in edge order.
pub open spec fn layer_segments(g: Graph, n: int, layer: int) -> Seq<VerticalSegment>
    decreases n,
{
    if n <= 0 {
        Seq::empty()
    } else {
        layer_segments(g, n - 1, layer) + layer_pick(edge_segments(g, n - 1), layer)
    }
}

/// The bend states of the message flows among the first `n` edges, in edge order.
pub open spec fn mf_states(g: Graph, n: int) -> Seq<(EdgeId, MessageFlowBendState)>
    decreases n,
{
    if n <= 0 {
        Seq::empty()
    } else {
        mf_states(g, n - 1) + match edge_state(g, n - 1) {
            Some(st) => seq![(EdgeId((n - 1) as usize), st)],
            None => Seq::empty(),
        }
    }
}

/// What collecting the segments needs of edge `k`: its ends and their ports exist, a message flow
/// joins two different pools (and does not enter at a side after leaving at the top or bottom),
/// and each of its segments goes into an existing layer gap and has non-zero length.
pub open spec fn edge_ok(g: Graph, k: int) -> bool {
    let e = g.edges@[k];
    let f = g.nodes@[e.from.0 as int];
    let t = g.nodes@[e.to.0 as int];
    !needs_no_segments(e) ==> {
        &&& e.from.0 < g.nodes@.len()
        &&& e.to.0 < g.nodes@.len()
        &&& ports_fit(f.outgoing_ports@, f.x, f.y)
        &&& ports_fit(t.incoming_ports@, t.x, t.y)
        &&& out_port(g, k) is Some
        &&& in_port(g, k) is Some
        &&& e.flow_type is MessageFlow ==> {
            &&& f.pool != t.pool
            &&& f.pool.0 < g.pools@.len()
            &&& t.pool.0 < g.pools@.len()
            &&& interpool(g, f.pool, t.pool).1 <= usize::MAX
            &&& !(!spec_port_is_left_or_right(f, out_port(g, k)->0.y) && spec_port_is_left_or_right(t, in_port(g, k)->0.y))
        }
        &&& forall|i: int| 0 <= i < edge_segments(g, k).len() ==> {
            let p = #[trigger] edge_segments(g, k)[i];
            p.0 <= g.num_layers && p.1.start_y != p.1.end_y
        }
    }
}

pub open spec fn layered_edges_ok(g: Graph) -> bool {
    &&& g.num_layers < usize::MAX
    &&& forall|k: int| 0 <= k < g.edges@.len() ==> #[trigger] edge_ok(g, k)
}


fn make_segment(id: EdgeId, start_y: usize, end_y: usize, is_message_flow: bool) -> (r: VerticalSegment)
    ensures
        r == new_segment(id, start_y, end_y, is_message_flow),
{
    VerticalSegment { id, start_y, end_y, idx: 0, idx2: None, is_message_flow, alignment: Alignment::Center }
}

pub open spec fn as_int_pairs(items: Seq<(usize, VerticalSegment)>) -> Seq<(int, VerticalSegment)> {
    items.map_values(|p: (usize, VerticalSegment)| (p.0 as int, p.1))
}

/// Appends each segment of `items` to the list of its layer gap, in order.
fn push_all(layers: &mut Vec<Vec<VerticalSegment>>, items: Vec<(usize, VerticalSegment)>)
    requires
        forall|i: int| 0 <= i < items@.len() ==> (#[trigger] items@[i]).0 < old(layers)@.len(),
    ensures
        final(layers)@.len() == old(layers)@.len(),
        forall|q: int| 0 <= q < old(layers)@.len() ==>
            (#[trigger] final(layers)@[q])@ == old(layers)@[q]@ + layer_pick(as_int_pairs(items@), q),
{
    let ghost start = layers@;
    let mut i: usize = 0;
    while i < items.len()
        invariant
            i <= items@.len(),
            layers@.len() == start.len(),
            forall|j: int| 0 <= j < items@.len() ==> (#[trigger] items@[j]).0 < start.len(),
            forall|q: int| 0 <= q < start.len() ==>
                (#[trigger] layers@[q])@ == start[q]@ + layer_pick(as_int_pairs(items@.take(i as int)), q),
        decreases items@.len() - i,
    {
        let (a, seg) = items[i];
        let ghost before = layers@;
        layers[a].push(seg);
        proof {
            let p = (a as int, seg);
            assert(as_int_pairs(items@.take(i + 1)) =~= as_int_pairs(items@.take(i as int)).push(p));
            assert forall|q: int| 0 <= q < start.len() implies
                (#[trigger] layers@[q])@ == start[q]@ + layer_pick(as_int_pairs(items@.take(i + 1)), q) by {
                lemma_layer_pick_push(as_int_pairs(items@.take(i as int)), p, q);
                if q == a as int {
                    assert(layers@[q]@ =~= before[q]@.push(seg));
                } else {
                    assert(layers@[q] == before[q]);
                }
            }
        }
        i = i + 1;
    }
    assert(items@.take(items@.len() as int) =~= items@);
}

/// The layer gaps' grouped segments of all edges, and the bend states of the message flows. Gap
/// `l` lies between layers `l - 1` and `l`.
pub fn get_layered_edges(graph: &Graph) -> (r: (Vec<SegmentsOfSameLayer>, MessageFlowBendPointStore))
    requires
        layered_edges_ok(*graph),
    ensures
        r.0@.len() == graph.num_layers + 1,
        forall|l: int| 0 <= l < r.0@.len() ==>
            groups_of(#[trigger] r.0@[l], layer_segments(*graph, graph.edges@.len() as int, l), true),
        r.1.store@ == mf_states(*graph, graph.edges@.len() as int),
{
    let mut mf_store = MessageFlowBendPointStore::new();
    let mut layers: Vec<Vec<VerticalSegment>> = Vec::new();
    let mut l: usize = 0;
    while l <= graph.num_layers
        invariant
            graph.num_layers < usize::MAX,
            l <= graph.num_layers + 1,
            layers@.len() == l,
            forall|q: int| 0 <= q < l ==> (#[trigger] layers@[q])@.len() == 0,
        decreases graph.num_layers + 1 - l,
    {
        layers.push(Vec::new());
        l = l + 1;
    }
    proof {
        assert forall|q: int| 0 <= q < layers@.len() implies (#[trigger] layers@[q])@ == layer_segments(*graph, 0, q) by {
            assert(layers@[q]@ =~= Seq::<VerticalSegment>::empty());
        }
        assert(mf_store.store@ =~= mf_states(*graph, 0));
    }
    let mut k: usize = 0;
    while k < graph.edges.len()
        invariant
            layered_edges_ok(*graph),
            k <= graph.edges@.len(),
            layers@.len() == graph.num_layers + 1,
            forall|q: int| 0 <= q < layers@.len() ==> (#[trigger] layers@[q])@ == layer_segments(*graph, k as int, q),
            mf_store.store@ == mf_states(*graph, k as int),
            store_wf(mf_store.store@),
            forall|i: int| 0 <= i < mf_store.store@.len() ==> (#[trigger] mf_store.store@[i]).0.0 < k,
        decreases graph.edges@.len() - k,
    {
        assert(edge_ok(*graph, k as int));
        let ghost segs = edge_segments(*graph, k as int);
        let edge = &graph.edges[k];
        let id = EdgeId(k);
        let skip = edge.is_vertical || match &edge.edge_type {
            EdgeType::Regular { bend_points: RegularEdgeBendPoints::FullyRouted(_), .. } => true,
            EdgeType::ReplacedByDummies { .. } => true,
            _ => false,
        };
        let mut items: Vec<(usize, VerticalSegment)> = Vec::new();
        if !skip {
            let from = &graph.nodes[edge.from.0];
            let to = &graph.nodes[edge.to.0];
            let s = from.port_of_outgoing(id).unwrap();
            let d = to.port_of_incoming(id).unwrap();
            assert(s == out_port(*graph, k as int)->0);
            assert(d == in_port(*graph, k as int)->0);
            if !edge.is_message_flow() {
                if s.y != d.y {
                    assert(segs[0].0 <= graph.num_layers);
                    items.push((from.layer_id.0 + 1, make_segment(id, s.y, d.y, false)));
                }
            } else {
                let fh = from.port_is_left_or_right(s.y);
                let th = to.port_is_left_or_right(d.y);
                let (bap, iy) = graph.interpool_y(from.pool, to.pool);
                let ghost store_before = mf_store.store@;
                let state = if fh && th {
                    if from.layer_id.0 < to.layer_id.0 && to.layer_id.0 - from.layer_id.0 == 1 {
                        items.push((to.layer_id.0, make_segment(id, s.y, d.y, true)));
                        MessageFlowBendState::HorVerHor
                    } else {
                        assert(segs[0].0 <= graph.num_layers);
                        items.push((from.layer_id.0 + 1, make_segment(id, s.y, iy, true)));
                        items.push((to.layer_id.0, make_segment(id, iy, d.y, true)));
                        MessageFlowBendState::HorVerHorVerHor { bends_after_pool: bap, bend_point_1: None, bend_point_2: None }
                    }
                } else if fh {
                    assert(segs[0].0 <= graph.num_layers);
                    items.push((from.layer_id.0 + 1, make_segment(id, s.y, iy, true)));
                    MessageFlowBendState::HorVerHorVer { bends_after_pool: bap, bend_point_1: None, interpool_bendpoint2_x: d.x }
                } else {
                    MessageFlowBendState::VerHorVer { bends_after_pool: bap, interpool_bendpoint1_x: s.x, interpool_bendpoint2_x: d.x }
                };
                assert(edge_state(*graph, k as int) == Some(state));
                assert(store_index(store_before, id) is None) by {
                    if exists|j: int| 0 <= j < store_before.len() && store_before[j].0 == id {
                        let j = choose|j: int| 0 <= j < store_before.len() && store_before[j].0 == id;
                        assert(store_before[j].0.0 < k);
                    }
                }
                mf_store.register_edge(id, state);
            }
        }
        assert(as_int_pairs(items@) =~= segs);
        assert forall|i: int| 0 <= i < items@.len() implies (#[trigger] items@[i]).0 < layers@.len() by {
            assert(as_int_pairs(items@)[i] == segs[i]);
        }
        let ghost before = layers@;
        push_all(&mut layers, items);
        proof {
            assert forall|q: int| 0 <= q < layers@.len() implies (#[trigger] layers@[q])@ == layer_segments(*graph, k + 1, q) by {
                assert(layers@[q]@ == before[q]@ + layer_pick(segs, q));
            }
            assert(mf_states(*graph, k + 1) =~= mf_store.store@);
        }
        k = k + 1;
    }
    let ghost all = graph.edges@.len() as int;
    let mut result: Vec<SegmentsOfSameLayer> = Vec::new();
    let mut q: usize = 0;
    while q < layers.len()
        invariant
            layered_edges_ok(*graph),
            all == graph.edges@.len(),
            q <= layers@.len(),
            layers@.len() == graph.num_layers + 1,
            forall|p: int| 0 <= p < layers@.len() ==> (#[trigger] layers@[p])@ == layer_segments(*graph, all, p),
            result@.len() == q,
            forall|p: int| 0 <= p < q ==> groups_of(#[trigger] result@[p], layer_segments(*graph, all, p), true),
        decreases layers@.len() - q,
    {
        let segs = copy_segments(&layers[q]);
        proof {
            lemma_layer_segments_nonzero(*graph, all, q as int);
        }
        result.push(group_layer(segs, true));
        q = q + 1;
    }
    (result, mf_store)
}

/// Every segment collected has non-zero length.
proof fn lemma_layer_segments_nonzero(g: Graph, n: int, layer: int)
    requires
        layered_edges_ok(g),
        n <= g.edges@.len(),
    ensures
        forall|m: int| 0 <= m < layer_segments(g, n, layer).len() ==>
            (#[trigger] layer_segments(g, n, layer)[m]).start_y != layer_segments(g, n, layer)[m].end_y,
    decreases n,
{
    if n > 0 {
        lemma_layer_segments_nonzero(g, n - 1, layer);
        assert(edge_ok(g, n - 1));
        let segs = edge_segments(g, n - 1);
        let f = in_layer(layer);
        let picked = layer_pick(segs, layer);
        assert forall|m: int| 0 <= m < picked.len() implies (#[trigger] picked[m]).start_y != picked[m].end_y by {
            broadcast use vstd::seq_lib::group_filter_ensures;
            assert(picked.len() == segs.filter(f).len());
            let p = segs.filter(f)[m];
            assert(picked[m] == p.1);
            assert(segs.filter(f).contains(p));
            segs.lemma_filter_contains_rev(f, p);
            let i = choose|i: int| 0 <= i < segs.len() && segs[i] == p;
            assert(segs[i].1.start_y != segs[i].1.end_y);
        }
        let prev = layer_segments(g, n - 1, layer);
        let all = layer_segments(g, n, layer);
        assert(all == prev + picked);
        assert forall|m: int| 0 <= m < all.len() implies (#[trigger] all[m]).start_y != all[m].end_y by {
            if m < prev.len() {
                assert(all[m] == prev[m]);
            } else {
                assert(all[m] == picked[m - prev.len()]);
            }
        }
    }
}

} // verus!
