//! Which semantic data elements travel along message flows and through nodes: a message flow
//! carries the data that flows into its sender and out of its receiver, and a node carries the
//! data that both enters and leaves it.
use vstd::prelude::*;
use crate::bpmn_node::BpmnNode;
use crate::graph::{spec_is_gateway, spec_transported_data, Edge, FlowType, Graph, Node, NodeType};
use crate::ids::{EdgeId, NodeId, SdeId};

verus! {

/// Node `n` is a data node of element `s`.
pub open spec fn is_data_of(n: Node, s: SdeId) -> bool {
    n.node_type matches NodeType::RealNode { event: BpmnNode::Data(_, aux), .. } && aux.sde_id == s
}

/// The data elements of the data nodes at the far end of the data flows among `edge_ids`: their
/// sources when `sources`, else their targets.
pub open spec fn data_at_ends(g: Graph, edge_ids: Seq<EdgeId>, sources: bool) -> Set<SdeId> {
    Set::new(|s: SdeId| exists|k: int| 0 <= k < edge_ids.len() && {
        let e = g.edges@[(#[trigger] edge_ids[k]).0 as int];
        &&& e.flow_type is DataFlow
        &&& is_data_of(g.nodes@[(if sources { e.from } else { e.to }).0 as int], s)
    })
}

/// What message flow `j` carries afterwards: what it carried, and each element that flows into
/// its sender and out of its receiver.
pub open spec fn message_flow_data(g: Graph, j: int) -> Set<SdeId> {
    let e = g.edges@[j];
    spec_transported_data(e.flow_type).to_set()
        + data_at_ends(g, g.nodes@[e.from.0 as int].incoming@, true).intersect(
            data_at_ends(g, g.nodes@[e.to.0 as int].outgoing@, false))
}

/// The elements are in strictly increasing order.
pub open spec fn strictly_increasing(s: Seq<SdeId>) -> bool {
    forall|a: int, b: int| 0 <= a < b < s.len() ==> (#[trigger] s[a]).0 < (#[trigger] s[b]).0
}

/// The data elements that the edges `edge_ids` transport.
pub open spec fn data_of_edges(edges: Seq<Edge>, edge_ids: Seq<EdgeId>) -> Set<SdeId> {
    Set::new(|s: SdeId| exists|k: int| 0 <= k < edge_ids.len()
        && spec_transported_data(edges[(#[trigger] edge_ids[k]).0 as int].flow_type).contains(s))
}

/// What the analysis needs: edges between existing nodes and edge lists of existing edges.
pub open spec fn analysis_ok(g: Graph) -> bool {
    &&& forall|j: int| 0 <= j < g.edges@.len() ==> (#[trigger] g.edges@[j]).from.0 < g.nodes@.len()
        && g.edges@[j].to.0 < g.nodes@.len()
    &&& forall|i: int, k: int| 0 <= i < g.nodes@.len() && 0 <= k < g.nodes@[i].incoming@.len()
        ==> (#[trigger] g.nodes@[i].incoming@[k]).0 < g.edges@.len()
    &&& forall|i: int, k: int| 0 <= i < g.nodes@.len() && 0 <= k < g.nodes@[i].outgoing@.len()
        ==> (#[trigger] g.nodes@[i].outgoing@[k]).0 < g.edges@.len()
}

fn collect_data_at_ends(g: &Graph, edge_ids: &Vec<EdgeId>, sources: bool) -> (r: Vec<SdeId>)
    requires
        analysis_ok(*g),
        forall|k: int| 0 <= k < edge_ids@.len() ==> (#[trigger] edge_ids@[k]).0 < g.edges@.len(),
    ensures
        r@.to_set() == data_at_ends(*g, edge_ids@, sources),
{
    let mut r: Vec<SdeId> = Vec::new();
    let mut k: usize = 0;
    while k < edge_ids.len()
        invariant
            k <= edge_ids@.len(),
            analysis_ok(*g),
            forall|q: int| 0 <= q < edge_ids@.len() ==> (#[trigger] edge_ids@[q]).0 < g.edges@.len(),
            r@.to_set() == data_at_ends(*g, edge_ids@.take(k as int), sources),
        decreases edge_ids@.len() - k,
    {
        let ghost before = r@;
        let e = &g.edges[edge_ids[k].0];
        let is_df = match &e.flow_type {
            FlowType::DataFlow(_) => true,
            _ => false,
        };
        let end = if sources { e.from } else { e.to };
        let found = if is_df {
            match &g.nodes[end.0].node_type {
                NodeType::RealNode { event: BpmnNode::Data(_, aux), .. } => Some(aux.sde_id),
                _ => None,
            }
        } else {
            None
        };
        if let Some(s) = found {
            r.push(s);
        }
        proof {
            let ids = edge_ids@.take(k + 1);
            let prev = edge_ids@.take(k as int);
            assert forall|s: SdeId| r@.to_set().contains(s) <==> #[trigger] data_at_ends(*g, ids, sources).contains(s) by {
                if data_at_ends(*g, ids, sources).contains(s) {
                    let q = choose|q: int| 0 <= q < ids.len() && {
                        let e = g.edges@[(#[trigger] ids[q]).0 as int];
                        &&& e.flow_type is DataFlow
                        &&& is_data_of(g.nodes@[(if sources { e.from } else { e.to }).0 as int], s)
                    };
                    if q < k {
                        assert(prev[q] == ids[q]);
                        assert(data_at_ends(*g, prev, sources).contains(s));
                        assert(before.to_set().contains(s));
                        assert(before.contains(s));
                        let w = choose|w: int| 0 <= w < before.len() && before[w] == s;
                        assert(r@[w] == s);
                    } else {
                        assert(r@[r@.len() - 1] == s);
                    }
                }
                if r@.to_set().contains(s) {
                    let w = choose|w: int| 0 <= w < r@.len() && r@[w] == s;
                    if w < before.len() {
                        assert(before[w] == s);
                        assert(before.to_set().contains(s));
                        let q = choose|q: int| 0 <= q < prev.len() && {
                            let e = g.edges@[(#[trigger] prev[q]).0 as int];
                            &&& e.flow_type is DataFlow
                            &&& is_data_of(g.nodes@[(if sources { e.from } else { e.to }).0 as int], s)
                        };
                        assert(ids[q] == prev[q]);
                    } else {
                        assert(ids[k as int] == edge_ids@[k as int]);
                    }
                }
            }
            assert(r@.to_set() =~= data_at_ends(*g, ids, sources));
        }
        k = k + 1;
    }
    assert(edge_ids@.take(edge_ids@.len() as int) =~= edge_ids@);
    r
}

fn insert_sorted_unique(v: &mut Vec<SdeId>, x: SdeId)
    requires
        strictly_increasing(old(v)@),
    ensures
        strictly_increasing(final(v)@),
        final(v)@.to_set() == old(v)@.to_set().insert(x),
{
    let mut j: usize = 0;
    while j < v.len() && v[j].0 < x.0
        invariant
            j <= v@.len(),
            v@ == old(v)@,
            strictly_increasing(v@),
            forall|m: int| 0 <= m < j ==> (#[trigger] v@[m]).0 < x.0,
        decreases v@.len() - j,
    {
        j = j + 1;
    }
    if j < v.len() && v[j].0 == x.0 {
        assert(v@[j as int] == x);
        assert(v@.to_set().insert(x) =~= v@.to_set());
        return;
    }
    let ghost before = v@;
    v.insert(j, x);
    proof {
        assert(v@ =~= before.insert(j as int, x));
        assert forall|a: int, b: int| 0 <= a < b < v@.len() implies (#[trigger] v@[a]).0 < (#[trigger] v@[b]).0 by {
            if a < j && b > j {
                assert(before[a].0 < before[b - 1].0 || a == b - 1);
            }
        }
        assert forall|y: SdeId| #[trigger] v@.to_set().contains(y) <==> before.to_set().insert(x).contains(y) by {
            if v@.contains(y) {
                let w = choose|w: int| 0 <= w < v@.len() && v@[w] == y;
                if w < j {
                    assert(before[w] == y);
                } else if w > j {
                    assert(before[w - 1] == y);
                }
            }
            if before.contains(y) {
                let w = choose|w: int| 0 <= w < before.len() && before[w] == y;
                if w < j {
                    assert(v@[w] == y);
                } else {
                    assert(v@[w + 1] == y);
                }
            }
            if y == x {
                assert(v@[j as int] == x);
            }
        }
        assert(v@.to_set() =~= before.to_set().insert(x));
    }
}

/// The elements of `a` and of `extra`, in increasing order, each once.
fn sorted_union(a: &Vec<SdeId>, extra: &Vec<SdeId>) -> (r: Vec<SdeId>)
    ensures
        strictly_increasing(r@),
        r@.to_set() == a@.to_set() + extra@.to_set(),
{
    let mut r: Vec<SdeId> = Vec::new();
    assert(r@.to_set() =~= Set::<SdeId>::empty());
    let mut k: usize = 0;
    assert(a@.take(0).to_set() =~= Set::<SdeId>::empty());
    while k < a.len()
        invariant
            k <= a@.len(),
            strictly_increasing(r@),
            r@.to_set() == a@.take(k as int).to_set(),
        decreases a@.len() - k,
    {
        insert_sorted_unique(&mut r, a[k]);
        proof {
            assert(a@.take(k + 1) =~= a@.take(k as int).push(a@[k as int]));
            vstd::seq_lib::seq_to_set_distributes_over_add(a@.take(k as int), seq![a@[k as int]]);
            assert(seq![a@[k as int]].to_set() =~= Set::empty().insert(a@[k as int])) by {
                assert forall|y: SdeId| seq![a@[k as int]].to_set().contains(y) <==> y == a@[k as int] by {
                    if y == a@[k as int] {
                        assert(seq![a@[k as int]][0] == y);
                    }
                }
            }
            assert(a@.take(k as int) + seq![a@[k as int]] =~= a@.take(k as int).push(a@[k as int]));
            assert(r@.to_set() =~= a@.take(k + 1).to_set());
        }
        k = k + 1;
    }
    assert(a@.take(a@.len() as int) =~= a@);
    let mut m: usize = 0;
    assert(extra@.take(0).to_set() =~= Set::<SdeId>::empty());
    while m < extra.len()
        invariant
            m <= extra@.len(),
            strictly_increasing(r@),
            r@.to_set() == a@.to_set() + extra@.take(m as int).to_set(),
        decreases extra@.len() - m,
    {
        insert_sorted_unique(&mut r, extra[m]);
        proof {
            let x = extra@[m as int];
            assert(extra@.take(m + 1) =~= extra@.take(m as int).push(x));
            assert forall|y: SdeId| #[trigger] extra@.take(m + 1).to_set().contains(y) <==> extra@.take(m as int).to_set().insert(x).contains(y) by {
                let t1 = extra@.take(m + 1);
                let t0 = extra@.take(m as int);
                if t1.contains(y) {
                    let w = choose|w: int| 0 <= w < t1.len() && t1[w] == y;
                    if w < m {
                        assert(t0[w] == y);
                    }
                }
                if t0.contains(y) {
                    let w = choose|w: int| 0 <= w < t0.len() && t0[w] == y;
                    assert(t1[w] == y);
                }
                if y == x {
                    assert(t1[m as int] == x);
                }
            }
            assert(r@.to_set() =~= a@.to_set() + extra@.take(m + 1).to_set());
        }
        m = m + 1;
    }
    assert(extra@.take(extra@.len() as int) =~= extra@);
    r
}

/// The elements of `a` that are also in `b`, each once.
fn intersection(a: &Vec<SdeId>, b: &Vec<SdeId>) -> (r: Vec<SdeId>)
    ensures
        r@.no_duplicates(),
        r@.to_set() == a@.to_set().intersect(b@.to_set()),
{
    let mut r: Vec<SdeId> = Vec::new();
    let mut k: usize = 0;
    while k < a.len()
        invariant
            k <= a@.len(),
            r@.no_duplicates(),
            r@.to_set() == a@.take(k as int).to_set().intersect(b@.to_set()),
        decreases a@.len() - k,
    {
        let x = a[k];
        let mut in_b = false;
        let mut q: usize = 0;
        while q < b.len()
            invariant
                q <= b@.len(),
                in_b == b@.take(q as int).contains(x),
            decreases b@.len() - q,
        {
            if b[q].0 == x.0 {
                in_b = true;
            }
            proof {
                let t1 = b@.take(q + 1);
                let t0 = b@.take(q as int);
                assert(t1 =~= t0.push(b@[q as int]));
                if b@[q as int].0 == x.0 {
                    assert(b@[q as int] == x);
                    assert(t1[q as int] == x);
                }
                if t1.contains(x) {
                    let w = choose|w: int| 0 <= w < t1.len() && t1[w] == x;
                    if w < q {
                        assert(t0[w] == x);
                    }
                }
                if t0.contains(x) {
                    let w = choose|w: int| 0 <= w < t0.len() && t0[w] == x;
                    assert(t1[w] == x);
                }
            }
            q = q + 1;
        }
        assert(b@.take(b@.len() as int) =~= b@);
        let mut seen = false;
        let mut t: usize = 0;
        while t < r.len()
            invariant
                t <= r@.len(),
                seen == r@.take(t as int).contains(x),
            decreases r@.len() - t,
        {
            if r[t].0 == x.0 {
                seen = true;
            }
            proof {
                let t1 = r@.take(t + 1);
                let t0 = r@.take(t as int);
                assert(t1 =~= t0.push(r@[t as int]));
                if r@[t as int].0 == x.0 {
                    assert(r@[t as int] == x);
                    assert(t1[t as int] == x);
                }
                if t1.contains(x) {
                    let w = choose|w: int| 0 <= w < t1.len() && t1[w] == x;
                    if w < t {
                        assert(t0[w] == x);
                    }
                }
                if t0.contains(x) {
                    let w = choose|w: int| 0 <= w < t0.len() && t0[w] == x;
                    assert(t1[w] == x);
                }
            }
            t = t + 1;
        }
        assert(r@.take(r@.len() as int) =~= r@);
        let ghost before = r@;
        if in_b && !seen {
            r.push(x);
        }
        proof {
            let t0 = a@.take(k as int);
            let t1 = a@.take(k + 1);
            assert(t1 =~= t0.push(x));
            assert forall|y: SdeId| #[trigger] r@.to_set().contains(y) <==> t1.to_set().intersect(b@.to_set()).contains(y) by {
                if t1.contains(y) {
                    let w = choose|w: int| 0 <= w < t1.len() && t1[w] == y;
                    if w < k {
                        assert(t0[w] == y);
                    }
                }
                if t0.contains(y) {
                    let w = choose|w: int| 0 <= w < t0.len() && t0[w] == y;
                    assert(t1[w] == y);
                }
                if y == x {
                    assert(t1[k as int] == x);
                }
                if r@.contains(y) {
                    let w = choose|w: int| 0 <= w < r@.len() && r@[w] == y;
                    if w < before.len() {
                        assert(before[w] == y);
                    }
                }
                if before.contains(y) {
                    let w = choose|w: int| 0 <= w < before.len() && before[w] == y;
                    assert(r@[w] == y);
                }
                assert(before.to_set().contains(y) == t0.to_set().intersect(b@.to_set()).contains(y));
                if y == x {
                    assert(in_b == b@.contains(x));
                    assert(seen == before.contains(x));
                    if in_b && !seen {
                        assert(r@[r@.len() - 1] == x);
                    }
                } else {
                    assert(r@.contains(y) == before.contains(y));
                    assert(t1.contains(y) == t0.contains(y));
                }
            }
            assert(r@.to_set() =~= t1.to_set().intersect(b@.to_set()));
        }
        k = k + 1;
    }
    assert(a@.take(a@.len() as int) =~= a@);
    r
}

fn collect_edge_data(edges: &Vec<Edge>, ids: &Vec<EdgeId>) -> (r: Vec<SdeId>)
    requires
        forall|k: int| 0 <= k < ids@.len() ==> (#[trigger] ids@[k]).0 < edges@.len(),
    ensures
        r@.to_set() == data_of_edges(edges@, ids@),
{
    let mut r: Vec<SdeId> = Vec::new();
    let mut k: usize = 0;
    while k < ids.len()
        invariant
            k <= ids@.len(),
            forall|q: int| 0 <= q < ids@.len() ==> (#[trigger] ids@[q]).0 < edges@.len(),
            r@.to_set() == data_of_edges(edges@, ids@.take(k as int)),
        decreases ids@.len() - k,
    {
        let ghost before = r@;
        let data = edges[ids[k].0].get_transported_data();
        let mut m: usize = 0;
        while m < data.len()
            invariant
                m <= data@.len(),
                r@ == before + data@.take(m as int),
            decreases data@.len() - m,
        {
            r.push(data[m]);
            assert(data@.take(m + 1) =~= data@.take(m as int).push(data@[m as int]));
            m = m + 1;
        }
        proof {
            assert(data@.take(data@.len() as int) =~= data@);
            let t0 = ids@.take(k as int);
            let t1 = ids@.take(k + 1);
            assert(t1 =~= t0.push(ids@[k as int]));
            assert forall|y: SdeId| #[trigger] r@.to_set().contains(y) <==> data_of_edges(edges@, t1).contains(y) by {
                if data_of_edges(edges@, t1).contains(y) {
                    let q = choose|q: int| 0 <= q < t1.len()
                        && spec_transported_data(edges@[(#[trigger] t1[q]).0 as int].flow_type).contains(y);
                    if q < k {
                        assert(t0[q] == t1[q]);
                        assert(data_of_edges(edges@, t0).contains(y));
                        assert(before.to_set().contains(y));
                        let w = choose|w: int| 0 <= w < before.len() && before[w] == y;
                        assert(r@[w] == y);
                    } else {
                        let w = choose|w: int| 0 <= w < data@.len() && data@[w] == y;
                        assert(r@[before.len() + w] == y);
                    }
                }
                if r@.contains(y) {
                    let w = choose|w: int| 0 <= w < r@.len() && r@[w] == y;
                    if w < before.len() {
                        assert(before[w] == y);
                        assert(before.to_set().contains(y));
                        let q = choose|q: int| 0 <= q < t0.len()
                            && spec_transported_data(edges@[(#[trigger] t0[q]).0 as int].flow_type).contains(y);
                        assert(t1[q] == t0[q]);
                    } else {
                        assert(data@[w - before.len()] == y);
                        assert(t1[k as int] == ids@[k as int]);
                    }
                }
            }
            assert(r@.to_set() =~= data_of_edges(edges@, t1));
        }
        k = k + 1;
    }
    assert(ids@.take(ids@.len() as int) =~= ids@);
    r
}

/// Edge `e1` is edge `j` of `g` after the analysis: a message flow carries `message_flow_data`,
/// each element once and in increasing order; other edges stay as they are.
pub open spec fn edge_after_analysis(g: Graph, j: int, e1: Edge) -> bool {
    let e0 = g.edges@[j];
    match e0.flow_type {
        FlowType::MessageFlow(aux0) => {
            &&& e1 == (Edge { flow_type: e1.flow_type, ..e0 })
            &&& e1.flow_type matches FlowType::MessageFlow(aux1) && aux1.tc == aux0.tc
                && strictly_increasing(aux1.transported_data@)
                && aux1.transported_data@.to_set() == message_flow_data(g, j)
        },
        _ => e1 == e0,
    }
}

/// Node `b` is node `a` after the analysis, with the edges `edges`: a real node that is no
/// gateway also carries, after what it carried, each element that both an incoming and an
/// outgoing edge transport, once.
pub open spec fn node_after_analysis(edges: Seq<Edge>, a: Node, b: Node) -> bool {
    if spec_is_gateway(a.node_type) {
        b == a
    } else {
        match a.node_type {
            NodeType::RealNode { event, display_text, tc, transported_data, pe_bpmd_hides_protection_operations } => {
                let n = transported_data@.len() as int;
                &&& b == (Node { node_type: b.node_type, ..a })
                &&& b.node_type matches NodeType::RealNode { event: e2, display_text: d2, tc: tc2, transported_data: t2,
                    pe_bpmd_hides_protection_operations: h2 }
                    && e2 == event && d2 == display_text && tc2 == tc && h2 == pe_bpmd_hides_protection_operations
                    && t2@.take(n) == transported_data@
                    && t2@.skip(n).no_duplicates()
                    && t2@.skip(n).to_set() == data_of_edges(edges, a.incoming@).intersect(data_of_edges(edges, a.outgoing@))
            },
            _ => b == a,
        }
    }
}

fn new_message_flow_data(g: &Graph) -> (r: Vec<Option<Vec<SdeId>>>)
    requires
        analysis_ok(*g),
    ensures
        r@.len() == g.edges@.len(),
        forall|j: int| 0 <= j < g.edges@.len() ==> match g.edges@[j].flow_type {
            FlowType::MessageFlow(_) => (#[trigger] r@[j]) matches Some(v) && strictly_increasing(v@)
                && v@.to_set() == message_flow_data(*g, j),
            _ => r@[j] is None,
        },
{
    let mut r: Vec<Option<Vec<SdeId>>> = Vec::new();
    let mut j: usize = 0;
    while j < g.edges.len()
        invariant
            j <= g.edges@.len(),
            analysis_ok(*g),
            r@.len() == j,
            forall|q: int| 0 <= q < j ==> match g.edges@[q].flow_type {
                FlowType::MessageFlow(_) => (#[trigger] r@[q]) matches Some(v) && strictly_increasing(v@)
                    && v@.to_set() == message_flow_data(*g, q),
                _ => r@[q] is None,
            },
        decreases g.edges@.len() - j,
    {
        let e = &g.edges[j];
        match &e.flow_type {
            FlowType::MessageFlow(aux) => {
                assert(e.from.0 < g.nodes@.len() && e.to.0 < g.nodes@.len());
                let from = &g.nodes[e.from.0];
                let to = &g.nodes[e.to.0];
                assert forall|k: int| 0 <= k < from.incoming@.len() implies (#[trigger] from.incoming@[k]).0 < g.edges@.len() by {
                    assert(g.nodes@[e.from.0 as int].incoming@[k] == from.incoming@[k]);
                }
                assert forall|k: int| 0 <= k < to.outgoing@.len() implies (#[trigger] to.outgoing@[k]).0 < g.edges@.len() by {
                    assert(g.nodes@[e.to.0 as int].outgoing@[k] == to.outgoing@[k]);
                }
                let ins = collect_data_at_ends(g, &from.incoming, true);
                let outs = collect_data_at_ends(g, &to.outgoing, false);
                let both = intersection(&ins, &outs);
                let v = sorted_union(&aux.transported_data, &both);
                r.push(Some(v));
            },
            _ => {
                r.push(None);
            },
        }
        j = j + 1;
    }
    r
}

/// Works out which data elements message flows and nodes transport: a message flow carries
/// `message_flow_data` afterwards, each element once and in increasing order; then every real
/// node that is no gateway also carries each element that both an incoming and an outgoing edge
/// transport.
pub fn create_transported_data(graph: &mut Graph)
    requires
        analysis_ok(*old(graph)),
    ensures
        final(graph).edges@.len() == old(graph).edges@.len(),
        forall|j: int| 0 <= j < old(graph).edges@.len() ==> edge_after_analysis(*old(graph), j, #[trigger] final(graph).edges@[j]),
        final(graph).nodes@.len() == old(graph).nodes@.len(),
        forall|i: int| 0 <= i < old(graph).nodes@.len()
            ==> node_after_analysis(final(graph).edges@, old(graph).nodes@[i], #[trigger] final(graph).nodes@[i]),
        final(graph).pools == old(graph).pools,
        final(graph).data_elements == old(graph).data_elements,
        final(graph).config == old(graph).config,
        final(graph).num_layers == old(graph).num_layers,
        final(graph).pe_bpmd_definitions == old(graph).pe_bpmd_definitions,
{
    let ghost g0 = *graph;
    let mut updates = new_message_flow_data(graph);
    let mut k: usize = graph.edges.len();
    while k > 0
        invariant
            k <= g0.edges@.len(),
            graph.edges@.len() == g0.edges@.len(),
            graph.nodes == g0.nodes,
            graph.pools == g0.pools,
            graph.data_elements == g0.data_elements,
            graph.config == g0.config,
            graph.num_layers == g0.num_layers,
            graph.pe_bpmd_definitions == g0.pe_bpmd_definitions,
            updates@.len() == k,
            forall|j: int| 0 <= j < k ==> match g0.edges@[j].flow_type {
                FlowType::MessageFlow(_) => (#[trigger] updates@[j]) matches Some(v) && strictly_increasing(v@)
                    && v@.to_set() == message_flow_data(g0, j),
                _ => updates@[j] is None,
            },
            forall|j: int| 0 <= j < k ==> #[trigger] graph.edges@[j] == g0.edges@[j],
            forall|j: int| k <= j < g0.edges@.len() ==> edge_after_analysis(g0, j, #[trigger] graph.edges@[j]),
        decreases k,
    {
        k = k - 1;
        let u = updates.pop().unwrap();
        if let Some(v) = u {
            match &mut graph.edges[k].flow_type {
                FlowType::MessageFlow(aux) => {
                    aux.transported_data = v;
                },
                _ => {},
            }
        }
        assert(edge_after_analysis(g0, k as int, graph.edges@[k as int]));
    }
    let ghost edges1 = graph.edges@;
    let mut i: usize = 0;
    while i < graph.nodes.len()
        invariant
            i <= graph.nodes@.len(),
            graph.nodes@.len() == g0.nodes@.len(),
            graph.edges@ == edges1,
            edges1.len() == g0.edges@.len(),
            analysis_ok(g0),
            graph.pools == g0.pools,
            graph.data_elements == g0.data_elements,
            graph.config == g0.config,
            graph.num_layers == g0.num_layers,
            graph.pe_bpmd_definitions == g0.pe_bpmd_definitions,
            forall|j: int| i <= j < g0.nodes@.len() ==> #[trigger] graph.nodes@[j] == g0.nodes@[j],
            forall|j: int| 0 <= j < i ==> node_after_analysis(edges1, g0.nodes@[j], #[trigger] graph.nodes@[j]),
        decreases g0.nodes@.len() - i,
    {
        assert(graph.nodes@[i as int] == g0.nodes@[i as int]);
        if !graph.nodes[i].is_gateway() {
            let n = &graph.nodes[i];
            assert forall|q: int| 0 <= q < n.incoming@.len() implies (#[trigger] n.incoming@[q]).0 < graph.edges@.len() by {
                assert(g0.nodes@[i as int].incoming@[q] == n.incoming@[q]);
            }
            assert forall|q: int| 0 <= q < n.outgoing@.len() implies (#[trigger] n.outgoing@[q]).0 < graph.edges@.len() by {
                assert(g0.nodes@[i as int].outgoing@[q] == n.outgoing@[q]);
            }
            let ins = collect_edge_data(&graph.edges, &n.incoming);
            let outs = collect_edge_data(&graph.edges, &n.outgoing);
            let both = intersection(&ins, &outs);
            let ghost before = graph.nodes@[i as int];
            graph.nodes[i].add_node_transported_data(both.as_slice());
            proof {
                let a = g0.nodes@[i as int];
                let b = graph.nodes@[i as int];
                if let NodeType::RealNode { transported_data, .. } = a.node_type {
                    let t2 = b.node_type->RealNode_transported_data;
                    let n = transported_data@.len() as int;
                    assert(t2@.take(n) =~= transported_data@);
                    assert(t2@.skip(n) =~= both@);
                }
            }
        }
        i = i + 1;
    }
}

} // verus!
