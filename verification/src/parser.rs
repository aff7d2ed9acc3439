//! Resolving PE-BPMD blocks (secure channels, TEEs and MPCs) against the parsed diagram: every
//! name is looked up with the identifier matcher and every rule of the block is checked, with a
//! diagnostic that points at the offending text.
use vstd::prelude::*;
use crate::bpmn_node::ParseError;
use crate::graph::{spec_is_data, Graph, NodeType};
use crate::id_matcher::{
    either, lane_of, match_from, node_of, pool_of, spec_find, spec_found, IdMatcher, IdMeta, SomeId, fold_haystack,
    BestMatch,
};
use crate::ids::{LaneId, NodeId, PoolId, SdeId, TokenCoordinate};
use crate::lexer;
use crate::pebpmd::{ComputationCommon, Mpc, PeBpmd, PeBpmdSubType, PeBpmdType, Protection, SecureChannel, Tee};
use crate::text::{concat, concat3, push_str};

verus! {

/// The magic operator name that stands for "only the containing pool".
pub const CONTAINING_POOL_ONLY_KEYWORD: &'static str = "containing-pool-only";

pub struct ParseContext {
    pub id_matcher: IdMatcher,
    /// The statement being parsed, for diagnostics that have no better location.
    pub current_token_coordinate: TokenCoordinate,
}

pub struct Parser {
    pub graph: Graph,
    pub context: ParseContext,
}

/// Diagnostics as values: the messages and their locations.
pub open spec fn errs(e: ParseError) -> Seq<(Seq<char>, TokenCoordinate)> {
    e@.map_values(|p: (String, TokenCoordinate)| (p.0@, p.1))
}

pub open spec fn one(msg: Seq<char>, tc: TokenCoordinate) -> Seq<(Seq<char>, TokenCoordinate)> {
    seq![(msg, tc)]
}

/// Whether the exec result `r` is what the spec result `s` describes.
pub open spec fn same_result<T>(r: Result<T, ParseError>, s: Result<T, Seq<(Seq<char>, TokenCoordinate)>>) -> bool {
    match (r, s) {
        (Ok(a), Ok(b)) => a == b,
        (Err(e), Err(d)) => errs(e) == d,
        _ => false,
    }
}

/// What a registered name can point at, given the graph.
pub open spec fn target_ok(t: SomeId, g: Graph) -> bool {
    match t {
        SomeId::PoolId(p) => p.0 < g.pools@.len(),
        SomeId::LaneId(p, _) => p.0 < g.pools@.len(),
        SomeId::NodeId(n) => n.0 < g.nodes@.len() && g.nodes@[n.0 as int].node_type is RealNode,
    }
}

/// The matcher's entries point into the graph: pools at pools, lanes at lanes, nodes at real
/// nodes (data nodes and the others apart), and every node lies in an existing pool.
pub open spec fn parser_wf(p: Parser) -> bool {
    let m = p.context.id_matcher;
    let g = p.graph;
    &&& forall|i: int| 0 <= i < m.pools@.len() ==> (#[trigger] m.pools@[i]).target is PoolId && target_ok(m.pools@[i].target, g)
    &&& forall|i: int| 0 <= i < m.lanes@.len() ==> (#[trigger] m.lanes@[i]).target is LaneId && target_ok(m.lanes@[i].target, g)
    &&& forall|i: int| 0 <= i < m.nondata_nodes@.len() ==> {
        let t = (#[trigger] m.nondata_nodes@[i]).target;
        t is NodeId && target_ok(t, g) && !spec_is_data(g.nodes@[(t->NodeId_0).0 as int].node_type)
    }
    &&& forall|i: int| 0 <= i < m.data_nodes@.len() ==> {
        let t = (#[trigger] m.data_nodes@[i]).target;
        t is NodeId && target_ok(t, g) && spec_is_data(g.nodes@[(t->NodeId_0).0 as int].node_type)
    }
    &&& forall|n: int| 0 <= n < g.nodes@.len() ==> (#[trigger] g.nodes@[n]).pool.0 < g.pools@.len()
}

pub open spec fn found_in(metas: Seq<IdMeta>, t: SomeId) -> bool {
    exists|i: int| 0 <= i < metas.len() && (#[trigger] metas[i]).target == t
}

proof fn lemma_fold_target(hs: Seq<Seq<char>>, needle: Seq<char>, target: SomeId, best: BestMatch)
    ensures
        spec_found(fold_haystack(hs, needle, target, best)) == spec_found(best)
            || spec_found(fold_haystack(hs, needle, target, best)) == Some(target),
    decreases hs.len(),
{
    if hs.len() > 0 {
        let next = crate::id_matcher::spec_maybe_update(best, crate::id_matcher::scored(crate::id_matcher::skim_match_score(hs[0], needle), target));
        lemma_fold_target(hs.drop_first(), needle, target, next);
    }
}

proof fn lemma_match_target(metas: Seq<IdMeta>, exact: Seq<char>, filter: Option<PoolId>, best: BestMatch)
    ensures
        spec_found(match_from(metas, exact, filter, best)) matches Some(t) ==> (spec_found(best) == Some(t) || found_in(metas, t)),
    decreases metas.len(),
{
    if metas.len() > 0 {
        let m = metas[0];
        let rest = metas.drop_first();
        if filter is Some && m.pool_id != filter->0 {
            lemma_match_target(rest, exact, filter, best);
        } else if crate::id_matcher::strs(m.ids@).contains(exact) {
            assert(metas[0].target == m.target);
        } else {
            let nb = fold_haystack(crate::id_matcher::strs(m.fuzzy_haystack@), crate::id_matcher::normalized(exact), m.target, best);
            lemma_fold_target(crate::id_matcher::strs(m.fuzzy_haystack@), crate::id_matcher::normalized(exact), m.target, best);
            lemma_match_target(rest, exact, filter, nb);
        }
        if let Some(t) = spec_found(match_from(metas, exact, filter, best)) {
            if found_in(rest, t) {
                let i = choose|i: int| 0 <= i < rest.len() && (#[trigger] rest[i]).target == t;
                assert(metas[i + 1] == rest[i]);
            }
        }
    }
}

/// What a search of `metas` finds is the target of one of them.
proof fn lemma_find_target(metas: Seq<IdMeta>, needle: Seq<char>, filter: Option<PoolId>)
    ensures
        spec_found(spec_find(metas, needle, filter)) matches Some(t) ==> found_in(metas, t),
{
    lemma_match_target(metas, needle, filter, BestMatch::NoMatch);
}

pub open spec fn find_pool(p: Parser, s: Seq<char>) -> Option<PoolId> {
    pool_of(spec_find(p.context.id_matcher.pools@, s, None))
}

pub open spec fn find_lane(p: Parser, s: Seq<char>) -> Option<(PoolId, LaneId)> {
    lane_of(spec_find(p.context.id_matcher.lanes@, s, None))
}

pub open spec fn find_nondata(p: Parser, s: Seq<char>) -> Option<NodeId> {
    node_of(spec_find(p.context.id_matcher.nondata_nodes@, s, None))
}

pub open spec fn find_data(p: Parser, s: Seq<char>) -> Option<NodeId> {
    node_of(spec_find(p.context.id_matcher.data_nodes@, s, None))
}

proof fn lemma_found_pool_ok(p: Parser, s: Seq<char>)
    requires
        parser_wf(p),
    ensures
        find_pool(p, s) matches Some(q) ==> q.0 < p.graph.pools@.len(),
{
    lemma_find_target(p.context.id_matcher.pools@, s, None);
    if let Some(q) = find_pool(p, s) {
        let i = choose|i: int| 0 <= i < p.context.id_matcher.pools@.len() && (#[trigger] p.context.id_matcher.pools@[i]).target == SomeId::PoolId(q);
    }
}

proof fn lemma_found_lane_ok(p: Parser, s: Seq<char>)
    requires
        parser_wf(p),
    ensures
        find_lane(p, s) matches Some(q) ==> q.0.0 < p.graph.pools@.len(),
{
    lemma_find_target(p.context.id_matcher.lanes@, s, None);
    if let Some(q) = find_lane(p, s) {
        let i = choose|i: int| 0 <= i < p.context.id_matcher.lanes@.len() && (#[trigger] p.context.id_matcher.lanes@[i]).target == SomeId::LaneId(q.0, q.1);
    }
}

proof fn lemma_found_nondata_ok(p: Parser, s: Seq<char>)
    requires
        parser_wf(p),
    ensures
        find_nondata(p, s) matches Some(n) ==> n.0 < p.graph.nodes@.len() && p.graph.nodes@[n.0 as int].node_type is RealNode
            && !spec_is_data(p.graph.nodes@[n.0 as int].node_type),
{
    lemma_find_target(p.context.id_matcher.nondata_nodes@, s, None);
    if let Some(n) = find_nondata(p, s) {
        let i = choose|i: int| 0 <= i < p.context.id_matcher.nondata_nodes@.len() && (#[trigger] p.context.id_matcher.nondata_nodes@[i]).target == SomeId::NodeId(n);
        let t = p.context.id_matcher.nondata_nodes@[i].target;
        assert(t is NodeId && target_ok(t, p.graph) && !spec_is_data(p.graph.nodes@[(t->NodeId_0).0 as int].node_type));
        assert(t->NodeId_0 == n);
    }
}

proof fn lemma_found_data_ok(p: Parser, s: Seq<char>)
    requires
        parser_wf(p),
    ensures
        find_data(p, s) matches Some(n) ==> n.0 < p.graph.nodes@.len() && spec_is_data(p.graph.nodes@[n.0 as int].node_type),
{
    lemma_find_target(p.context.id_matcher.data_nodes@, s, None);
    if let Some(n) = find_data(p, s) {
        let i = choose|i: int| 0 <= i < p.context.id_matcher.data_nodes@.len() && (#[trigger] p.context.id_matcher.data_nodes@[i]).target == SomeId::NodeId(n);
        let t = p.context.id_matcher.data_nodes@[i].target;
        assert(t is NodeId && target_ok(t, p.graph) && spec_is_data(p.graph.nodes@[(t->NodeId_0).0 as int].node_type));
        assert(t->NodeId_0 == n);
    }
}

fn err1(msg: String, tc: TokenCoordinate) -> (r: ParseError)
    ensures
        errs(r) == one(msg@, tc),
{
    let mut r: ParseError = Vec::new();
    r.push((msg, tc));
    assert(errs(r) =~= one(msg@, tc));
    r
}

fn push_err(e: &mut ParseError, msg: String, tc: TokenCoordinate)
    ensures
        errs(*final(e)) == errs(*old(e)).push((msg@, tc)),
{
    e.push((msg, tc));
    assert(errs(*e) =~= errs(*old(e)).push((msg@, tc)));
}

pub open spec fn spec_find_nondata_or_error(p: Parser, node_str: Seq<char>, label: Seq<char>, tc: TokenCoordinate)
    -> Result<NodeId, Seq<(Seq<char>, TokenCoordinate)>> {
    match find_nondata(p, node_str) {
        Some(n) => Ok(n),
        None => Err(one(label + " node with ID "@ + node_str + " was not found. Have you defined it?"@, tc)),
    }
}

pub open spec fn spec_find_pool_or_error(p: Parser, pool_str: Seq<char>) -> Result<PoolId, Seq<(Seq<char>, TokenCoordinate)>> {
    match find_pool(p, pool_str) {
        Some(q) => Ok(q),
        None => Err(one("Pool with ID ("@ + pool_str + ") was not found. Have you defined it?"@, p.context.current_token_coordinate)),
    }
}

impl Parser {
    /// A parser with an empty diagram (default configuration, no layers yet) and no registered
    /// names.
    pub fn new() -> (r: Parser)
        ensures
            r.graph.nodes@.len() == 0,
            r.graph.edges@.len() == 0,
            r.graph.pools@.len() == 0,
            r.graph.data_elements@.len() == 0,
            r.graph.pe_bpmd_definitions@.len() == 0,
            r.graph.num_layers == 0,
            r.context.id_matcher.pools@.len() == 0,
            r.context.id_matcher.lanes@.len() == 0,
            r.context.id_matcher.data_nodes@.len() == 0,
            r.context.id_matcher.nondata_nodes@.len() == 0,
            r.context.current_token_coordinate == (TokenCoordinate { source_file_idx: 0, start: 0, end: 0 }),
    {
        let graph = Graph {
            nodes: Vec::new(),
            edges: Vec::new(),
            pools: Vec::new(),
            data_elements: Vec::new(),
            config: crate::config::Config::default(),
            num_layers: 0,
            pe_bpmd_definitions: Vec::new(),
        };
        Parser {
            graph,
            context: ParseContext {
                id_matcher: IdMatcher::new(),
                current_token_coordinate: TokenCoordinate { source_file_idx: 0, start: 0, end: 0 },
            },
        }
    }

    /// Looks up a node that is not a data element; `label` names the attribute in the message.
    pub fn find_nondata_node_id_or_error(&self, node_str: &str, label: &str, tc: TokenCoordinate) -> (r: Result<NodeId, ParseError>)
        ensures
            same_result(r, spec_find_nondata_or_error(*self, node_str@, label@, tc)),
    {
        match self.context.id_matcher.find_nondata_node_id(node_str, None) {
            Some(n) => Ok(n),
            None => {
                let mut msg = concat3(label, " node with ID ", node_str);
                push_str(&mut msg, " was not found. Have you defined it?");
                Err(err1(msg, tc))
            },
        }
    }

    pub fn find_pool_id_or_error(&self, pool_str: &str) -> (r: Result<PoolId, ParseError>)
        ensures
            same_result(r, spec_find_pool_or_error(*self, pool_str@)),
    {
        match self.context.id_matcher.find_pool_id(pool_str) {
            Some(q) => Ok(q),
            None => {
                let msg = concat3("Pool with ID (", pool_str, ") was not found. Have you defined it?");
                Err(err1(msg, self.context.current_token_coordinate))
            },
        }
    }

    /// Like `find_pool_id_or_error`, but the pool `forbidden_value` is refused.
    pub fn find_pool_id_or_error_restricted(&self, pool_str: &str, forbidden_value: PoolId, forbidden_tc: TokenCoordinate,
        tee_or_mpc: &str, attribute: &str) -> (r: Result<PoolId, ParseError>)
        requires
            parser_wf(*self),
        ensures
            match spec_find_pool_or_error(*self, pool_str@) {
                Ok(q) => if q.0 == forbidden_value.0 {
                    r matches Err(e) && errs(e) == seq![
                        ("The pool already represents the "@ + tee_or_mpc@ + ". It cannot represent the operator at the same time. Change the pool id in "@
                            + tee_or_mpc@ + "-"@ + attribute@ + "."@, forbidden_tc),
                        ("This is the matched pool"@, self.graph.pools@[q.0 as int].tc)]
                } else {
                    r == Ok::<PoolId, ParseError>(q)
                },
                Err(d) => r matches Err(e) && errs(e) == d,
            },
    {
        proof {
            lemma_found_pool_ok(*self, pool_str@);
        }
        let result = self.find_pool_id_or_error(pool_str);
        match result {
            Ok(found) => {
                if found.0 == forbidden_value.0 {
                    let mut msg = concat3("The pool already represents the ", tee_or_mpc,
                        ". It cannot represent the operator at the same time. Change the pool id in ");
                    push_str(&mut msg, tee_or_mpc);
                    push_str(&mut msg, "-");
                    push_str(&mut msg, attribute);
                    push_str(&mut msg, ".");
                    let mut e = err1(msg, forbidden_tc);
                    push_err(&mut e, "This is the matched pool".to_string(), self.graph.pools[found.0].tc);
                    Err(e)
                } else {
                    Ok(found)
                }
            },
            Err(e) => Err(e),
        }
    }

    /// The message that `tee_or_mpc-smthng` is missing, at the current statement.
    pub fn smthng_missing_error(&self, tee_or_mpc: &str, smthng: &str, optional_text: &str) -> (r: ParseError)
        ensures
            errs(r) == one(tee_or_mpc@ + "-"@ + smthng@ + " is missing. Please define it."@ + optional_text@,
                self.context.current_token_coordinate),
    {
        let mut msg = concat3(tee_or_mpc, "-", smthng);
        push_str(&mut msg, " is missing. Please define it.");
        push_str(&mut msg, optional_text);
        err1(msg, self.context.current_token_coordinate)
    }
}

/// Whether two strings are equal.
pub fn str_eq(a: &str, b: &str) -> (r: bool)
    ensures
        r == (a@ == b@),
{
    let n = a.unicode_len();
    if n != b.unicode_len() {
        return false;
    }
    let mut i: usize = 0;
    while i < n
        invariant
            0 <= i <= n,
            n == a@.len(),
            n == b@.len(),
            forall|k: int| 0 <= k < i ==> a@[k] == b@[k],
        decreases n - i,
    {
        if a.get_char(i) != b.get_char(i) {
            return false;
        }
        i = i + 1;
    }
    assert(a@ =~= b@);
    true
}

/// A result of the parser described as values.
pub open spec fn same_seq_result<T>(r: Result<Vec<T>, ParseError>, s: Result<Seq<T>, Seq<(Seq<char>, TokenCoordinate)>>) -> bool {
    match (r, s) {
        (Ok(a), Ok(b)) => a@ == b,
        (Err(e), Err(d)) => errs(e) == d,
        _ => false,
    }
}

/// One data flow annotation: its node (not a data element) and, where given, the pool that
/// created the reference value.
pub open spec fn spec_protection_entry(p: Parser, e: lexer::Protection, label: Seq<char>) -> Result<Protection, Seq<(Seq<char>, TokenCoordinate)>> {
    match spec_find_nondata_or_error(p, e.node@, label, e.tc) {
        Err(d) => Err(d),
        Ok(n) => match e.rv {
            None => Ok(Protection { node: n, rv_source: None, tc: e.tc }),
            Some(rv) => match find_pool(p, rv@) {
                Some(q) => Ok(Protection { node: n, rv_source: Some(q), tc: e.tc }),
                None => Err(one("ID of the pool ("@ + rv@ + ") which created the reference value was not found. Have you defined it?"@,
                    p.context.current_token_coordinate)),
            },
        },
    }
}

/// The annotations in order; the first one that fails decides the error.
pub open spec fn spec_pebpmd_nodes(p: Parser, entries: Seq<lexer::Protection>, label: Seq<char>) -> Result<Seq<Protection>, Seq<(Seq<char>, TokenCoordinate)>>
    decreases entries.len(),
{
    if entries.len() == 0 {
        Ok(Seq::empty())
    } else {
        match spec_pebpmd_nodes(p, entries.drop_last(), label) {
            Err(d) => Err(d),
            Ok(xs) => match spec_protection_entry(p, entries.last(), label) {
                Ok(x) => Ok(xs.push(x)),
                Err(d) => Err(d),
            },
        }
    }
}

/// The sde of a data node.
pub open spec fn data_sde(g: Graph, n: NodeId) -> SdeId {
    match g.nodes@[n.0 as int].node_type {
        NodeType::RealNode { event: crate::bpmn_node::BpmnNode::Data(_, aux), .. } => aux.sde_id,
        _ => SdeId(0),
    }
}

pub open spec fn node_tc(g: Graph, n: NodeId) -> TokenCoordinate {
    tc_at(g, n.0 as int)
}

pub open spec fn tc_at(g: Graph, i: int) -> TokenCoordinate {
    match g.nodes@[i].node_type {
        NodeType::RealNode { tc, .. } => tc,
        _ => TokenCoordinate { source_file_idx: 0, start: 0, end: 0 },
    }
}

/// The first position in `xs` whose first component is `key`.
pub open spec fn first_index<K, V>(xs: Seq<(K, V)>, key: K) -> Option<int> {
    if exists|k: int| 0 <= k < xs.len() && xs[k].0 == key {
        Some(choose|k: int| 0 <= k < xs.len() && xs[k].0 == key && forall|j: int| 0 <= j < k ==> xs[j].0 != key)
    } else {
        None
    }
}

/// The data elements named by `ids`, each allowed once.
pub open spec fn spec_data_nodes(p: Parser, ids: Seq<(String, TokenCoordinate)>, kind: Seq<char>) -> Result<Seq<(SdeId, TokenCoordinate)>, Seq<(Seq<char>, TokenCoordinate)>>
    decreases ids.len(),
{
    if ids.len() == 0 {
        Ok(Seq::empty())
    } else {
        match spec_data_nodes(p, ids.drop_last(), kind) {
            Err(d) => Err(d),
            Ok(xs) => {
                let (s, tc) = ids.last();
                match find_data(p, s@) {
                    None => Err(one(kind + " node with ID "@ + s@ + " was not found. Have you defined it?"@, tc)),
                    Some(n) => {
                        let sde = data_sde(p.graph, n);
                        match first_index(xs, sde) {
                            Some(k) => Err(seq![
                                ("This is referencing the same semantic data element as a previous ID, this is not allowed. It is sufficient to just specify it once, so you can simply omit this ID"@, tc),
                                ("Previous reference to the same semantic data element is this one"@, xs[k].1),
                                ("This is the semantic data element which both reference"@, node_tc(p.graph, n))]),
                            None => Ok(xs.push((sde, tc))),
                        }
                    },
                }
            },
        }
    }
}

/// Finds the first position in `xs` whose first component is `key`.
fn find_first_sde(xs: &Vec<(SdeId, TokenCoordinate)>, key: SdeId) -> (r: Option<usize>)
    ensures
        r matches Some(k) ==> k < xs@.len() && first_index(xs@, key) == Some(k as int),
        r is None ==> first_index(xs@, key) is None,
{
    let mut i: usize = 0;
    while i < xs.len()
        invariant
            0 <= i <= xs@.len(),
            forall|j: int| 0 <= j < i ==> xs@[j].0 != key,
        decreases xs@.len() - i,
    {
        if xs[i].0.0 == key.0 {
            proof {
                assert(xs@[i as int].0 == key);
                let k = choose|k: int| 0 <= k < xs@.len() && xs@[k].0 == key && forall|j: int| 0 <= j < k ==> xs@[j].0 != key;
                if k < i {
                } else if k > i {
                    assert(xs@[i as int].0 == key);
                }
            }
            return Some(i);
        }
        i = i + 1;
    }
    None
}

fn find_first_pool(xs: &Vec<(PoolId, TokenCoordinate)>, key: PoolId) -> (r: Option<usize>)
    ensures
        r matches Some(k) ==> k < xs@.len() && first_index(xs@, key) == Some(k as int),
        r is None ==> first_index(xs@, key) is None,
{
    let mut i: usize = 0;
    while i < xs.len()
        invariant
            0 <= i <= xs@.len(),
            forall|j: int| 0 <= j < i ==> xs@[j].0 != key,
        decreases xs@.len() - i,
    {
        if xs[i].0.0 == key.0 {
            proof {
                assert(xs@[i as int].0 == key);
                let k = choose|k: int| 0 <= k < xs@.len() && xs@[k].0 == key && forall|j: int| 0 <= j < k ==> xs@[j].0 != key;
                if k < i {
                } else if k > i {
                    assert(xs@[i as int].0 == key);
                }
            }
            return Some(i);
        }
        i = i + 1;
    }
    None
}

impl Parser {
    /// Resolves the data flow annotations of a TEE or MPC; `label` says whether they are incoming or
    /// outgoing.
    pub fn parse_pebpmd_nodes(&self, entries: &[lexer::Protection], label: &str) -> (r: Result<Vec<Protection>, ParseError>)
        requires
            parser_wf(*self),
        ensures
            same_seq_result(r, spec_pebpmd_nodes(*self, entries@, label@)),
            r matches Ok(v) ==> prots_ok(self.graph, v@),
    {
        let mut out: Vec<Protection> = Vec::new();
        let mut i: usize = 0;
        while i < entries.len()
            invariant
                0 <= i <= entries@.len(),
                parser_wf(*self),
                prots_ok(self.graph, out@),
                spec_pebpmd_nodes(*self, entries@.take(i as int), label@) == Ok::<Seq<Protection>, Seq<(Seq<char>, TokenCoordinate)>>(out@),
            decreases entries@.len() - i,
        {
            let entry = &entries[i];
            proof { lemma_found_nondata_ok(*self, entry.node@); }
            assert(entries@.take(i + 1).drop_last() =~= entries@.take(i as int));
            assert(entries@.take(i + 1).last() == entries@[i as int]);
            let node_id = match self.find_nondata_node_id_or_error(entry.node.as_str(), label, entry.tc) {
                Ok(n) => n,
                Err(e) => {
                    proof { lemma_pebpmd_nodes_stop(*self, entries@, label@, i as int); }
                    return Err(e);
                },
            };
            let rv_source = match &entry.rv {
                Some(rv_str) => match self.context.id_matcher.find_pool_id(rv_str.as_str()) {
                    Some(q) => Some(q),
                    None => {
                        let msg = concat3("ID of the pool (", rv_str.as_str(), ") which created the reference value was not found. Have you defined it?");
                        proof { lemma_pebpmd_nodes_stop(*self, entries@, label@, i as int); }
                        return Err(err1(msg, self.context.current_token_coordinate));
                    },
                },
                None => None,
            };
            out.push(Protection { node: node_id, rv_source, tc: entry.tc });
            i = i + 1;
        }
        assert(entries@.take(i as int) =~= entries@);
        Ok(out)
    }

    /// Resolves data element references; each semantic data element may be named once.
    pub fn parse_data_nodes(&self, node_ids: &[(String, TokenCoordinate)], kind: &str) -> (r: Result<Vec<(SdeId, TokenCoordinate)>, ParseError>)
        requires
            parser_wf(*self),
        ensures
            same_seq_result(r, spec_data_nodes(*self, node_ids@, kind@)),
    {
        let mut out: Vec<(SdeId, TokenCoordinate)> = Vec::new();
        let mut i: usize = 0;
        while i < node_ids.len()
            invariant
                0 <= i <= node_ids@.len(),
                parser_wf(*self),
                spec_data_nodes(*self, node_ids@.take(i as int), kind@) == Ok::<Seq<(SdeId, TokenCoordinate)>, Seq<(Seq<char>, TokenCoordinate)>>(out@),
            decreases node_ids@.len() - i,
        {
            let (data_str, tc) = (&node_ids[i].0, node_ids[i].1);
            assert(node_ids@.take(i + 1).drop_last() =~= node_ids@.take(i as int));
            assert(node_ids@.take(i + 1).last() == node_ids@[i as int]);
            proof { lemma_found_data_ok(*self, data_str@); }
            let node_id = match self.context.id_matcher.find_data_node_id(data_str.as_str(), None) {
                Some(n) => n,
                None => {
                    let mut msg = concat3(kind, " node with ID ", data_str.as_str());
                    push_str(&mut msg, " was not found. Have you defined it?");
                    proof { lemma_data_nodes_stop(*self, node_ids@, kind@, i as int); }
                    return Err(err1(msg, tc));
                },
            };
            let node = &self.graph.nodes[node_id.0];
            let sde_id = match node.get_data_aux() {
                Some(aux) => aux.sde_id,
                None => SdeId(0),
            };
            if let Some(k) = find_first_sde(&out, sde_id) {
                let mut e = err1("This is referencing the same semantic data element as a previous ID, this is not allowed. It is sufficient to just specify it once, so you can simply omit this ID".to_string(), tc);
                push_err(&mut e, "Previous reference to the same semantic data element is this one".to_string(), out[k].1);
                let ntc = node.tc();
                push_err(&mut e, "This is the semantic data element which both reference".to_string(), ntc);
                proof {
                    assert(sde_id == data_sde(self.graph, node_id));
                    assert(first_index(out@, sde_id) == Some(k as int));
                    assert(ntc == node_tc(self.graph, node_id));
                    assert(errs(e) == spec_data_nodes(*self, node_ids@.take(i + 1), kind@)->Err_0);
                    lemma_data_nodes_stop(*self, node_ids@, kind@, i as int);
                }
                return Err(e);
            }
            out.push((sde_id, tc));
            i = i + 1;
        }
        assert(node_ids@.take(i as int) =~= node_ids@);
        Ok(out)
    }
}

proof fn lemma_pebpmd_nodes_stop(p: Parser, entries: Seq<lexer::Protection>, label: Seq<char>, i: int)
    requires
        0 <= i < entries.len(),
        spec_pebpmd_nodes(p, entries.take(i + 1), label) is Err,
    ensures
        spec_pebpmd_nodes(p, entries, label) == spec_pebpmd_nodes(p, entries.take(i + 1), label),
    decreases entries.len() - i,
{
    if i + 1 < entries.len() {
        assert(entries.drop_last().take(i + 1) =~= entries.take(i + 1));
        lemma_pebpmd_nodes_stop(p, entries.drop_last(), label, i);
    } else {
        assert(entries.take(i + 1) =~= entries);
    }
}

proof fn lemma_data_nodes_stop(p: Parser, ids: Seq<(String, TokenCoordinate)>, kind: Seq<char>, i: int)
    requires
        0 <= i < ids.len(),
        spec_data_nodes(p, ids.take(i + 1), kind) is Err,
    ensures
        spec_data_nodes(p, ids, kind) == spec_data_nodes(p, ids.take(i + 1), kind),
    decreases ids.len() - i,
{
    if i + 1 < ids.len() {
        assert(ids.drop_last().take(i + 1) =~= ids.take(i + 1));
        lemma_data_nodes_stop(p, ids.drop_last(), kind, i);
    } else {
        assert(ids.take(i + 1) =~= ids);
    }
}

/// The operator pools in order, each allowed once.
pub open spec fn spec_operator_scan(p: Parser, tee_or_mpc: Seq<char>, ops: Seq<(String, TokenCoordinate)>, sw_or_hw: Seq<char>)
    -> Result<Seq<(PoolId, TokenCoordinate)>, Seq<(Seq<char>, TokenCoordinate)>>
    decreases ops.len(),
{
    if ops.len() == 0 {
        Ok(Seq::empty())
    } else {
        match spec_operator_scan(p, tee_or_mpc, ops.drop_last(), sw_or_hw) {
            Err(d) => Err(d),
            Ok(xs) => {
                let (op, tc) = ops.last();
                match spec_find_pool_or_error(p, op@) {
                    Err(d) => Err(d),
                    Ok(q) => match first_index(xs, q) {
                        Some(k) => Err(seq![
                            ("Each pool can only be specified once in `("@ + tee_or_mpc + "-"@ + sw_or_hw
                                + "-operators ...)`, but this one was specified twice"@, tc),
                            ("Previous reference to the same pool was here"@, xs[k].1),
                            ("This is the pool which both target"@, p.graph.pools@[q.0 as int].tc)]),
                        None => Ok(xs.push((q, tc))),
                    },
                }
            },
        }
    }
}

/// The operators of a TEE or MPC. `this` is the containing pool (with "lane" or "tasks"), which
/// must be among the operators; without operators it is the only one for a TEE and there are none
/// for an MPC. A TEE or MPC on a whole pool (`this` absent) must list its operators.
#[verifier::opaque]
pub open spec fn spec_operators(p: Parser, tee_or_mpc: Seq<char>, ops: Seq<(String, TokenCoordinate)>,
    this: Option<(PoolId, Seq<char>)>, sw_or_hw: Seq<char>) -> Result<Seq<PoolId>, Seq<(Seq<char>, TokenCoordinate)>> {
    if ops.len() == 0 {
        match this {
            Some((q, _)) => if tee_or_mpc == "tee"@ { Ok(seq![q]) } else { Ok(Seq::empty()) },
            None => Err(one("You must have a list of pool references for `("@ + tee_or_mpc + "-"@ + sw_or_hw
                + "-operators @pool-1 @optional-pool-2)`."@, p.context.current_token_coordinate)),
        }
    } else {
        match spec_operator_scan(p, tee_or_mpc, ops, sw_or_hw) {
            Err(d) => Err(d),
            Ok(xs) => match this {
                None => Ok(xs.map_values(|x: (PoolId, TokenCoordinate)| x.0)),
                Some((q, lane_or_tasks)) => if first_index(xs, q) is Some {
                    Ok(xs.map_values(|x: (PoolId, TokenCoordinate)| x.0))
                } else {
                    let all_tcs = TokenCoordinate { source_file_idx: ops[0].1.source_file_idx, start: ops[0].1.start, end: ops.last().1.end };
                    Err(one("The containing pool must always be part of the `("@ + tee_or_mpc + "-"@ + sw_or_hw + "-operators ..)` list of "@
                        + tee_or_mpc + "-"@ + lane_or_tasks
                        + ", but it is currently missing. Note: If the containing pool would be the only operator, then you can use the magic keyword `"@
                        + CONTAINING_POOL_ONLY_KEYWORD@ + "`"@, all_tcs)
                        + xs.map_values(|x: (PoolId, TokenCoordinate)| ("This pool was referenced (but is not the containing pool)"@,
                            p.graph.pools@[x.0.0 as int].tc)))
                },
            },
        }
    }
}

/// A protected node lies in pool `pool` (and, for a lane, in lane `lane`).
pub open spec fn inside(g: Graph, prots: Seq<Protection>, pool: PoolId, lane: Option<LaneId>) -> bool {
    exists|i: int| 0 <= i < prots.len() && {
        let n = g.nodes@[(#[trigger] prots[i]).node.0 as int];
        n.pool == pool && match lane { Some(l) => n.lane == l, None => true }
    }
}

pub open spec fn prots_ok(g: Graph, prots: Seq<Protection>) -> bool {
    forall|i: int| 0 <= i < prots.len() ==> (#[trigger] prots[i]).node.0 < g.nodes@.len()
}

/// The checks of a TEE or MPC on a pool or lane: nothing inside it may be protected on the way in
/// or unprotected on the way out.
pub open spec fn spec_verify_area(p: Parser, in_protect: Seq<Protection>, out_unprotect: Seq<Protection>, tee_or_mpc: Seq<char>, pool: PoolId, lane: Option<LaneId>) -> Result<(), Seq<(Seq<char>, TokenCoordinate)>> {
    let area = if lane is Some { " lane."@ } else { " pool."@ };
    if inside(p.graph, in_protect, pool, lane) {
        Err(one("'"@ + tee_or_mpc + "-in-protect' is not allowed inside "@ + tee_or_mpc + area, p.context.current_token_coordinate))
    } else if inside(p.graph, out_unprotect, pool, lane) {
        Err(one("'"@ + tee_or_mpc + "-out-unprotect' is not allowed inside "@ + tee_or_mpc + area, p.context.current_token_coordinate))
    } else {
        Ok(())
    }
}

fn any_inside(g: &Graph, prots: &Vec<Protection>, pool: PoolId, lane: Option<LaneId>) -> (r: bool)
    requires
        prots_ok(*g, prots@),
    ensures
        r == inside(*g, prots@, pool, lane),
{
    let mut i: usize = 0;
    while i < prots.len()
        invariant
            0 <= i <= prots@.len(),
            prots_ok(*g, prots@),
            forall|k: int| 0 <= k < i ==> !({
                let n = g.nodes@[(#[trigger] prots@[k]).node.0 as int];
                n.pool == pool && match lane { Some(l) => n.lane == l, None => true }
            }),
        decreases prots@.len() - i,
    {
        let n = &g.nodes[prots[i].node.0];
        let hit = n.pool.0 == pool.0 && match lane { Some(l) => n.lane.0 == l.0, None => true };
        if hit {
            assert(prots@[i as int] == prots@[i as int]);
            return true;
        }
        i = i + 1;
    }
    false
}

pub open spec fn same_unit(r: Result<(), ParseError>, s: Result<(), Seq<(Seq<char>, TokenCoordinate)>>) -> bool {
    match (r, s) {
        (Ok(_), Ok(_)) => true,
        (Err(e), Err(d)) => errs(e) == d,
        _ => false,
    }
}

/// The tasks of a TEE or MPC, with the node flags that hide their protection operations set.
pub open spec fn with_hidden_operations(t: NodeType) -> NodeType {
    match t {
        NodeType::RealNode { event, display_text, tc, transported_data, .. } =>
            NodeType::RealNode { event, display_text, tc, transported_data, pe_bpmd_hides_protection_operations: true },
        _ => t,
    }
}

pub open spec fn is_task(tasks: Seq<(NodeId, TokenCoordinate)>, n: int) -> bool {
    exists|i: int| 0 <= i < tasks.len() && (#[trigger] tasks[i]).0.0 == n
}

/// `after` is `before` with the tasks' flags set.
pub open spec fn nodes_flagged(before: Seq<crate::graph::Node>, after: Seq<crate::graph::Node>, tasks: Seq<(NodeId, TokenCoordinate)>) -> bool {
    &&& after.len() == before.len()
    &&& forall|n: int| 0 <= n < before.len() ==> (#[trigger] after[n]) == if is_task(tasks, n) {
        crate::graph::Node { node_type: with_hidden_operations(before[n].node_type), ..before[n] }
    } else {
        before[n]
    }
}

pub open spec fn tasks_flagged(before: Graph, after: Graph, tasks: Seq<(NodeId, TokenCoordinate)>) -> bool {
    &&& nodes_flagged(before.nodes@, after.nodes@, tasks)
    &&& after.edges == before.edges
    &&& after.pools == before.pools
    &&& after.data_elements == before.data_elements
    &&& after.config == before.config
    &&& after.num_layers == before.num_layers
    &&& after.pe_bpmd_definitions == before.pe_bpmd_definitions
}

pub open spec fn all_in_one_pool(g: Graph, tasks: Seq<(NodeId, TokenCoordinate)>) -> bool {
    tasks.len() > 0 && forall|i: int| 0 <= i < tasks.len() ==> g.nodes@[(#[trigger] tasks[i]).0.0 as int].pool == g.nodes@[tasks[0].0.0 as int].pool
}

/// For each task: the selector, the node it matched, and that node's pool.
pub open spec fn task_trail(g: Graph, tasks: Seq<(NodeId, TokenCoordinate)>) -> Seq<(Seq<char>, TokenCoordinate)>
    decreases tasks.len(),
{
    if tasks.len() == 0 {
        Seq::empty()
    } else {
        let (n, tc) = tasks.last();
        task_trail(g, tasks.drop_last()) + seq![
            ("This node selector .."@, tc),
            (".. matches this node .."@, node_tc(g, n)),
            (".. which is part of this pool."@, g.pools@[g.nodes@[n.0 as int].pool.0 as int].tc)]
    }
}

pub open spec fn spec_verify_tasks(p: Parser, out_protect: Seq<Protection>, in_unprotect: Seq<Protection>, tee_or_mpc: Seq<char>, tasks: Seq<(NodeId, TokenCoordinate)>) -> Result<(), Seq<(Seq<char>, TokenCoordinate)>> {
    if out_protect.len() > 0 {
        Err(one(tee_or_mpc + "-tasks does not allow the "@ + tee_or_mpc
            + "-out-protect attribute, as created data is implicitly protected. You may opt-out of encryption using the "@
            + tee_or_mpc + "-already-protected attribute."@, out_protect[0].tc))
    } else if in_unprotect.len() > 0 {
        Err(one(tee_or_mpc + "-tasks does not allow the "@ + tee_or_mpc
            + "-in-unprotect attribute, as created data is implicitly protected. You may opt-out of encryption using the "@
            + tee_or_mpc + "-already-protected attribute."@, in_unprotect[0].tc))
    } else if tee_or_mpc == "tee"@ && !all_in_one_pool(p.graph, tasks) {
        Err(one("All tee-tasks must be in the same pool."@, p.context.current_token_coordinate) + task_trail(p.graph, tasks))
    } else {
        Ok(())
    }
}

pub open spec fn tasks_ok(g: Graph, tasks: Seq<(NodeId, TokenCoordinate)>) -> bool {
    forall|i: int| 0 <= i < tasks.len() ==> {
        let n = (#[trigger] tasks[i]).0.0;
        n < g.nodes@.len() && g.nodes@[n as int].node_type is RealNode && g.nodes@[n as int].pool.0 < g.pools@.len()
    }
}

impl Parser {
    /// The software or hardware operators of a TEE or MPC.
    #[verifier::rlimit(50)]
    pub fn find_and_verify_hw_sw_operators(&self, tee_or_mpc: &str, operators: &[(String, TokenCoordinate)],
        this_pool_id_and_lane_or_tasks: Option<(PoolId, &str)>, software_or_hardware: &str) -> (r: Result<Vec<PoolId>, ParseError>)
        requires
            parser_wf(*self),
        ensures
            same_seq_result(r, spec_operators(*self, tee_or_mpc@, operators@,
                match this_pool_id_and_lane_or_tasks { Some((q, s)) => Some((q, s@)), None => None }, software_or_hardware@)),
    {
        reveal(spec_operators);
        let ghost this_spec = match this_pool_id_and_lane_or_tasks { Some((q, s)) => Some((q, s@)), None => None };
        if operators.len() == 0 {
            proof { reveal_strlit("tee"); }
            match this_pool_id_and_lane_or_tasks {
                Some((this_pool_id, _)) => {
                    if str_eq(tee_or_mpc, "tee") {
                        let mut v = Vec::new();
                        v.push(this_pool_id);
                        assert(v@ =~= seq![this_pool_id]);
                        return Ok(v);
                    } else {
                        let v: Vec<PoolId> = Vec::new();
                        assert(v@ =~= Seq::<PoolId>::empty());
                        return Ok(v);
                    }
                },
                None => {
                    let mut msg = concat3("You must have a list of pool references for `(", tee_or_mpc, "-");
                    push_str(&mut msg, software_or_hardware);
                    push_str(&mut msg, "-operators @pool-1 @optional-pool-2)`.");
                    return Err(err1(msg, self.context.current_token_coordinate));
                },
            }
        }
        let first_tc = operators[0].1;
        let last_tc = operators[operators.len() - 1].1;
        let all_tcs = TokenCoordinate { source_file_idx: first_tc.source_file_idx, start: first_tc.start, end: last_tc.end };
        let mut result: Vec<(PoolId, TokenCoordinate)> = Vec::new();
        let mut i: usize = 0;
        while i < operators.len()
            invariant
                0 <= i <= operators@.len(),
                parser_wf(*self),
                spec_operator_scan(*self, tee_or_mpc@, operators@.take(i as int), software_or_hardware@)
                    == Ok::<Seq<(PoolId, TokenCoordinate)>, Seq<(Seq<char>, TokenCoordinate)>>(result@),
                forall|m: int| 0 <= m < result@.len() ==> (#[trigger] result@[m]).0.0 < self.graph.pools@.len(),
            decreases operators@.len() - i,
        {
            reveal(spec_operators);
            let (operator, tc) = (&operators[i].0, operators[i].1);
            assert(operators@.take(i + 1).drop_last() =~= operators@.take(i as int));
            assert(operators@.take(i + 1).last() == operators@[i as int]);
            proof { lemma_found_pool_ok(*self, operator@); }
            let pool_id = match self.find_pool_id_or_error(operator.as_str()) {
                Ok(q) => q,
                Err(e) => {
                    proof { lemma_operator_scan_stop(*self, tee_or_mpc@, operators@, software_or_hardware@, i as int); }
                    return Err(e);
                },
            };
            if let Some(idx) = find_first_pool(&result, pool_id) {
                let mut msg = concat3("Each pool can only be specified once in `(", tee_or_mpc, "-");
                push_str(&mut msg, software_or_hardware);
                push_str(&mut msg, "-operators ...)`, but this one was specified twice");
                let mut e = err1(msg, tc);
                push_err(&mut e, "Previous reference to the same pool was here".to_string(), result[idx].1);
                push_err(&mut e, "This is the pool which both target".to_string(), self.graph.pools[pool_id.0].tc);
                assert(first_index(result@, pool_id) == Some(idx as int));
                assert(errs(e) == spec_operator_scan(*self, tee_or_mpc@, operators@.take(i + 1), software_or_hardware@)->Err_0);
                proof { lemma_operator_scan_stop(*self, tee_or_mpc@, operators@, software_or_hardware@, i as int); }
                return Err(e);
            }
            result.push((pool_id, tc));
            i = i + 1;
        }
        assert(operators@.take(i as int) =~= operators@);
        let ghost xs = result@;
        let mut pools: Vec<PoolId> = Vec::new();
        let mut k: usize = 0;
        while k < result.len()
            invariant
                0 <= k <= result@.len(),
                pools@ =~= result@.take(k as int).map_values(|x: (PoolId, TokenCoordinate)| x.0),
            decreases result@.len() - k,
        {
            pools.push(result[k].0);
            k = k + 1;
            assert(pools@ =~= result@.take(k as int).map_values(|x: (PoolId, TokenCoordinate)| x.0));
        }
        assert(result@.take(k as int) =~= result@);
        match this_pool_id_and_lane_or_tasks {
            None => Ok(pools),
            Some((this_pool_id, lane_or_tasks)) => {
                if find_first_pool(&result, this_pool_id).is_some() {
                    Ok(pools)
                } else {
                    let mut msg = concat3("The containing pool must always be part of the `(", tee_or_mpc, "-");
                    push_str(&mut msg, software_or_hardware);
                    push_str(&mut msg, "-operators ..)` list of ");
                    push_str(&mut msg, tee_or_mpc);
                    push_str(&mut msg, "-");
                    push_str(&mut msg, lane_or_tasks);
                    push_str(&mut msg, ", but it is currently missing. Note: If the containing pool would be the only operator, then you can use the magic keyword `");
                    push_str(&mut msg, CONTAINING_POOL_ONLY_KEYWORD);
                    push_str(&mut msg, "`");
                    let mut e = err1(msg, all_tcs);
                    let ghost head = errs(e);
                    let mut j: usize = 0;
                    while j < result.len()
                        invariant
                            0 <= j <= result@.len(),
                            parser_wf(*self),
                            forall|m: int| 0 <= m < result@.len() ==> (#[trigger] result@[m]).0.0 < self.graph.pools@.len(),
                            errs(e) =~= head + result@.take(j as int).map_values(|x: (PoolId, TokenCoordinate)| ("This pool was referenced (but is not the containing pool)"@,
                                self.graph.pools@[x.0.0 as int].tc)),
                        decreases result@.len() - j,
                    {
                        push_err(&mut e, "This pool was referenced (but is not the containing pool)".to_string(), self.graph.pools[result[j].0.0].tc);
                        j = j + 1;
                        assert(errs(e) =~= head + result@.take(j as int).map_values(|x: (PoolId, TokenCoordinate)| ("This pool was referenced (but is not the containing pool)"@,
                                self.graph.pools@[x.0.0 as int].tc)));
                    }
                    assert(result@.take(j as int) =~= result@);
                    Err(e)
                }
            },
        }
    }

    /// The checks of a TEE or MPC on a whole pool.
    pub fn verify_pebpmd_pool(&self, common: &ComputationCommon, tee_or_mpc: &str) -> (r: Result<(), ParseError>)
        requires
            common.pebpmd_type is Pool,
            prots_ok(self.graph, common.in_protect@),
            prots_ok(self.graph, common.out_unprotect@),
        ensures
            same_unit(r, spec_verify_area(*self, common.in_protect@, common.out_unprotect@, tee_or_mpc@, common.pebpmd_type->Pool_0, None)),
    {
        let pool_id = match &common.pebpmd_type {
            PeBpmdSubType::Pool(q) => *q,
            _ => PoolId(0),
        };
        if any_inside(&self.graph, &common.in_protect, pool_id, None) {
            let mut msg = concat3("'", tee_or_mpc, "-in-protect' is not allowed inside ");
            push_str(&mut msg, tee_or_mpc);
            push_str(&mut msg, " pool.");
            return Err(err1(msg, self.context.current_token_coordinate));
        }
        if any_inside(&self.graph, &common.out_unprotect, pool_id, None) {
            let mut msg = concat3("'", tee_or_mpc, "-out-unprotect' is not allowed inside ");
            push_str(&mut msg, tee_or_mpc);
            push_str(&mut msg, " pool.");
            return Err(err1(msg, self.context.current_token_coordinate));
        }
        Ok(())
    }

    /// The checks of a TEE or MPC on a lane.
    pub fn verify_pebpmd_lane(&self, common: &ComputationCommon, tee_or_mpc: &str) -> (r: Result<(), ParseError>)
        requires
            common.pebpmd_type is Lane,
            prots_ok(self.graph, common.in_protect@),
            prots_ok(self.graph, common.out_unprotect@),
        ensures
            same_unit(r, spec_verify_area(*self, common.in_protect@, common.out_unprotect@, tee_or_mpc@, common.pebpmd_type->pool_id, Some(common.pebpmd_type->lane_id))),
    {
        let (pool_id, lane_id) = match &common.pebpmd_type {
            PeBpmdSubType::Lane { pool_id, lane_id } => (*pool_id, *lane_id),
            _ => (PoolId(0), LaneId(0)),
        };
        if any_inside(&self.graph, &common.in_protect, pool_id, Some(lane_id)) {
            let mut msg = concat3("'", tee_or_mpc, "-in-protect' is not allowed inside ");
            push_str(&mut msg, tee_or_mpc);
            push_str(&mut msg, " lane.");
            return Err(err1(msg, self.context.current_token_coordinate));
        }
        if any_inside(&self.graph, &common.out_unprotect, pool_id, Some(lane_id)) {
            let mut msg = concat3("'", tee_or_mpc, "-out-unprotect' is not allowed inside ");
            push_str(&mut msg, tee_or_mpc);
            push_str(&mut msg, " lane.");
            return Err(err1(msg, self.context.current_token_coordinate));
        }
        Ok(())
    }
}

proof fn lemma_operator_scan_stop(p: Parser, tee_or_mpc: Seq<char>, ops: Seq<(String, TokenCoordinate)>, sw_or_hw: Seq<char>, i: int)
    requires
        0 <= i < ops.len(),
        spec_operator_scan(p, tee_or_mpc, ops.take(i + 1), sw_or_hw) is Err,
    ensures
        spec_operator_scan(p, tee_or_mpc, ops, sw_or_hw) == spec_operator_scan(p, tee_or_mpc, ops.take(i + 1), sw_or_hw),
    decreases ops.len() - i,
{
    if i + 1 < ops.len() {
        assert(ops.drop_last().take(i + 1) =~= ops.take(i + 1));
        lemma_operator_scan_stop(p, tee_or_mpc, ops.drop_last(), sw_or_hw, i);
    } else {
        assert(ops.take(i + 1) =~= ops);
    }
}

impl Parser {
    /// The checks of a TEE or MPC on a list of tasks. The tasks are first marked as hiding their
    /// protection operations; then no outgoing protection and no incoming unprotection may be
    /// given, and the tasks of a TEE must all lie in one pool.
    pub fn verify_pebpmd_tasks(&mut self, common: &ComputationCommon, tee_or_mpc: &str) -> (r: Result<(), ParseError>)
        requires
            common.pebpmd_type is Tasks,
            tasks_ok(old(self).graph, common.pebpmd_type->Tasks_0@),
        ensures
            tasks_flagged(old(self).graph, final(self).graph, common.pebpmd_type->Tasks_0@),
            final(self).context == old(self).context,
            same_unit(r, spec_verify_tasks(*old(self), common.out_protect@, common.in_unprotect@, tee_or_mpc@, common.pebpmd_type->Tasks_0@)),
    {
        let ghost old_graph = self.graph;
        let ghost p0 = *self;
        let tasks = match &common.pebpmd_type {
            PeBpmdSubType::Tasks(t) => t,
            _ => {
                proof { assert(false); }
                return Ok(());
            },
        };
        let mut nodes: Vec<crate::graph::Node> = Vec::new();
        std::mem::swap(&mut nodes, &mut self.graph.nodes);
        let mut i: usize = 0;
        while i < tasks.len()
            invariant
                0 <= i <= tasks@.len(),
                tasks_ok(old_graph, tasks@),
                nodes@.len() == old_graph.nodes@.len(),
                forall|n: int| 0 <= n < old_graph.nodes@.len() ==> (#[trigger] nodes@[n]) == if is_task(tasks@.take(i as int), n) {
                    crate::graph::Node { node_type: with_hidden_operations(old_graph.nodes@[n].node_type), ..old_graph.nodes@[n] }
                } else {
                    old_graph.nodes@[n]
                },
            decreases tasks@.len() - i,
        {
            let idx = tasks[i].0.0;
            assert(tasks@[i as int].0.0 == idx);
            let mut node = nodes.remove(idx);
            if let NodeType::RealNode { pe_bpmd_hides_protection_operations, .. } = &mut node.node_type {
                *pe_bpmd_hides_protection_operations = true;
            }
            nodes.insert(idx, node);
            proof {
                assert forall|n: int| 0 <= n < old_graph.nodes@.len() implies (#[trigger] nodes@[n]) == if is_task(tasks@.take(i + 1), n) {
                    crate::graph::Node { node_type: with_hidden_operations(old_graph.nodes@[n].node_type), ..old_graph.nodes@[n] }
                } else {
                    old_graph.nodes@[n]
                } by {
                    if n == idx {
                        assert(tasks@.take(i + 1)[i as int] == tasks@[i as int]);
                    } else {
                        if is_task(tasks@.take(i + 1), n) {
                            let j = choose|j: int| 0 <= j < tasks@.take(i + 1).len() && (#[trigger] tasks@.take(i + 1)[j]).0.0 == n;
                            assert(tasks@.take(i as int)[j] == tasks@.take(i + 1)[j]);
                        }
                        if is_task(tasks@.take(i as int), n) {
                            let j = choose|j: int| 0 <= j < tasks@.take(i as int).len() && (#[trigger] tasks@.take(i as int)[j]).0.0 == n;
                            assert(tasks@.take(i + 1)[j] == tasks@.take(i as int)[j]);
                        }
                    }
                }
            }
            i = i + 1;
        }
        assert(tasks@.take(i as int) =~= tasks@);
        std::mem::swap(&mut nodes, &mut self.graph.nodes);
        assert forall|n: int| 0 <= n < old_graph.nodes@.len() implies (#[trigger] self.graph.nodes@[n]).pool == old_graph.nodes@[n].pool
            && (self.graph.nodes@[n].node_type is RealNode) == (old_graph.nodes@[n].node_type is RealNode)
            && tc_at(self.graph, n) == tc_at(old_graph, n) by {
        }
        if common.out_protect.len() > 0 {
            let mut msg = concat3(tee_or_mpc, "-tasks does not allow the ", tee_or_mpc);
            push_str(&mut msg, "-out-protect attribute, as created data is implicitly protected. You may opt-out of encryption using the ");
            push_str(&mut msg, tee_or_mpc);
            push_str(&mut msg, "-already-protected attribute.");
            return Err(err1(msg, common.out_protect[0].tc));
        }
        if common.in_unprotect.len() > 0 {
            let mut msg = concat3(tee_or_mpc, "-tasks does not allow the ", tee_or_mpc);
            push_str(&mut msg, "-in-unprotect attribute, as created data is implicitly protected. You may opt-out of encryption using the ");
            push_str(&mut msg, tee_or_mpc);
            push_str(&mut msg, "-already-protected attribute.");
            return Err(err1(msg, common.in_unprotect[0].tc));
        }
        proof { reveal_strlit("tee"); }
        if str_eq(tee_or_mpc, "tee") {
            let mut one_pool = tasks.len() > 0;
            if one_pool {
                let first_pool = self.graph.nodes[tasks[0].0.0].pool;
                let mut k: usize = 0;
                while k < tasks.len()
                    invariant
                        0 <= k <= tasks@.len(),
                        tasks@.len() > 0,
                        tasks_ok(old_graph, tasks@),
                        self.graph.nodes@.len() == old_graph.nodes@.len(),
                        forall|n: int| 0 <= n < old_graph.nodes@.len() ==> (#[trigger] self.graph.nodes@[n]).pool == old_graph.nodes@[n].pool,
                        first_pool == old_graph.nodes@[tasks@[0].0.0 as int].pool,
                        one_pool == forall|j: int| 0 <= j < k ==> old_graph.nodes@[(#[trigger] tasks@[j]).0.0 as int].pool == first_pool,
                    decreases tasks@.len() - k,
                {
                    let n = tasks[k].0.0;
                    assert(self.graph.nodes@[n as int].pool == old_graph.nodes@[n as int].pool);
                    if self.graph.nodes[n].pool.0 != first_pool.0 {
                        one_pool = false;
                    }
                    k = k + 1;
                }
            }
            assert(one_pool == all_in_one_pool(old_graph, tasks@));
            if !one_pool {
                let mut e = err1("All tee-tasks must be in the same pool.".to_string(), self.context.current_token_coordinate);
                let ghost head = errs(e);
                let mut k: usize = 0;
                while k < tasks.len()
                    invariant
                        0 <= k <= tasks@.len(),
                        tasks_ok(old_graph, tasks@),
                        self.graph.pools == old_graph.pools,
                        self.graph.nodes@.len() == old_graph.nodes@.len(),
                        forall|n: int| 0 <= n < old_graph.nodes@.len() ==> (#[trigger] self.graph.nodes@[n]).pool == old_graph.nodes@[n].pool
                            && (self.graph.nodes@[n].node_type is RealNode) == (old_graph.nodes@[n].node_type is RealNode)
                            && tc_at(self.graph, n) == tc_at(old_graph, n),
                        errs(e) == head + task_trail(old_graph, tasks@.take(k as int)),
                    decreases tasks@.len() - k,
                {
                    let (node_id, node_tc_k) = tasks[k];
                    assert(tasks@[k as int].0.0 < old_graph.nodes@.len());
                    assert(self.graph.nodes@[node_id.0 as int].node_type is RealNode);
                    let node = &self.graph.nodes[node_id.0];
                    let ntc = node.tc();
                    let pool_tc = self.graph.pools[node.pool.0].tc;
                    push_err(&mut e, "This node selector ..".to_string(), node_tc_k);
                    push_err(&mut e, ".. matches this node ..".to_string(), ntc);
                    push_err(&mut e, ".. which is part of this pool.".to_string(), pool_tc);
                    proof {
                        assert(tasks@.take(k + 1).drop_last() =~= tasks@.take(k as int));
                        assert(tasks@.take(k + 1).last() == tasks@[k as int]);
                        assert(ntc == node_tc(old_graph, node_id));
                        assert(errs(e) =~= head + task_trail(old_graph, tasks@.take(k + 1)));
                    }
                    k = k + 1;
                }
                assert(tasks@.take(k as int) =~= tasks@);
                return Err(e);
            }
        }
        Ok(())
    }
}

/// What a TEE or MPC applies to, as values.
pub enum SubTypeModel {
    Pool(PoolId),
    Lane(PoolId, LaneId),
    Tasks(Seq<(NodeId, TokenCoordinate)>),
}

/// A resolved TEE or MPC, as values.
pub struct CommonModel {
    pub pebpmd_type: SubTypeModel,
    pub in_protect: Seq<Protection>,
    pub in_unprotect: Seq<Protection>,
    pub out_protect: Seq<Protection>,
    pub out_unprotect: Seq<Protection>,
    pub data_without_protection: Seq<(SdeId, TokenCoordinate)>,
    pub data_already_protected: Seq<(SdeId, TokenCoordinate)>,
    pub software_operators: Seq<PoolId>,
    pub hardware_operators: Seq<PoolId>,
    pub external_root_access: Seq<PoolId>,
    pub tc: TokenCoordinate,
}

pub open spec fn subtype_model(t: PeBpmdSubType) -> SubTypeModel {
    match t {
        PeBpmdSubType::Pool(q) => SubTypeModel::Pool(q),
        PeBpmdSubType::Lane { pool_id, lane_id } => SubTypeModel::Lane(pool_id, lane_id),
        PeBpmdSubType::Tasks(ts) => SubTypeModel::Tasks(ts@),
    }
}

pub open spec fn common_model(c: ComputationCommon) -> CommonModel {
    CommonModel {
        pebpmd_type: subtype_model(c.pebpmd_type),
        in_protect: c.in_protect@,
        in_unprotect: c.in_unprotect@,
        out_protect: c.out_protect@,
        out_unprotect: c.out_unprotect@,
        data_without_protection: c.data_without_protection@,
        data_already_protected: c.data_already_protected@,
        software_operators: c.software_operators@,
        hardware_operators: c.hardware_operators@,
        external_root_access: c.external_root_access@,
        tc: c.tc,
    }
}

/// The tasks of a TEE or MPC, resolved in order.
pub open spec fn spec_tasks(p: Parser, tee_or_mpc: Seq<char>, tasks: Seq<(String, TokenCoordinate)>)
    -> Result<Seq<(NodeId, TokenCoordinate)>, Seq<(Seq<char>, TokenCoordinate)>>
    decreases tasks.len(),
{
    if tasks.len() == 0 {
        Ok(Seq::empty())
    } else {
        match spec_tasks(p, tee_or_mpc, tasks.drop_last()) {
            Err(d) => Err(d),
            Ok(xs) => match spec_find_nondata_or_error(p, tasks.last().0@, tee_or_mpc + "-tasks"@, tasks.last().1) {
                Err(d) => Err(d),
                Ok(n) => Ok(xs.push((n, tasks.last().1))),
            },
        }
    }
}

/// What the TEE or MPC applies to, with its software and hardware operators.
pub open spec fn spec_subtype(p: Parser, tee_or_mpc: Seq<char>, lx: lexer::ComputationCommon)
    -> Result<(SubTypeModel, Seq<PoolId>, Seq<PoolId>), Seq<(Seq<char>, TokenCoordinate)>> {
    let (area, this) = match lx.pebpmd_type {
        lexer::PeBpmdSubType::Pool(s, _) => match spec_find_pool_or_error(p, s@) {
            Err(d) => (Err(d), None),
            Ok(q) => (Ok(SubTypeModel::Pool(q)), None),
        },
        lexer::PeBpmdSubType::Lane(s, tc) => match find_lane(p, s@) {
            None => (Err(one("Lane with name "@ + s@ + " was not found in any pool. Have you defined it?"@, tc)), None),
            Some((q, l)) => (Ok(SubTypeModel::Lane(q, l)), Some((q, "lane"@))),
        },
        lexer::PeBpmdSubType::Tasks(ts) => match spec_tasks(p, tee_or_mpc, ts@) {
            Err(d) => (Err(d), None),
            Ok(ids) => if ids.len() == 0 {
                (Err(one(tee_or_mpc + "-tasks needs at least one activity ID as an argument"@, lx.tc)), None)
            } else {
                (Ok(SubTypeModel::Tasks(ids)), Some((p.graph.nodes@[ids[0].0.0 as int].pool, "lane"@)))
            },
        },
    };
    match area {
        Err(d) => Err(d),
        Ok(a) => match spec_operators(p, tee_or_mpc, lx.software_operators@, this, "software"@) {
            Err(d) => Err(d),
            Ok(sw) => match spec_operators(p, tee_or_mpc, lx.hardware_operators@, this, "hardware"@) {
                Err(d) => Err(d),
                Ok(hw) => Ok((a, sw, hw)),
            },
        },
    }
}

/// The pools with external root access, resolved in order; the TEE's or MPC's own pool is refused.
pub open spec fn spec_external(p: Parser, lx: lexer::ComputationCommon, area: SubTypeModel, ext: Seq<(String, TokenCoordinate)>)
    -> Result<Seq<PoolId>, Seq<(Seq<char>, TokenCoordinate)>>
    decreases ext.len(),
{
    if ext.len() == 0 {
        Ok(Seq::empty())
    } else {
        match spec_external(p, lx, area, ext.drop_last()) {
            Err(d) => Err(d),
            Ok(xs) => {
                let (s, tc) = ext.last();
                match find_pool(p, s@) {
                    None => Err(one("external_root_access pool with ID ("@ + s@ + ") was not found. Have you defined it?"@, tc)),
                    Some(e) => if area matches SubTypeModel::Pool(q) && q == e {
                        Err(seq![("external_root_access is not allowed to refer to itself."@, tc),
                            ("This ID refers to the same pool."@, lx.pebpmd_type->Pool_1),
                            ("This is the referenced pool."@, p.graph.pools@[e.0 as int].tc)])
                    } else {
                        Ok(xs.push(e))
                    },
                }
            },
        }
    }
}

/// The first repeated node: the position of its first use and of the repetition.
pub open spec fn first_dup(s: Seq<(NodeId, TokenCoordinate)>) -> Option<(int, int)>
    decreases s.len(),
{
    if s.len() == 0 {
        None
    } else {
        match first_dup(s.drop_last()) {
            Some(d) => Some(d),
            None => match first_index(s.drop_last(), s.last().0) {
                Some(i) => Some((i, s.len() - 1)),
                None => None,
            },
        }
    }
}

pub open spec fn node_uses(in_p: Seq<Protection>, in_u: Seq<Protection>, out_p: Seq<Protection>, out_u: Seq<Protection>) -> Seq<(NodeId, TokenCoordinate)> {
    (in_p + in_u + out_p + out_u).map_values(|x: Protection| (x.node, x.tc))
}

/// A TEE or MPC block resolved against the diagram, or the first problem found, in this order:
/// the four annotation lists, what it applies to and its operators, the two data lists, the
/// external root access pools, and finally that no node is annotated twice.
pub open spec fn spec_inner(p: Parser, lx: lexer::ComputationCommon, tee_or_mpc: Seq<char>) -> Result<CommonModel, Seq<(Seq<char>, TokenCoordinate)>> {
    match spec_pebpmd_nodes(p, lx.in_protect@, "incoming"@) {
        Err(d) => Err(d),
        Ok(in_p) => match spec_pebpmd_nodes(p, lx.in_unprotect@, "incoming"@) {
            Err(d) => Err(d),
            Ok(in_u) => match spec_pebpmd_nodes(p, lx.out_protect@, "outgoing"@) {
                Err(d) => Err(d),
                Ok(out_p) => match spec_pebpmd_nodes(p, lx.out_unprotect@, "outgoing"@) {
                    Err(d) => Err(d),
                    Ok(out_u) => match spec_subtype(p, tee_or_mpc, lx) {
                        Err(d) => Err(d),
                        Ok((area, sw, hw)) => match spec_data_nodes(p, lx.data_without_protection@, "data-without-protection"@) {
                            Err(d) => Err(d),
                            Ok(dwp) => match spec_data_nodes(p, lx.data_already_protected@, "data-already-protected"@) {
                                Err(d) => Err(d),
                                Ok(dap) => match spec_external(p, lx, area, lx.external_root_access@) {
                                    Err(d) => Err(d),
                                    Ok(ext) => {
                                        let uses = node_uses(in_p, in_u, out_p, out_u);
                                        match first_dup(uses) {
                                            Some((i, j)) => Err(seq![
                                                ("Each ID may only be used once within the entire [pe-bpmd] block, but this one has been used twice"@, uses[j].1),
                                                ("This was the first use of the same ID"@, uses[i].1)]),
                                            None => Ok(CommonModel {
                                                pebpmd_type: area,
                                                in_protect: in_p,
                                                in_unprotect: in_u,
                                                out_protect: out_p,
                                                out_unprotect: out_u,
                                                data_without_protection: dwp,
                                                data_already_protected: dap,
                                                software_operators: sw,
                                                hardware_operators: hw,
                                                external_root_access: ext,
                                                tc: lx.tc,
                                            }),
                                        }
                                    },
                                },
                            },
                        },
                    },
                },
            },
        },
    }
}

pub open spec fn same_subtype(r: Result<(PeBpmdSubType, Vec<PoolId>, Vec<PoolId>), ParseError>,
    s: Result<(SubTypeModel, Seq<PoolId>, Seq<PoolId>), Seq<(Seq<char>, TokenCoordinate)>>) -> bool {
    match (r, s) {
        (Ok((a, sw, hw)), Ok((b, sw2, hw2))) => subtype_model(a) == b && sw@ == sw2 && hw@ == hw2,
        (Err(e), Err(d)) => errs(e) == d,
        _ => false,
    }
}

proof fn lemma_tasks_stop(p: Parser, tee_or_mpc: Seq<char>, ts: Seq<(String, TokenCoordinate)>, i: int)
    requires
        0 <= i < ts.len(),
        spec_tasks(p, tee_or_mpc, ts.take(i + 1)) is Err,
    ensures
        spec_tasks(p, tee_or_mpc, ts) == spec_tasks(p, tee_or_mpc, ts.take(i + 1)),
    decreases ts.len() - i,
{
    if i + 1 < ts.len() {
        assert(ts.drop_last().take(i + 1) =~= ts.take(i + 1));
        lemma_tasks_stop(p, tee_or_mpc, ts.drop_last(), i);
    } else {
        assert(ts.take(i + 1) =~= ts);
    }
}

proof fn lemma_external_stop(p: Parser, lx: lexer::ComputationCommon, area: SubTypeModel, ext: Seq<(String, TokenCoordinate)>, i: int)
    requires
        0 <= i < ext.len(),
        spec_external(p, lx, area, ext.take(i + 1)) is Err,
    ensures
        spec_external(p, lx, area, ext) == spec_external(p, lx, area, ext.take(i + 1)),
    decreases ext.len() - i,
{
    if i + 1 < ext.len() {
        assert(ext.drop_last().take(i + 1) =~= ext.take(i + 1));
        lemma_external_stop(p, lx, area, ext.drop_last(), i);
    } else {
        assert(ext.take(i + 1) =~= ext);
    }
}

proof fn lemma_first_dup_stop(s: Seq<(NodeId, TokenCoordinate)>, j: int)
    requires
        0 <= j < s.len(),
        first_dup(s.take(j + 1)) is Some,
    ensures
        first_dup(s) == first_dup(s.take(j + 1)),
    decreases s.len() - j,
{
    if j + 1 < s.len() {
        assert(s.drop_last().take(j + 1) =~= s.take(j + 1));
        lemma_first_dup_stop(s.drop_last(), j);
    } else {
        assert(s.take(j + 1) =~= s);
    }
}

/// Finds the first repeated node of `uses`.
fn find_first_dup(uses: &Vec<(NodeId, TokenCoordinate)>) -> (r: Option<(usize, usize)>)
    ensures
        r matches Some((i, j)) ==> first_dup(uses@) == Some((i as int, j as int)) && i < j < uses@.len(),
        r is None ==> first_dup(uses@) is None,
{
    let mut j: usize = 0;
    while j < uses.len()
        invariant
            0 <= j <= uses@.len(),
            first_dup(uses@.take(j as int)) is None,
        decreases uses@.len() - j,
    {
        let key = uses[j].0;
        let mut i: usize = 0;
        while i < j
            invariant
                0 <= i <= j < uses@.len(),
                key == uses@[j as int].0,
                first_dup(uses@.take(j as int)) is None,
                forall|k: int| 0 <= k < i ==> uses@[k].0 != key,
            decreases j - i,
        {
            if uses[i].0.0 == key.0 {
                proof {
                    let prefix = uses@.take(j + 1);
                    assert(prefix.drop_last() =~= uses@.take(j as int));
                    assert(prefix.last() == uses@[j as int]);
                    let before = prefix.drop_last();
                    assert(before[i as int].0 == key);
                    let k = choose|k: int| 0 <= k < before.len() && before[k].0 == key && forall|m: int| 0 <= m < k ==> before[m].0 != key;
                    if k < i {
                        assert(uses@[k].0 != key);
                    } else if k > i {
                        assert(before[i as int].0 != key);
                    }
                    assert(first_index(before, key) == Some(i as int));
                    assert(first_dup(before) is None);
                    assert(prefix.last().0 == key);
                    assert(prefix.len() - 1 == j);
                    assert(first_dup(prefix) == Some((i as int, j as int)));
                    lemma_first_dup_stop(uses@, j as int);
                }
                return Some((i, j));
            }
            i = i + 1;
        }
        proof {
            let prefix = uses@.take(j + 1);
            assert(prefix.drop_last() =~= uses@.take(j as int));
            assert(prefix.last() == uses@[j as int]);
            assert(first_index(prefix.drop_last(), key) is None) by {
                if exists|k: int| 0 <= k < prefix.drop_last().len() && prefix.drop_last()[k].0 == key {
                    let k = choose|k: int| 0 <= k < prefix.drop_last().len() && prefix.drop_last()[k].0 == key;
                    assert(uses@[k].0 != key);
                }
            }
        }
        j = j + 1;
    }
    assert(uses@.take(j as int) =~= uses@);
    None
}

impl Parser {
    /// Resolves the tasks of a TEE or MPC.
    pub fn parse_tasks(&self, tee_or_mpc: &str, tasks: &Vec<(String, TokenCoordinate)>) -> (r: Result<Vec<(NodeId, TokenCoordinate)>, ParseError>)
        requires
            parser_wf(*self),
        ensures
            same_seq_result(r, spec_tasks(*self, tee_or_mpc@, tasks@)),
            r matches Ok(v) ==> tasks_ok(self.graph, v@),
    {
        let label = concat(tee_or_mpc, "-tasks");
        let mut out: Vec<(NodeId, TokenCoordinate)> = Vec::new();
        let mut i: usize = 0;
        while i < tasks.len()
            invariant
                0 <= i <= tasks@.len(),
                parser_wf(*self),
                label@ == tee_or_mpc@ + "-tasks"@,
                spec_tasks(*self, tee_or_mpc@, tasks@.take(i as int)) == Ok::<Seq<(NodeId, TokenCoordinate)>, Seq<(Seq<char>, TokenCoordinate)>>(out@),
                tasks_ok(self.graph, out@),
            decreases tasks@.len() - i,
        {
            assert(tasks@.take(i + 1).drop_last() =~= tasks@.take(i as int));
            assert(tasks@.take(i + 1).last() == tasks@[i as int]);
            let tc = tasks[i].1;
            proof { lemma_found_nondata_ok(*self, tasks@[i as int].0@); }
            match self.find_nondata_node_id_or_error(tasks[i].0.as_str(), label.as_str(), tc) {
                Ok(n) => {
                    out.push((n, tc));
                    assert forall|k: int| 0 <= k < out@.len() implies ({
                        let m = (#[trigger] out@[k]).0.0;
                        m < self.graph.nodes@.len() && self.graph.nodes@[m as int].node_type is RealNode && self.graph.nodes@[m as int].pool.0 < self.graph.pools@.len()
                    }) by {
                        if k < out@.len() - 1 {
                            assert(out@[k] == out@.drop_last()[k]);
                        }
                    }
                },
                Err(e) => {
                    proof { lemma_tasks_stop(*self, tee_or_mpc@, tasks@, i as int); }
                    return Err(e);
                },
            }
            i = i + 1;
        }
        assert(tasks@.take(i as int) =~= tasks@);
        Ok(out)
    }

    /// Resolves what a TEE or MPC applies to and its operators.
    #[verifier::rlimit(50)]
    pub fn parse_subtype(&self, tee_or_mpc: &str, lx: &lexer::ComputationCommon) -> (r: Result<(PeBpmdSubType, Vec<PoolId>, Vec<PoolId>), ParseError>)
        requires
            parser_wf(*self),
        ensures
            same_subtype(r, spec_subtype(*self, tee_or_mpc@, *lx)),
            r matches Ok((t, _, _)) ==> (t matches PeBpmdSubType::Tasks(ts) ==> tasks_ok(self.graph, ts@)),
    {
        proof { reveal_strlit("lane"); }
        let (area, this): (PeBpmdSubType, Option<(PoolId, &str)>) = match &lx.pebpmd_type {
            lexer::PeBpmdSubType::Pool(pool_str, _) => match self.find_pool_id_or_error(pool_str.as_str()) {
                Ok(q) => (PeBpmdSubType::Pool(q), None),
                Err(e) => return Err(e),
            },
            lexer::PeBpmdSubType::Lane(lane_str, lane_tc) => match self.context.id_matcher.find_lane_id(lane_str.as_str()) {
                Some((q, l)) => (PeBpmdSubType::Lane { pool_id: q, lane_id: l }, Some((q, "lane"))),
                None => {
                    let msg = concat3("Lane with name ", lane_str.as_str(), " was not found in any pool. Have you defined it?");
                    return Err(err1(msg, *lane_tc));
                },
            },
            lexer::PeBpmdSubType::Tasks(tasks) => match self.parse_tasks(tee_or_mpc, tasks) {
                Ok(ids) => {
                    if ids.len() == 0 {
                        let msg = concat(tee_or_mpc, "-tasks needs at least one activity ID as an argument");
                        return Err(err1(msg, lx.tc));
                    }
                    let q = self.graph.nodes[ids[0].0.0].pool;
                    (PeBpmdSubType::Tasks(ids), Some((q, "lane")))
                },
                Err(e) => return Err(e),
            },
        };
        let sw = match self.find_and_verify_hw_sw_operators(tee_or_mpc, lx.software_operators.as_slice(), this, "software") {
            Ok(v) => v,
            Err(e) => return Err(e),
        };
        let hw = match self.find_and_verify_hw_sw_operators(tee_or_mpc, lx.hardware_operators.as_slice(), this, "hardware") {
            Ok(v) => v,
            Err(e) => return Err(e),
        };
        Ok((area, sw, hw))
    }

    /// Resolves the pools with external root access.
    pub fn parse_external(&self, lx: &lexer::ComputationCommon, area: &PeBpmdSubType) -> (r: Result<Vec<PoolId>, ParseError>)
        requires
            parser_wf(*self),
            area is Pool ==> lx.pebpmd_type is Pool,
        ensures
            same_seq_result(r, spec_external(*self, *lx, subtype_model(*area), lx.external_root_access@)),
    {
        let ext = &lx.external_root_access;
        let mut out: Vec<PoolId> = Vec::new();
        let mut i: usize = 0;
        while i < ext.len()
            invariant
                0 <= i <= ext@.len(),
                parser_wf(*self),
                area is Pool ==> lx.pebpmd_type is Pool,
                ext == lx.external_root_access,
                spec_external(*self, *lx, subtype_model(*area), ext@.take(i as int)) == Ok::<Seq<PoolId>, Seq<(Seq<char>, TokenCoordinate)>>(out@),
            decreases ext@.len() - i,
        {
            assert(ext@.take(i + 1).drop_last() =~= ext@.take(i as int));
            assert(ext@.take(i + 1).last() == ext@[i as int]);
            let (pool_str, pool_tc) = (&ext[i].0, ext[i].1);
            proof { lemma_found_pool_ok(*self, pool_str@); }
            match self.context.id_matcher.find_pool_id(pool_str.as_str()) {
                None => {
                    let msg = concat3("external_root_access pool with ID (", pool_str.as_str(), ") was not found. Have you defined it?");
                    proof { lemma_external_stop(*self, *lx, subtype_model(*area), ext@, i as int); }
                    return Err(err1(msg, pool_tc));
                },
                Some(e) => {
                    let same = match area {
                        PeBpmdSubType::Pool(q) => q.0 == e.0,
                        _ => false,
                    };
                    if same {
                        let tee_pool_tc = match &lx.pebpmd_type {
                            lexer::PeBpmdSubType::Pool(_, t) => *t,
                            _ => pool_tc,
                        };
                        let mut err = err1("external_root_access is not allowed to refer to itself.".to_string(), pool_tc);
                        push_err(&mut err, "This ID refers to the same pool.".to_string(), tee_pool_tc);
                        push_err(&mut err, "This is the referenced pool.".to_string(), self.graph.pools[e.0].tc);
                        assert(subtype_model(*area) matches SubTypeModel::Pool(q) && q == e);
                        assert(tee_pool_tc == lx.pebpmd_type->Pool_1);
                        assert(errs(err) == spec_external(*self, *lx, subtype_model(*area), ext@.take(i + 1))->Err_0);
                        proof { lemma_external_stop(*self, *lx, subtype_model(*area), ext@, i as int); }
                        return Err(err);
                    }
                    out.push(e);
                },
            }
            i = i + 1;
        }
        assert(ext@.take(i as int) =~= ext@);
        Ok(out)
    }
}

pub open spec fn same_common(r: Result<ComputationCommon, ParseError>, s: Result<CommonModel, Seq<(Seq<char>, TokenCoordinate)>>) -> bool {
    match (r, s) {
        (Ok(c), Ok(m)) => common_model(c) == m,
        (Err(e), Err(d)) => errs(e) == d,
        _ => false,
    }
}

/// The annotated nodes exist, and the tasks are real nodes in existing pools.
pub open spec fn common_ok(g: Graph, c: ComputationCommon) -> bool {
    &&& prots_ok(g, c.in_protect@)
    &&& prots_ok(g, c.in_unprotect@)
    &&& prots_ok(g, c.out_protect@)
    &&& prots_ok(g, c.out_unprotect@)
    &&& (c.pebpmd_type matches PeBpmdSubType::Tasks(ts) ==> tasks_ok(g, ts@))
}

fn append_uses(uses: &mut Vec<(NodeId, TokenCoordinate)>, prots: &Vec<Protection>)
    ensures
        final(uses)@ == old(uses)@ + prots@.map_values(|x: Protection| (x.node, x.tc)),
{
    let ghost start = uses@;
    let mut i: usize = 0;
    while i < prots.len()
        invariant
            0 <= i <= prots@.len(),
            uses@ =~= start + prots@.take(i as int).map_values(|x: Protection| (x.node, x.tc)),
        decreases prots@.len() - i,
    {
        uses.push((prots[i].node, prots[i].tc));
        i = i + 1;
        assert(uses@ =~= start + prots@.take(i as int).map_values(|x: Protection| (x.node, x.tc)));
    }
    assert(prots@.take(i as int) =~= prots@);
}

impl Parser {
    /// Resolves a TEE or MPC block against the diagram, without the checks that depend on what
    /// it applies to.
    #[verifier::rlimit(50)]
    pub fn parse_tee_or_mpc_inner(&self, lexer: lexer::ComputationCommon, tee_or_mpc: &str) -> (r: Result<ComputationCommon, ParseError>)
        requires
            parser_wf(*self),
        ensures
            same_common(r, spec_inner(*self, lexer, tee_or_mpc@)),
            r matches Ok(c) ==> common_ok(self.graph, c),
    {
        proof {
            reveal_strlit("incoming");
            reveal_strlit("outgoing");
        }
        let in_protect = match self.parse_pebpmd_nodes(lexer.in_protect.as_slice(), "incoming") {
            Ok(v) => v,
            Err(e) => return Err(e),
        };
        let in_unprotect = match self.parse_pebpmd_nodes(lexer.in_unprotect.as_slice(), "incoming") {
            Ok(v) => v,
            Err(e) => return Err(e),
        };
        let out_protect = match self.parse_pebpmd_nodes(lexer.out_protect.as_slice(), "outgoing") {
            Ok(v) => v,
            Err(e) => return Err(e),
        };
        let out_unprotect = match self.parse_pebpmd_nodes(lexer.out_unprotect.as_slice(), "outgoing") {
            Ok(v) => v,
            Err(e) => return Err(e),
        };
        let (pebpmd_type, software_operators, hardware_operators) = match self.parse_subtype(tee_or_mpc, &lexer) {
            Ok(t) => t,
            Err(e) => return Err(e),
        };
        let data_without_protection = match self.parse_data_nodes(lexer.data_without_protection.as_slice(), "data-without-protection") {
            Ok(v) => v,
            Err(e) => return Err(e),
        };
        let data_already_protected = match self.parse_data_nodes(lexer.data_already_protected.as_slice(), "data-already-protected") {
            Ok(v) => v,
            Err(e) => return Err(e),
        };
        assert(pebpmd_type is Pool ==> lexer.pebpmd_type is Pool);
        let external_root_access = match self.parse_external(&lexer, &pebpmd_type) {
            Ok(v) => v,
            Err(e) => return Err(e),
        };
        let mut uses: Vec<(NodeId, TokenCoordinate)> = Vec::new();
        append_uses(&mut uses, &in_protect);
        append_uses(&mut uses, &in_unprotect);
        append_uses(&mut uses, &out_protect);
        append_uses(&mut uses, &out_unprotect);
        assert(uses@ =~= node_uses(in_protect@, in_unprotect@, out_protect@, out_unprotect@));
        let ghost sub = spec_subtype(*self, tee_or_mpc@, lexer);
        assert(sub matches Ok((a, sw, hw)) && a == subtype_model(pebpmd_type) && sw == software_operators@ && hw == hardware_operators@);
        assert(spec_external(*self, lexer, subtype_model(pebpmd_type), lexer.external_root_access@) == Ok::<Seq<PoolId>, Seq<(Seq<char>, TokenCoordinate)>>(external_root_access@));
        if let Some((i, j)) = find_first_dup(&uses) {
            let mut e = err1("Each ID may only be used once within the entire [pe-bpmd] block, but this one has been used twice".to_string(), uses[j].1);
            push_err(&mut e, "This was the first use of the same ID".to_string(), uses[i].1);
            assert(errs(e) =~= seq![
                ("Each ID may only be used once within the entire [pe-bpmd] block, but this one has been used twice"@, uses@[j as int].1),
                ("This was the first use of the same ID"@, uses@[i as int].1)]);
            return Err(e);
        }
        Ok(ComputationCommon {
            pebpmd_type,
            in_protect,
            in_unprotect,
            out_protect,
            out_unprotect,
            data_without_protection,
            data_already_protected,
            software_operators,
            hardware_operators,
            external_root_access,
            tc: lexer.tc,
        })
    }
}

/// A TEE or MPC block resolved and checked: on a pool or lane nothing inside may be protected on
/// the way in or unprotected on the way out; on tasks see `spec_verify_tasks`.
pub open spec fn spec_tee_or_mpc(p: Parser, lx: lexer::ComputationCommon, tee_or_mpc: Seq<char>) -> Result<CommonModel, Seq<(Seq<char>, TokenCoordinate)>> {
    match spec_inner(p, lx, tee_or_mpc) {
        Err(d) => Err(d),
        Ok(m) => {
            let checked = match m.pebpmd_type {
                SubTypeModel::Pool(q) => spec_verify_area(p, m.in_protect, m.out_unprotect, tee_or_mpc, q, None),
                SubTypeModel::Lane(q, l) => spec_verify_area(p, m.in_protect, m.out_unprotect, tee_or_mpc, q, Some(l)),
                SubTypeModel::Tasks(ts) => spec_verify_tasks(p, m.out_protect, m.in_unprotect, tee_or_mpc, ts),
            };
            match checked {
                Err(d) => Err(d),
                Ok(_) => Ok(m),
            }
        },
    }
}

/// How the graph looks after a TEE or MPC block: on tasks (once they resolved) their flags are set,
/// whether or not a later check fails; otherwise it is unchanged.
pub open spec fn graph_after(p: Parser, lx: lexer::ComputationCommon, tee_or_mpc: Seq<char>, after: Graph) -> bool {
    match spec_inner(p, lx, tee_or_mpc) {
        Ok(m) => match m.pebpmd_type {
            SubTypeModel::Tasks(ts) => tasks_flagged(p.graph, after, ts),
            _ => after == p.graph,
        },
        Err(_) => after == p.graph,
    }
}

pub open spec fn same_graph_except_nodes(a: Graph, b: Graph) -> bool {
    &&& a.edges == b.edges
    &&& a.pools == b.pools
    &&& a.data_elements == b.data_elements
    &&& a.config == b.config
    &&& a.num_layers == b.num_layers
    &&& a.pe_bpmd_definitions == b.pe_bpmd_definitions
}

impl Parser {
    /// Resolves and checks a TEE or MPC block (`tee_or_mpc` is `"tee"` or `"mpc"`).
    pub fn parse_tee_or_mpc(&mut self, common: lexer::ComputationCommon, tee_or_mpc: &str) -> (r: Result<ComputationCommon, ParseError>)
        requires
            parser_wf(*old(self)),
        ensures
            same_common(r, spec_tee_or_mpc(*old(self), common, tee_or_mpc@)),
            graph_after(*old(self), common, tee_or_mpc@, final(self).graph),
            final(self).context == old(self).context,
    {
        let ghost p0 = *self;
        let computation_common = match self.parse_tee_or_mpc_inner(common, tee_or_mpc) {
            Ok(c) => c,
            Err(e) => return Err(e),
        };
        let checked = match &computation_common.pebpmd_type {
            PeBpmdSubType::Pool(..) => self.verify_pebpmd_pool(&computation_common, tee_or_mpc),
            PeBpmdSubType::Lane { .. } => self.verify_pebpmd_lane(&computation_common, tee_or_mpc),
            PeBpmdSubType::Tasks(..) => self.verify_pebpmd_tasks(&computation_common, tee_or_mpc),
        };
        match checked {
            Ok(()) => Ok(computation_common),
            Err(e) => Err(e),
        }
    }
}

/// A resolved PE-BPMD block, as values.
pub enum TypeModel {
    SecureChannel(Option<(NodeId, TokenCoordinate)>, Option<(NodeId, TokenCoordinate)>, Seq<(SdeId, TokenCoordinate)>, TokenCoordinate),
    Tee(CommonModel),
    Mpc(CommonModel),
}

pub open spec fn type_model(t: PeBpmdType) -> TypeModel {
    match t {
        PeBpmdType::SecureChannel(sc) => TypeModel::SecureChannel(sc.sender, sc.receiver, sc.permitted_ids@, sc.tc),
        PeBpmdType::Tee(tee) => TypeModel::Tee(common_model(tee.common)),
        PeBpmdType::Mpc(mpc) => TypeModel::Mpc(common_model(mpc.common)),
    }
}

/// The sender or receiver of a secure channel.
pub open spec fn spec_endpoint(p: Parser, e: Option<(String, TokenCoordinate)>, which: Seq<char>) -> Result<Option<(NodeId, TokenCoordinate)>, Seq<(Seq<char>, TokenCoordinate)>> {
    match e {
        None => Ok(None),
        Some((name, tc)) => match find_nondata(p, name@) {
            Some(n) => Ok(Some((n, tc))),
            None => Err(one(which + " node with ID ("@ + name@ + ") was not found. Have you defined it?"@, tc)),
        },
    }
}

/// The position of the first semantic data element that node `n` shows.
pub open spec fn first_sde_of(g: Graph, n: NodeId) -> Option<int> {
    if exists|k: int| 0 <= k < g.data_elements@.len() && (#[trigger] g.data_elements@[k]).data_element@.contains(n) {
        Some(choose|k: int| 0 <= k < g.data_elements@.len() && (#[trigger] g.data_elements@[k]).data_element@.contains(n)
            && forall|j: int| 0 <= j < k ==> !(#[trigger] g.data_elements@[j]).data_element@.contains(n))
    } else {
        None
    }
}

/// `xs` as a map from data elements to locations, with `k` now at `v`: a key keeps its first
/// position.
pub open spec fn insert_pair(xs: Seq<(SdeId, TokenCoordinate)>, k: SdeId, v: TokenCoordinate) -> Seq<(SdeId, TokenCoordinate)> {
    match first_index(xs, k) {
        Some(i) => xs.update(i, (k, v)),
        None => xs.push((k, v)),
    }
}

/// The data elements a secure channel may carry, resolved in order; a data node that shows no
/// semantic data element is passed over.
pub open spec fn spec_permitted(p: Parser, args: Seq<(String, TokenCoordinate)>) -> Result<Seq<(SdeId, TokenCoordinate)>, Seq<(Seq<char>, TokenCoordinate)>>
    decreases args.len(),
{
    if args.len() == 0 {
        Ok(Seq::empty())
    } else {
        match spec_permitted(p, args.drop_last()) {
            Err(d) => Err(d),
            Ok(xs) => {
                let (s, tc) = args.last();
                match find_data(p, s@) {
                    None => Err(one("Data element with ID ("@ + s@ + ") was not found. Have you defined it?"@, tc)),
                    Some(n) => if !spec_is_data(p.graph.nodes@[n.0 as int].node_type) {
                        Err(seq![("Only Data elements IDs are allowed! Node with ID ("@ + s@ + ") is not a data element"@, tc),
                            ("This is the node which was selected by your `@"@ + s@ + "` selector"@, node_tc(p.graph, n))])
                    } else {
                        match first_sde_of(p.graph, n) {
                            None => Ok(xs),
                            Some(k) => Ok(insert_pair(xs, SdeId(k as usize), tc)),
                        }
                    },
                }
            },
        }
    }
}

pub open spec fn spec_secure_channel(p: Parser, sc: lexer::SecureChannel) -> Result<TypeModel, Seq<(Seq<char>, TokenCoordinate)>> {
    match spec_endpoint(p, sc.sender, "Sender"@) {
        Err(d) => Err(d),
        Ok(sender) => match spec_endpoint(p, sc.receiver, "Receiver"@) {
            Err(d) => Err(d),
            Ok(receiver) => match spec_permitted(p, sc.argument_ids@) {
                Err(d) => Err(d),
                Ok(permitted) => if sender is None && receiver is None && permitted.len() == 0 {
                    Err(one("You need to define IDs when you use pre-sent and post-received simultaneously, like:\n\t(secure-channel pre-sent post-received @data_to_send)"@,
                        p.context.current_token_coordinate))
                } else {
                    Ok(TypeModel::SecureChannel(sender, receiver, permitted, sc.tc))
                },
            },
        },
    }
}

pub open spec fn spec_pe_bpmd(p: Parser, pe: lexer::PeBpmd) -> Result<TypeModel, Seq<(Seq<char>, TokenCoordinate)>> {
    match pe.kind {
        lexer::PeBpmdType::SecureChannel(sc) => spec_secure_channel(p, sc),
        lexer::PeBpmdType::Tee(t) => match spec_tee_or_mpc(p, t.common, "tee"@) {
            Err(d) => Err(d),
            Ok(m) => Ok(TypeModel::Tee(m)),
        },
        lexer::PeBpmdType::Mpc(m) => match spec_tee_or_mpc(p, m.common, "mpc"@) {
            Err(d) => Err(d),
            Ok(c) => Ok(TypeModel::Mpc(c)),
        },
    }
}

/// The nodes after a PE-BPMD block: only the tasks of a TEE or MPC are flagged.
pub open spec fn nodes_after(p: Parser, pe: lexer::PeBpmd, after: Seq<crate::graph::Node>) -> bool {
    let (common, tee_or_mpc) = match pe.kind {
        lexer::PeBpmdType::Tee(t) => (Some(t.common), "tee"@),
        lexer::PeBpmdType::Mpc(m) => (Some(m.common), "mpc"@),
        _ => (None, Seq::empty()),
    };
    match common {
        Some(lx) => match spec_inner(p, lx, tee_or_mpc) {
            Ok(m) => match m.pebpmd_type {
                SubTypeModel::Tasks(ts) => nodes_flagged(p.graph.nodes@, after, ts),
                _ => after == p.graph.nodes@,
            },
            Err(_) => after == p.graph.nodes@,
        },
        None => after == p.graph.nodes@,
    }
}

proof fn lemma_permitted_stop(p: Parser, args: Seq<(String, TokenCoordinate)>, i: int)
    requires
        0 <= i < args.len(),
        spec_permitted(p, args.take(i + 1)) is Err,
    ensures
        spec_permitted(p, args) == spec_permitted(p, args.take(i + 1)),
    decreases args.len() - i,
{
    if i + 1 < args.len() {
        assert(args.drop_last().take(i + 1) =~= args.take(i + 1));
        lemma_permitted_stop(p, args.drop_last(), i);
    } else {
        assert(args.take(i + 1) =~= args);
    }
}

impl Parser {
    fn parse_endpoint(&self, e: &Option<(String, TokenCoordinate)>, which: &str) -> (r: Result<Option<(NodeId, TokenCoordinate)>, ParseError>)
        ensures
            match spec_endpoint(*self, *e, which@) {
                Ok(x) => r == Ok::<Option<(NodeId, TokenCoordinate)>, ParseError>(x),
                Err(d) => r matches Err(err) && errs(err) == d,
            },
    {
        match e {
            None => Ok(None),
            Some((name, tc)) => match self.context.id_matcher.find_nondata_node_id(name.as_str(), None) {
                Some(n) => Ok(Some((n, *tc))),
                None => {
                    let mut msg = concat3(which, " node with ID (", name.as_str());
                    push_str(&mut msg, ") was not found. Have you defined it?");
                    Err(err1(msg, *tc))
                },
            },
        }
    }

    fn first_sde_containing(&self, n: NodeId) -> (r: Option<usize>)
        ensures
            match first_sde_of(self.graph, n) {
                Some(k) => r == Some(k as usize) && k < self.graph.data_elements@.len(),
                None => r is None,
            },
    {
        let des = &self.graph.data_elements;
        let mut k: usize = 0;
        while k < des.len()
            invariant
                0 <= k <= des@.len(),
                des == self.graph.data_elements,
                forall|j: int| 0 <= j < k ==> !(#[trigger] des@[j]).data_element@.contains(n),
            decreases des@.len() - k,
        {
            if des[k].contains(n) {
                proof {
                    let w = choose|w: int| 0 <= w < des@.len() && (#[trigger] des@[w]).data_element@.contains(n)
                        && forall|j: int| 0 <= j < w ==> !(#[trigger] des@[j]).data_element@.contains(n);
                    if w < k {
                    } else if w > k {
                        assert(!des@[k as int].data_element@.contains(n));
                    }
                }
                return Some(k);
            }
            k = k + 1;
        }
        None
    }

    fn parse_permitted(&self, args: &Vec<(String, TokenCoordinate)>) -> (r: Result<Vec<(SdeId, TokenCoordinate)>, ParseError>)
        requires
            parser_wf(*self),
        ensures
            same_seq_result(r, spec_permitted(*self, args@)),
    {
        let mut out: Vec<(SdeId, TokenCoordinate)> = Vec::new();
        let mut i: usize = 0;
        while i < args.len()
            invariant
                0 <= i <= args@.len(),
                parser_wf(*self),
                spec_permitted(*self, args@.take(i as int)) == Ok::<Seq<(SdeId, TokenCoordinate)>, Seq<(Seq<char>, TokenCoordinate)>>(out@),
            decreases args@.len() - i,
        {
            assert(args@.take(i + 1).drop_last() =~= args@.take(i as int));
            assert(args@.take(i + 1).last() == args@[i as int]);
            let (string_id, tc) = (&args[i].0, args[i].1);
            proof { lemma_found_data_ok(*self, string_id@); }
            let node_id = match self.context.id_matcher.find_data_node_id(string_id.as_str(), None) {
                Some(n) => n,
                None => {
                    let msg = concat3("Data element with ID (", string_id.as_str(), ") was not found. Have you defined it?");
                    proof { lemma_permitted_stop(*self, args@, i as int); }
                    return Err(err1(msg, tc));
                },
            };
            let target_node = &self.graph.nodes[node_id.0];
            if !target_node.is_data() {
                let msg = concat3("Only Data elements IDs are allowed! Node with ID (", string_id.as_str(), ") is not a data element");
                let mut e = err1(msg, tc);
                let msg2 = concat3("This is the node which was selected by your `@", string_id.as_str(), "` selector");
                let ntc = target_node.tc();
                push_err(&mut e, msg2, ntc);
                proof { lemma_permitted_stop(*self, args@, i as int); }
                return Err(e);
            }
            match self.first_sde_containing(node_id) {
                None => {},
                Some(k) => {
                    let key = SdeId(k);
                    match find_first_sde(&out, key) {
                        Some(idx) => {
                            out.set(idx, (key, tc));
                        },
                        None => {
                            out.push((key, tc));
                        },
                    }
                },
            }
            i = i + 1;
        }
        assert(args@.take(i as int) =~= args@);
        Ok(out)
    }

    /// Resolves a PE-BPMD block and records it in the graph.
    pub fn parse_pe_bpmd(&mut self, pe_bpmd: lexer::PeBpmd) -> (r: Result<(), ParseError>)
        requires
            parser_wf(*old(self)),
        ensures
            match spec_pe_bpmd(*old(self), pe_bpmd) {
                Ok(m) => r is Ok && final(self).graph.pe_bpmd_definitions@.len() == old(self).graph.pe_bpmd_definitions@.len() + 1
                    && final(self).graph.pe_bpmd_definitions@.drop_last() == old(self).graph.pe_bpmd_definitions@
                    && type_model(final(self).graph.pe_bpmd_definitions@.last().kind) == m
                    && final(self).graph.pe_bpmd_definitions@.last().meta == pe_bpmd.meta,
                Err(d) => r matches Err(e) && errs(e) == d
                    && final(self).graph.pe_bpmd_definitions == old(self).graph.pe_bpmd_definitions,
            },
            nodes_after(*old(self), pe_bpmd, final(self).graph.nodes@),
            final(self).graph.edges == old(self).graph.edges,
            final(self).graph.pools == old(self).graph.pools,
            final(self).graph.data_elements == old(self).graph.data_elements,
            final(self).graph.config == old(self).graph.config,
            final(self).graph.num_layers == old(self).graph.num_layers,
            final(self).context == old(self).context,
    {
        proof {
            reveal_strlit("tee");
            reveal_strlit("mpc");
        }
        let kind = match pe_bpmd.kind {
            lexer::PeBpmdType::SecureChannel(secure_channel) => {
                let sender = match self.parse_endpoint(&secure_channel.sender, "Sender") {
                    Ok(x) => x,
                    Err(e) => return Err(e),
                };
                let receiver = match self.parse_endpoint(&secure_channel.receiver, "Receiver") {
                    Ok(x) => x,
                    Err(e) => return Err(e),
                };
                let permitted = match self.parse_permitted(&secure_channel.argument_ids) {
                    Ok(x) => x,
                    Err(e) => return Err(e),
                };
                if sender.is_none() && receiver.is_none() && permitted.len() == 0 {
                    return Err(err1("You need to define IDs when you use pre-sent and post-received simultaneously, like:\n\t(secure-channel pre-sent post-received @data_to_send)".to_string(),
                        self.context.current_token_coordinate));
                }
                PeBpmdType::SecureChannel(SecureChannel { sender, receiver, permitted_ids: permitted, tc: secure_channel.tc })
            },
            lexer::PeBpmdType::Tee(t) => match self.parse_tee_or_mpc(t.common, "tee") {
                Ok(common) => PeBpmdType::Tee(Tee { common }),
                Err(e) => return Err(e),
            },
            lexer::PeBpmdType::Mpc(m) => match self.parse_tee_or_mpc(m.common, "mpc") {
                Ok(common) => PeBpmdType::Mpc(Mpc { common }),
                Err(e) => return Err(e),
            },
        };
        let ghost defs = self.graph.pe_bpmd_definitions@;
        self.graph.pe_bpmd_definitions.push(PeBpmd { kind, meta: pe_bpmd.meta });
        assert(self.graph.pe_bpmd_definitions@.drop_last() =~= defs);
        Ok(())
    }
}

proof fn lemma_no_dup_distinct(s: Seq<(NodeId, TokenCoordinate)>)
    requires
        first_dup(s) is None,
    ensures
        forall|i: int, j: int| 0 <= i < j < s.len() ==> #[trigger] s[i].0 != #[trigger] s[j].0,
    decreases s.len(),
{
    if s.len() > 0 {
        let t = s.drop_last();
        lemma_no_dup_distinct(t);
        assert(first_index(t, s.last().0) is None);
        assert forall|i: int, j: int| 0 <= i < j < s.len() implies #[trigger] s[i].0 != #[trigger] s[j].0 by {
            if j < s.len() - 1 {
                assert(s[i] == t[i] && s[j] == t[j]);
            } else {
                assert(s[i] == t[i]);
                if s[i].0 == s.last().0 {
                    assert(0 <= i < t.len() && t[i].0 == s.last().0);
                }
            }
        }
    }
}

proof fn lemma_external_not_self(p: Parser, lx: lexer::ComputationCommon, area: SubTypeModel, ext: Seq<(String, TokenCoordinate)>)
    ensures
        spec_external(p, lx, area, ext) matches Ok(xs) ==> xs.len() == ext.len()
            && (area matches SubTypeModel::Pool(q) ==> forall|k: int| 0 <= k < xs.len() ==> #[trigger] xs[k] != q),
    decreases ext.len(),
{
    if ext.len() > 0 {
        lemma_external_not_self(p, lx, area, ext.drop_last());
    }
}

/// A TEE or MPC block that resolves uses each node at most once over its four annotation lists,
/// and its pools with external root access are as many as it names, none of them the block's
/// own pool.
pub proof fn lemma_resolved_block(p: Parser, lx: lexer::ComputationCommon, tee_or_mpc: Seq<char>)
    ensures
        spec_inner(p, lx, tee_or_mpc) matches Ok(m) ==> {
            let uses = node_uses(m.in_protect, m.in_unprotect, m.out_protect, m.out_unprotect);
            &&& forall|i: int, j: int| 0 <= i < j < uses.len() ==> #[trigger] uses[i].0 != #[trigger] uses[j].0
            &&& m.external_root_access.len() == lx.external_root_access@.len()
            &&& m.pebpmd_type matches SubTypeModel::Pool(q) ==> forall|k: int| 0 <= k < m.external_root_access.len()
                ==> #[trigger] m.external_root_access[k] != q
        },
{
    if let Ok(m) = spec_inner(p, lx, tee_or_mpc) {
        let uses = node_uses(m.in_protect, m.in_unprotect, m.out_protect, m.out_unprotect);
        assert(first_dup(uses) is None);
        lemma_no_dup_distinct(uses);
        lemma_external_not_self(p, lx, m.pebpmd_type, lx.external_root_access@);
    }
}

} // verus!
