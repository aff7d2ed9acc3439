//! Resolving the names and `@ids` that a PE-BPMD block uses to pools, lanes and nodes: an exact
//! `@id` wins at once, otherwise the best fuzzy match over the registered haystacks.
use vstd::prelude::*;
use crate::ids::{LaneId, NodeId, PoolId};
use crate::graph::Graph;
use crate::lexer::{is_allowed_symbol_in_label_or_id, spec_is_allowed_symbol_in_label_or_id};
use crate::text::{push_char, push_str};
use fuzzy_matcher::FuzzyMatcher;

verus! {

/// Replaces characters that may not occur in an identifier.
pub const DUMMY_SEPARATOR: char = '-';

/// What `fuzzy_matcher`'s skim matcher (default settings) scores `choice` against `pattern`:
/// `None` where the pattern does not match.
pub uninterp spec fn skim_match_score(choice: Seq<char>, pattern: Seq<char>) -> Option<i64>;

/// `SkimMatcherV2::default().fuzzy_match(choice, pattern)`: the score of the best fuzzy match of
/// `pattern` in `choice`, `None` where there is none; an empty pattern matches with score zero.
#[verifier::external_body]
fn skim_fuzzy_match(choice: &str, pattern: &str) -> (r: Option<i64>)
    ensures
        r == skim_match_score(choice@, pattern@),
        pattern@.len() == 0 ==> r == Some(0i64),
{
    fuzzy_matcher::skim::SkimMatcherV2::default().fuzzy_match(choice, pattern)
}

#[derive(Debug, Clone, Copy)]
pub enum SomeId {
    NodeId(NodeId),
    PoolId(PoolId),
    LaneId(PoolId, LaneId),
}

/// What a search has found so far.
#[derive(Debug, Clone, Copy)]
pub enum BestMatch {
    NoMatch,
    Fuzzy(i64, SomeId),
    ExactMatch(SomeId),
}

/// The better of `current` and `other`: an exact match is kept (and `other` never looked at),
/// anything beats nothing, an exact match beats a fuzzy one, and a fuzzy match replaces another
/// only with a strictly higher score.
pub open spec fn spec_maybe_update(current: BestMatch, other: BestMatch) -> BestMatch {
    match current {
        BestMatch::ExactMatch(..) => current,
        BestMatch::NoMatch => other,
        BestMatch::Fuzzy(old, _) => match other {
            BestMatch::ExactMatch(..) => other,
            BestMatch::Fuzzy(new, _) => if old < new { other } else { current },
            BestMatch::NoMatch => current,
        },
    }
}

impl BestMatch {
    pub open spec fn is_exact(self) -> bool {
        self is ExactMatch
    }

    pub fn maybe_update(self, other: BestMatch) -> (r: BestMatch)
        ensures
            r == spec_maybe_update(self, other),
    {
        match self {
            BestMatch::ExactMatch(..) => self,
            BestMatch::NoMatch => other,
            BestMatch::Fuzzy(old, _) => match other {
                BestMatch::ExactMatch(..) => other,
                BestMatch::Fuzzy(new, _) => if old < new { other } else { self },
                BestMatch::NoMatch => self,
            },
        }
    }

    pub fn exact(&self) -> (r: bool)
        ensures
            r == self.is_exact(),
    {
        matches!(self, BestMatch::ExactMatch(..))
    }

    /// The identifier found, if any.
    pub fn found(self) -> (r: Option<SomeId>)
        ensures
            r == spec_found(self),
    {
        match self {
            BestMatch::NoMatch => None,
            BestMatch::Fuzzy(_, id) => Some(id),
            BestMatch::ExactMatch(id) => Some(id),
        }
    }
}

pub open spec fn spec_found(b: BestMatch) -> Option<SomeId> {
    match b {
        BestMatch::NoMatch => None,
        BestMatch::Fuzzy(_, id) => Some(id),
        BestMatch::ExactMatch(id) => Some(id),
    }
}

/// A fuzzy score for `target`, or nothing.
pub open spec fn scored(score: Option<i64>, target: SomeId) -> BestMatch {
    match score {
        Some(s) => BestMatch::Fuzzy(s, target),
        None => BestMatch::NoMatch,
    }
}

/// What can be matched against one pool, lane or node.
#[derive(Debug)]
pub struct IdMeta {
    /// `@identifier`s: a needle equal to one of them is an exact match.
    pub ids: Vec<String>,
    /// Normalized names (prefixed by the names of the containing pool and lane) for fuzzy matching.
    pub fuzzy_haystack: Vec<String>,
    pub target: SomeId,
    /// The pool that the pool, lane or node belongs to.
    pub pool_id: PoolId,
}

pub open spec fn strs(v: Seq<String>) -> Seq<Seq<char>> {
    v.map_values(|s: String| s@)
}

pub open spec fn normalized(s: Seq<char>) -> Seq<char> {
    s.map_values(|c: char| if spec_is_allowed_symbol_in_label_or_id(c) { c } else { DUMMY_SEPARATOR })
}

/// The search through one haystack: each choice's score is offered in turn.
pub open spec fn fold_haystack(hs: Seq<Seq<char>>, needle: Seq<char>, target: SomeId, best: BestMatch) -> BestMatch
    decreases hs.len(),
{
    if hs.len() == 0 {
        best
    } else {
        fold_haystack(hs.drop_first(), needle, target, spec_maybe_update(best, scored(skim_match_score(hs[0], needle), target)))
    }
}

/// The search through `metas` in order: skipping those outside the pool filter, stopping at the
/// first exact `@id`, otherwise folding in every fuzzy score.
pub open spec fn match_from(metas: Seq<IdMeta>, exact: Seq<char>, filter: Option<PoolId>, best: BestMatch) -> BestMatch
    decreases metas.len(),
{
    if metas.len() == 0 {
        best
    } else {
        let m = metas[0];
        if filter is Some && m.pool_id != filter->0 {
            match_from(metas.drop_first(), exact, filter, best)
        } else if strs(m.ids@).contains(exact) {
            BestMatch::ExactMatch(m.target)
        } else {
            match_from(metas.drop_first(), exact, filter,
                fold_haystack(strs(m.fuzzy_haystack@), normalized(exact), m.target, best))
        }
    }
}

pub open spec fn spec_find(metas: Seq<IdMeta>, needle: Seq<char>, filter: Option<PoolId>) -> BestMatch {
    match_from(metas, needle, filter, BestMatch::NoMatch)
}

/// Replaces each character that may not occur in an identifier by the separator.
pub fn normalize(s: &str) -> (r: String)
    ensures
        r@ == normalized(s@),
{
    let n = s.unicode_len();
    let mut r = String::new();
    let mut i: usize = 0;
    while i < n
        invariant
            0 <= i <= n,
            n == s@.len(),
            r@ == normalized(s@.take(i as int)),
        decreases n - i,
    {
        let c = s.get_char(i);
        let mapped = if is_allowed_symbol_in_label_or_id(c) { c } else { DUMMY_SEPARATOR };
        push_char(&mut r, mapped);
        i = i + 1;
        assert(normalized(s@.take(i as int)) =~= normalized(s@.take(i - 1)).push(mapped));
    }
    assert(s@.take(n as int) =~= s@);
    r
}

fn contains_string(v: &Vec<String>, s: &String) -> (r: bool)
    ensures
        r == strs(v@).contains(s@),
{
    let mut i: usize = 0;
    while i < v.len()
        invariant
            0 <= i <= v@.len(),
            forall|k: int| 0 <= k < i ==> v@[k]@ != s@,
        decreases v@.len() - i,
    {
        if v[i] == *s {
            assert(strs(v@)[i as int] == s@);
            return true;
        }
        i = i + 1;
    }
    assert(!strs(v@).contains(s@)) by {
        if strs(v@).contains(s@) {
            let k = choose|k: int| 0 <= k < strs(v@).len() && strs(v@)[k] == s@;
            assert(v@[k]@ == s@);
        }
    }
    false
}

fn to_best(score: Option<i64>, target: SomeId) -> (r: BestMatch)
    ensures
        r == scored(score, target),
{
    match score {
        Some(s) => BestMatch::Fuzzy(s, target),
        None => BestMatch::NoMatch,
    }
}

/// Folds the fuzzy scores of `haystack` against `needle` into `best`.
fn fold_haystack_exec(haystack: &Vec<String>, needle: &str, target: SomeId, best: BestMatch) -> (r: BestMatch)
    ensures
        r == fold_haystack(strs(haystack@), needle@, target, best),
{
    let ghost start = best;
    let mut best = best;
    let mut i: usize = 0;
    assert(haystack@.skip(0) =~= haystack@);
    while i < haystack.len()
        invariant
            0 <= i <= haystack@.len(),
            fold_haystack(strs(haystack@), needle@, target, start)
                == fold_haystack(strs(haystack@.skip(i as int)), needle@, target, best),
        decreases haystack@.len() - i,
    {
        let ghost rest = strs(haystack@.skip(i as int));
        assert(rest[0] == haystack@[i as int]@);
        assert(rest.drop_first() =~= strs(haystack@.skip(i + 1)));
        let score = skim_fuzzy_match(haystack[i].as_str(), needle);
        best = best.maybe_update(to_best(score, target));
        i = i + 1;
    }
    assert(strs(haystack@.skip(i as int)) =~= Seq::<Seq<char>>::empty());
    best
}

/// The search through `metas` for `needle`, restricted to pool `filter` where given.
fn find_in(metas: &Vec<IdMeta>, needle: &str, filter: Option<PoolId>) -> (r: BestMatch)
    ensures
        r == spec_find(metas@, needle@, filter),
{
    let exact_needle = needle.to_owned();
    let normalized_needle = normalize(needle);
    let mut best = BestMatch::NoMatch;
    let mut i: usize = 0;
    assert(metas@.skip(0) =~= metas@);
    while i < metas.len()
        invariant
            0 <= i <= metas@.len(),
            exact_needle@ == needle@,
            normalized_needle@ == normalized(needle@),
            spec_find(metas@, needle@, filter) == match_from(metas@.skip(i as int), needle@, filter, best),
        decreases metas@.len() - i,
    {
        let ghost rest = metas@.skip(i as int);
        assert(rest[0] == metas@[i as int]);
        assert(rest.drop_first() =~= metas@.skip(i + 1));
        let meta = &metas[i];
        let skip = match filter {
            Some(p) => meta.pool_id.0 != p.0,
            None => false,
        };
        if !skip {
            if contains_string(&meta.ids, &exact_needle) {
                return BestMatch::ExactMatch(meta.target);
            }
            best = fold_haystack_exec(&meta.fuzzy_haystack, normalized_needle.as_str(), meta.target, best);
        }
        i = i + 1;
    }
    best
}

/// The entry for candidate `c` behind `prefix`: empty candidates are skipped, since they name
/// nothing.
pub open spec fn entry_for(prefix: Seq<char>, suffix: Seq<char>) -> spec_fn(Seq<char>) -> Option<Seq<char>> {
    |c: Seq<char>| if c.len() > 0 { Some(prefix + normalized(c) + suffix) } else { None }
}

pub open spec fn entries_with_prefix(prefix: Seq<char>, cands: Seq<Seq<char>>, suffix: Seq<char>) -> Seq<Seq<char>> {
    cands.filter_map(entry_for(prefix, suffix))
}

/// A name as a prefix: normalized and followed by the separator; nothing for an empty name.
pub open spec fn prefix_of(name: Seq<char>) -> Seq<char> {
    if name.len() > 0 { normalized(name).push(DUMMY_SEPARATOR) } else { Seq::empty() }
}

/// The entries for `cands` behind each of the `prefixes`, prefix by prefix.
pub open spec fn over_prefixes(prefixes: Seq<Seq<char>>, cands: Seq<Seq<char>>, suffix: Seq<char>) -> Seq<Seq<char>>
    decreases prefixes.len(),
{
    if prefixes.len() == 0 {
        Seq::empty()
    } else {
        over_prefixes(prefixes.drop_last(), cands, suffix) + entries_with_prefix(prefixes.last(), cands, suffix)
    }
}

/// The name (or nothing) followed by the `@ids`.
pub open spec fn name_and_ids(name: Option<String>, ids: Seq<String>) -> Seq<Seq<char>> {
    seq![match name { Some(n) => n@, None => Seq::<char>::empty() }] + strs(ids)
}

pub open spec fn pool_haystack(name: Option<String>, ids: Seq<String>) -> Seq<Seq<char>> {
    entries_with_prefix(Seq::empty(), name_and_ids(name, ids), Seq::empty())
}

/// Every pool name combined with every lane name or id, each part followed by the separator.
pub open spec fn lane_haystack(pool_names: Seq<Seq<char>>, name: Option<String>, ids: Seq<String>) -> Seq<Seq<char>> {
    over_prefixes(pool_names.map_values(|p: Seq<char>| prefix_of(p)), name_and_ids(name, ids), seq![DUMMY_SEPARATOR])
}

/// Every pool name, combined with every lane name, combined with the node's text or an id.
pub open spec fn node_haystack(pool_names: Seq<Seq<char>>, lane_names: Seq<Seq<char>>, text: Seq<char>, ids: Seq<String>) -> Seq<Seq<char>>
    decreases pool_names.len(),
{
    if pool_names.len() == 0 {
        Seq::empty()
    } else {
        node_haystack(pool_names.drop_last(), lane_names, text, ids) + over_prefixes(
            lane_names.map_values(|l: Seq<char>| prefix_of(pool_names.last()) + prefix_of(l)),
            seq![text] + strs(ids), Seq::empty())
    }
}

/// The haystack of the first entry of `metas` whose target is `target`, followed by the empty
/// name.
pub open spec fn names_and_empty(metas: Seq<IdMeta>, target: SomeId) -> Seq<Seq<char>> {
    let found = exists|i: int| 0 <= i < metas.len() && same_target(#[trigger] metas[i].target, target);
    if found {
        let i = choose|i: int| 0 <= i < metas.len() && same_target(#[trigger] metas[i].target, target)
            && forall|j: int| 0 <= j < i ==> !same_target(#[trigger] metas[j].target, target);
        strs(metas[i].fuzzy_haystack@).push(Seq::empty())
    } else {
        seq![Seq::<char>::empty()]
    }
}

pub open spec fn same_target(a: SomeId, b: SomeId) -> bool {
    match (a, b) {
        (SomeId::PoolId(p), SomeId::PoolId(q)) => p.0 == q.0,
        (SomeId::LaneId(p, l), SomeId::LaneId(q, m)) => p.0 == q.0 && l.0 == m.0,
        (SomeId::NodeId(n), SomeId::NodeId(m)) => n.0 == m.0,
        _ => false,
    }
}

fn same_target_exec(a: &SomeId, b: &SomeId) -> (r: bool)
    ensures
        r == same_target(*a, *b),
{
    match (a, b) {
        (SomeId::PoolId(p), SomeId::PoolId(q)) => p.0 == q.0,
        (SomeId::LaneId(p, l), SomeId::LaneId(q, m)) => p.0 == q.0 && l.0 == m.0,
        (SomeId::NodeId(n), SomeId::NodeId(m)) => n.0 == m.0,
        _ => false,
    }
}

/// A copy of the haystack of the first entry with `target`, followed by the empty name.
fn names_and_empty_exec(metas: &Vec<IdMeta>, target: SomeId) -> (r: Vec<String>)
    ensures
        strs(r@) == names_and_empty(metas@, target),
{
    let mut i: usize = 0;
    while i < metas.len()
        invariant
            0 <= i <= metas@.len(),
            forall|j: int| 0 <= j < i ==> !same_target(#[trigger] metas@[j].target, target),
        decreases metas@.len() - i,
    {
        if same_target_exec(&metas[i].target, &target) {
            let hay = &metas[i].fuzzy_haystack;
            let mut r: Vec<String> = Vec::new();
            let mut k: usize = 0;
            while k < hay.len()
                invariant
                    0 <= k <= hay@.len(),
                    r@.len() == k,
                    forall|j: int| 0 <= j < k ==> (#[trigger] r@[j])@ == hay@[j]@,
                decreases hay@.len() - k,
            {
                let c = hay[k].clone();
                r.push(c);
                k = k + 1;
            }
            assert(strs(r@) =~= strs(hay@));
            r.push(String::new());
            proof {
                let w = choose|w: int| 0 <= w < metas@.len() && same_target(#[trigger] metas@[w].target, target)
                    && forall|j: int| 0 <= j < w ==> !same_target(#[trigger] metas@[j].target, target);
                assert(same_target(metas@[i as int].target, target));
                if w < i {
                    assert(!same_target(metas@[w].target, target));
                } else if w > i {
                    assert(!same_target(metas@[i as int].target, target));
                }
                assert(strs(r@) =~= names_and_empty(metas@, target));
            }
            return r;
        }
        i = i + 1;
    }
    let mut r: Vec<String> = Vec::new();
    r.push(String::new());
    assert(strs(r@) =~= names_and_empty(metas@, target));
    r
}

/// Appends the entries for `cands` behind `prefix`, each followed by `suffix`.
fn push_entries(hay: &mut Vec<String>, prefix: &str, cands: &Vec<String>, suffix: &str)
    ensures
        strs(final(hay)@) == strs(old(hay)@) + entries_with_prefix(prefix@, strs(cands@), suffix@),
{
    let ghost before = strs(hay@);
    let mut i: usize = 0;
    while i < cands.len()
        invariant
            0 <= i <= cands@.len(),
            strs(hay@) == before + entries_with_prefix(prefix@, strs(cands@.take(i as int)), suffix@),
        decreases cands@.len() - i,
    {
        let ghost prev = strs(hay@);
        let c = cands[i].as_str();
        let ghost f = entry_for(prefix@, suffix@);
        assert(strs(cands@.take(i + 1)).drop_last() =~= strs(cands@.take(i as int)));
        assert(strs(cands@.take(i + 1)).last() == cands@[i as int]@);
        if !c.is_empty() {
            let mut e = prefix.to_owned();
            let n = normalize(c);
            push_str(&mut e, n.as_str());
            push_str(&mut e, suffix);
            hay.push(e);
            assert(strs(hay@) =~= prev.push(e@));
        } else {
            assert(strs(hay@) =~= prev);
        }
        i = i + 1;
        assert(strs(hay@) =~= before + entries_with_prefix(prefix@, strs(cands@.take(i as int)), suffix@));
    }
    assert(cands@.take(i as int) =~= cands@);
}

/// The name (or the empty string) followed by copies of the `@ids`.
fn name_and_ids_exec(name: &Option<String>, ids: &Vec<String>) -> (r: Vec<String>)
    ensures
        strs(r@) == name_and_ids(*name, ids@),
{
    let mut r: Vec<String> = Vec::new();
    match name {
        Some(n) => r.push(n.clone()),
        None => r.push(String::new()),
    }
    let ghost first = r@[0]@;
    assert(first == name_and_ids(*name, ids@)[0]);
    let mut i: usize = 0;
    while i < ids.len()
        invariant
            0 <= i <= ids@.len(),
            r@.len() == i + 1,
            r@[0]@ == first,
            forall|j: int| 0 <= j < i ==> (#[trigger] r@[j + 1])@ == ids@[j]@,
        decreases ids@.len() - i,
    {
        let c = ids[i].clone();
        r.push(c);
        i = i + 1;
    }
    assert(strs(r@) =~= name_and_ids(*name, ids@)) by {
        assert forall|j: int| 0 <= j < r@.len() implies strs(r@)[j] == name_and_ids(*name, ids@)[j] by {
            if j > 0 {
                assert(r@[(j - 1) + 1]@ == ids@[j - 1]@);
            }
        }
    }
    r
}

/// The registered pools, lanes and nodes.
pub struct IdMatcher {
    pub data_nodes: Vec<IdMeta>,
    pub nondata_nodes: Vec<IdMeta>,
    pub pools: Vec<IdMeta>,
    pub lanes: Vec<IdMeta>,
}

pub open spec fn pool_of(b: BestMatch) -> Option<PoolId> {
    match spec_found(b) {
        Some(SomeId::PoolId(p)) => Some(p),
        _ => None,
    }
}

pub open spec fn lane_of(b: BestMatch) -> Option<(PoolId, LaneId)> {
    match spec_found(b) {
        Some(SomeId::LaneId(p, l)) => Some((p, l)),
        _ => None,
    }
}

pub open spec fn node_of(b: BestMatch) -> Option<NodeId> {
    match spec_found(b) {
        Some(SomeId::NodeId(n)) => Some(n),
        _ => None,
    }
}

/// The search in `first`, then (unless it found an exact `@id`) in `second`.
pub open spec fn either(first: BestMatch, second: BestMatch) -> BestMatch {
    spec_maybe_update(first, second)
}

impl IdMatcher {
    pub fn new() -> (r: IdMatcher)
        ensures
            r.data_nodes@.len() == 0,
            r.nondata_nodes@.len() == 0,
            r.pools@.len() == 0,
            r.lanes@.len() == 0,
    {
        IdMatcher { data_nodes: Vec::new(), nondata_nodes: Vec::new(), pools: Vec::new(), lanes: Vec::new() }
    }

    /// Registers a pool under its name and `@ids`.
    pub fn register_pool(&mut self, pool_id: PoolId, ids: Vec<String>, name: Option<String>)
        ensures
            final(self).pools@.len() == old(self).pools@.len() + 1,
            final(self).pools@.drop_last() == old(self).pools@,
            final(self).pools@.last().ids@ == ids@,
            strs(final(self).pools@.last().fuzzy_haystack@) == pool_haystack(name, ids@),
            final(self).pools@.last().target == SomeId::PoolId(pool_id),
            final(self).pools@.last().pool_id == pool_id,
            final(self).lanes == old(self).lanes,
            final(self).data_nodes == old(self).data_nodes,
            final(self).nondata_nodes == old(self).nondata_nodes,
    {
        let cands = name_and_ids_exec(&name, &ids);
        let mut fuzzy_haystack: Vec<String> = Vec::new();
        push_entries(&mut fuzzy_haystack, "", &cands, "");
        proof {
            reveal_strlit("");
            assert(""@ =~= Seq::<char>::empty());
            assert(strs(fuzzy_haystack@) =~= pool_haystack(name, ids@));
        }
        let ghost old_pools = self.pools@;
        self.pools.push(IdMeta { ids, fuzzy_haystack, target: SomeId::PoolId(pool_id), pool_id });
        assert(self.pools@.drop_last() =~= old_pools);
    }

    /// The fuzzy names of pool `pool_id`, then the empty name.
    pub fn pool_names_and_empty(&self, pool_id: PoolId) -> (r: Vec<String>)
        ensures
            strs(r@) == names_and_empty(self.pools@, SomeId::PoolId(pool_id)),
    {
        names_and_empty_exec(&self.pools, SomeId::PoolId(pool_id))
    }

    /// The fuzzy names of lane `lane_id` of pool `pool_id`, then the empty name.
    pub fn lane_names_and_empty(&self, pool_id: PoolId, lane_id: LaneId) -> (r: Vec<String>)
        ensures
            strs(r@) == names_and_empty(self.lanes@, SomeId::LaneId(pool_id, lane_id)),
    {
        names_and_empty_exec(&self.lanes, SomeId::LaneId(pool_id, lane_id))
    }

    /// Registers a lane under its name and `@ids`, each combined with the names of its pool.
    pub fn register_lane(&mut self, pool_id: PoolId, lane_id: LaneId, ids: Vec<String>, name: Option<String>)
        ensures
            final(self).lanes@.len() == old(self).lanes@.len() + 1,
            final(self).lanes@.drop_last() == old(self).lanes@,
            final(self).lanes@.last().ids@ == ids@,
            strs(final(self).lanes@.last().fuzzy_haystack@) == lane_haystack(
                names_and_empty(old(self).pools@, SomeId::PoolId(pool_id)), name, ids@),
            final(self).lanes@.last().target == SomeId::LaneId(pool_id, lane_id),
            final(self).lanes@.last().pool_id == pool_id,
            final(self).pools == old(self).pools,
            final(self).data_nodes == old(self).data_nodes,
            final(self).nondata_nodes == old(self).nondata_nodes,
    {
        let pool_names = self.pool_names_and_empty(pool_id);
        let cands = name_and_ids_exec(&name, &ids);
        let ghost prefixes = strs(pool_names@).map_values(|p: Seq<char>| prefix_of(p));
        let mut fuzzy_haystack: Vec<String> = Vec::new();
        let mut i: usize = 0;
        while i < pool_names.len()
            invariant
                0 <= i <= pool_names@.len(),
                prefixes == strs(pool_names@).map_values(|p: Seq<char>| prefix_of(p)),
                strs(fuzzy_haystack@) == over_prefixes(prefixes.take(i as int), strs(cands@), seq![DUMMY_SEPARATOR]),
            decreases pool_names@.len() - i,
        {
            let pf = pool_names[i].as_str();
            let mut prefix = String::new();
            if !pf.is_empty() {
                let n = normalize(pf);
                push_str(&mut prefix, n.as_str());
                push_char(&mut prefix, DUMMY_SEPARATOR);
            }
            assert(prefix@ =~= prefixes[i as int]);
            proof { reveal_strlit("-"); }
            push_entries(&mut fuzzy_haystack, prefix.as_str(), &cands, "-");
            assert("-"@ =~= seq![DUMMY_SEPARATOR]);
            assert(prefixes.take(i + 1).drop_last() =~= prefixes.take(i as int));
            i = i + 1;
        }
        assert(prefixes.take(i as int) =~= prefixes);
        let ghost old_lanes = self.lanes@;
        self.lanes.push(IdMeta { ids, fuzzy_haystack, target: SomeId::LaneId(pool_id, lane_id), pool_id });
        assert(self.lanes@.drop_last() =~= old_lanes);
    }

    /// Looks a pool up by `@id` or fuzzy name.
    pub fn find_pool_id(&self, needle: &str) -> (r: Option<PoolId>)
        ensures
            r == pool_of(spec_find(self.pools@, needle@, None)),
    {
        match find_in(&self.pools, needle, None).found() {
            Some(SomeId::PoolId(p)) => Some(p),
            _ => None,
        }
    }

    /// Looks a lane up by `@id` or fuzzy name (optionally with its pool's name), in all pools.
    pub fn find_lane_id(&self, needle: &str) -> (r: Option<(PoolId, LaneId)>)
        ensures
            r == lane_of(spec_find(self.lanes@, needle@, None)),
    {
        match find_in(&self.lanes, needle, None).found() {
            Some(SomeId::LaneId(p, l)) => Some((p, l)),
            _ => None,
        }
    }

    /// Looks up a pool, or else a node that is not a data element.
    pub fn find_pool_or_nondata_id(&self, needle: &str) -> (r: Option<SomeId>)
        ensures
            r == spec_found(either(spec_find(self.pools@, needle@, None), spec_find(self.nondata_nodes@, needle@, None))),
    {
        let pools = find_in(&self.pools, needle, None);
        if pools.exact() {
            return pools.found();
        }
        pools.maybe_update(find_in(&self.nondata_nodes, needle, None)).found()
    }

    /// Looks up any node, optionally only within pool `pool_id`; nodes that are not data elements
    /// are searched first.
    pub fn find_any_node_id(&self, needle: &str, pool_id: Option<PoolId>) -> (r: Option<NodeId>)
        ensures
            r == node_of(either(spec_find(self.nondata_nodes@, needle@, pool_id), spec_find(self.data_nodes@, needle@, pool_id))),
    {
        let first = find_in(&self.nondata_nodes, needle, pool_id);
        let best = if first.exact() { first } else { first.maybe_update(find_in(&self.data_nodes, needle, pool_id)) };
        match best.found() {
            Some(SomeId::NodeId(n)) => Some(n),
            _ => None,
        }
    }

    /// Looks up a data node, optionally only within pool `pool_id`.
    pub fn find_data_node_id(&self, needle: &str, pool_id: Option<PoolId>) -> (r: Option<NodeId>)
        ensures
            r == node_of(spec_find(self.data_nodes@, needle@, pool_id)),
    {
        match find_in(&self.data_nodes, needle, pool_id).found() {
            Some(SomeId::NodeId(n)) => Some(n),
            _ => None,
        }
    }

    /// Looks up a node that is not a data element, optionally only within pool `pool_id`.
    pub fn find_nondata_node_id(&self, needle: &str, pool_id: Option<PoolId>) -> (r: Option<NodeId>)
        ensures
            r == node_of(spec_find(self.nondata_nodes@, needle@, pool_id)),
    {
        match find_in(&self.nondata_nodes, needle, pool_id).found() {
            Some(SomeId::NodeId(n)) => Some(n),
            _ => None,
        }
    }

    /// Registers a node under its text and `@ids`, each combined with the names of its pool and
    /// its lane; data nodes and other nodes are kept apart.
    pub fn register_node(&mut self, node_id: NodeId, ids: Vec<String>, graph: &Graph)
        requires
            node_id.0 < graph.nodes@.len(),
        ensures
            ({
                let node = graph.nodes@[node_id.0 as int];
                let text = match node.node_type {
                    crate::graph::NodeType::RealNode { display_text, .. } => display_text@,
                    _ => Seq::<char>::empty(),
                };
                let is_data = crate::graph::spec_is_data(node.node_type);
                let (grown, other) = if is_data {
                    (final(self).data_nodes@, final(self).nondata_nodes@)
                } else {
                    (final(self).nondata_nodes@, final(self).data_nodes@)
                };
                let (before, other_before) = if is_data {
                    (old(self).data_nodes@, old(self).nondata_nodes@)
                } else {
                    (old(self).nondata_nodes@, old(self).data_nodes@)
                };
                &&& grown.len() == before.len() + 1
                &&& grown.drop_last() == before
                &&& other == other_before
                &&& grown.last().ids@ == ids@
                &&& grown.last().target == SomeId::NodeId(node_id)
                &&& grown.last().pool_id == node.pool
                &&& strs(grown.last().fuzzy_haystack@) == node_haystack(
                    names_and_empty(old(self).pools@, SomeId::PoolId(node.pool)),
                    names_and_empty(old(self).lanes@, SomeId::LaneId(node.pool, node.lane)), text, ids@)
            }),
            final(self).pools == old(self).pools,
            final(self).lanes == old(self).lanes,
    {
        let node = &graph.nodes[node_id.0];
        let text: &str = match node.display_text() {
            Some(t) => t,
            None => "",
        };
        proof {
            reveal_strlit("");
            assert(text@ == match node.node_type {
                crate::graph::NodeType::RealNode { display_text, .. } => display_text@,
                _ => Seq::<char>::empty(),
            });
        }
        let pool_names = self.pool_names_and_empty(node.pool);
        let lane_names = self.lane_names_and_empty(node.pool, node.lane);
        let mut cands: Vec<String> = Vec::new();
        cands.push(text.to_owned());
        let mut k: usize = 0;
        while k < ids.len()
            invariant
                0 <= k <= ids@.len(),
                cands@.len() == k + 1,
                cands@[0]@ == text@,
                forall|j: int| 0 <= j < k ==> (#[trigger] cands@[j + 1])@ == ids@[j]@,
            decreases ids@.len() - k,
        {
            let c = ids[k].clone();
            cands.push(c);
            k = k + 1;
        }
        assert(strs(cands@) =~= seq![text@] + strs(ids@)) by {
            assert forall|j: int| 0 <= j < cands@.len() implies strs(cands@)[j] == (seq![text@] + strs(ids@))[j] by {
                if j > 0 {
                    assert(cands@[(j - 1) + 1]@ == ids@[j - 1]@);
                }
            }
        }
        let ghost pools_s = strs(pool_names@);
        let ghost lanes_s = strs(lane_names@);
        let mut fuzzy_haystack: Vec<String> = Vec::new();
        let mut i: usize = 0;
        while i < pool_names.len()
            invariant
                0 <= i <= pool_names@.len(),
                pools_s == strs(pool_names@),
                lanes_s == strs(lane_names@),
                strs(cands@) == seq![text@] + strs(ids@),
                strs(fuzzy_haystack@) == node_haystack(pools_s.take(i as int), lanes_s, text@, ids@),
            decreases pool_names@.len() - i,
        {
            let pf = pool_names[i].as_str();
            let mut pool_prefix = String::new();
            if !pf.is_empty() {
                let n = normalize(pf);
                push_str(&mut pool_prefix, n.as_str());
                push_char(&mut pool_prefix, DUMMY_SEPARATOR);
            }
            assert(pool_prefix@ =~= prefix_of(pools_s[i as int]));
            let ghost prefixes = lanes_s.map_values(|l: Seq<char>| prefix_of(pools_s[i as int]) + prefix_of(l));
            let ghost start = strs(fuzzy_haystack@);
            let mut j: usize = 0;
            while j < lane_names.len()
                invariant
                    0 <= j <= lane_names@.len(),
                    lanes_s == strs(lane_names@),
                    pool_prefix@ == prefix_of(pools_s[i as int]),
                    prefixes == lanes_s.map_values(|l: Seq<char>| prefix_of(pools_s[i as int]) + prefix_of(l)),
                    strs(fuzzy_haystack@) == start + over_prefixes(prefixes.take(j as int), strs(cands@), Seq::empty()),
                decreases lane_names@.len() - j,
            {
                let lf = lane_names[j].as_str();
                let mut prefix = pool_prefix.clone();
                if !lf.is_empty() {
                    let n = normalize(lf);
                    push_str(&mut prefix, n.as_str());
                    push_char(&mut prefix, DUMMY_SEPARATOR);
                }
                assert(prefix@ =~= prefixes[j as int]);
                push_entries(&mut fuzzy_haystack, prefix.as_str(), &cands, "");
                proof {
                    reveal_strlit("");
                }
                assert(""@ =~= Seq::<char>::empty());
                assert(prefixes.take(j + 1).drop_last() =~= prefixes.take(j as int));
                assert(strs(fuzzy_haystack@) =~= start + over_prefixes(prefixes.take(j + 1), strs(cands@), Seq::empty()));
                j = j + 1;
            }
            assert(prefixes.take(j as int) =~= prefixes);
            assert(pools_s.take(i + 1).drop_last() =~= pools_s.take(i as int));
            assert(pools_s.take(i + 1).last() == pools_s[i as int]);
            i = i + 1;
        }
        assert(pools_s.take(i as int) =~= pools_s);
        assert(strs(fuzzy_haystack@) == node_haystack(names_and_empty(self.pools@, SomeId::PoolId(node.pool)),
            names_and_empty(self.lanes@, SomeId::LaneId(node.pool, node.lane)), text@, ids@));
        let meta = IdMeta { ids, fuzzy_haystack, target: SomeId::NodeId(node_id), pool_id: node.pool };
        let ghost old_data = self.data_nodes@;
        let ghost old_nondata = self.nondata_nodes@;
        if node.is_data() {
            self.data_nodes.push(meta);
            assert(self.data_nodes@.drop_last() =~= old_data);
        } else {
            self.nondata_nodes.push(meta);
            assert(self.nondata_nodes@.drop_last() =~= old_nondata);
        }
    }
}

/// `m` is searched under `filter`: no filter, or `m` belongs to the filter's pool.
pub open spec fn passes(m: IdMeta, filter: Option<PoolId>) -> bool {
    !(filter is Some && m.pool_id != filter->0)
}

/// Entry `i` is searched and lists `needle` among its `@ids`.
pub open spec fn exact_at(metas: Seq<IdMeta>, needle: Seq<char>, filter: Option<PoolId>, i: int) -> bool {
    0 <= i < metas.len() && passes(metas[i], filter) && strs(metas[i].ids@).contains(needle)
}

/// Entry `i` is the first searched entry that lists `needle` among its `@ids`.
pub open spec fn first_exact(metas: Seq<IdMeta>, needle: Seq<char>, filter: Option<PoolId>, i: int) -> bool {
    exact_at(metas, needle, filter, i) && forall|j: int| 0 <= j < i ==> !#[trigger] exact_at(metas, needle, filter, j)
}

/// Some searched entry lists `needle` among its `@ids`.
pub open spec fn has_exact(metas: Seq<IdMeta>, needle: Seq<char>, filter: Option<PoolId>) -> bool {
    exists|i: int| #[trigger] exact_at(metas, needle, filter, i)
}

/// Some searched entry stands for `t`.
pub open spec fn searched_target(metas: Seq<IdMeta>, filter: Option<PoolId>, t: SomeId) -> bool {
    exists|i: int| 0 <= i < metas.len() && passes(#[trigger] metas[i], filter) && metas[i].target == t
}

proof fn lemma_match_from_first_exact(metas: Seq<IdMeta>, needle: Seq<char>, filter: Option<PoolId>, best: BestMatch, i: int)
    requires
        first_exact(metas, needle, filter, i),
    ensures
        match_from(metas, needle, filter, best) == BestMatch::ExactMatch(metas[i].target),
    decreases metas.len(),
{
    if i > 0 {
        let rest = metas.drop_first();
        assert(!exact_at(metas, needle, filter, 0));
        assert forall|j: int| 0 <= j < i - 1 implies !#[trigger] exact_at(rest, needle, filter, j) by {
            assert(!exact_at(metas, needle, filter, j + 1));
            assert(rest[j] == metas[j + 1]);
        }
        assert(rest[i - 1] == metas[i]);
        let m = metas[0];
        if filter is Some && m.pool_id != filter->0 {
            lemma_match_from_first_exact(rest, needle, filter, best, i - 1);
        } else {
            lemma_match_from_first_exact(rest, needle, filter,
                fold_haystack(strs(m.fuzzy_haystack@), normalized(needle), m.target, best), i - 1);
        }
    }
}

proof fn lemma_match_from_no_exact(metas: Seq<IdMeta>, needle: Seq<char>, filter: Option<PoolId>, best: BestMatch)
    requires
        !has_exact(metas, needle, filter),
        !best.is_exact(),
    ensures
        !match_from(metas, needle, filter, best).is_exact(),
    decreases metas.len(),
{
    if metas.len() > 0 {
        let rest = metas.drop_first();
        assert(!exact_at(metas, needle, filter, 0));
        assert forall|j: int| !#[trigger] exact_at(rest, needle, filter, j) by {
            if 0 <= j < rest.len() {
                assert(rest[j] == metas[j + 1]);
                assert(!exact_at(metas, needle, filter, j + 1));
            }
        }
        let m = metas[0];
        if filter is Some && m.pool_id != filter->0 {
            lemma_match_from_no_exact(rest, needle, filter, best);
        } else {
            let hs = strs(m.fuzzy_haystack@);
            lemma_fold_not_exact(hs, normalized(needle), m.target, best);
            lemma_match_from_no_exact(rest, needle, filter, fold_haystack(hs, normalized(needle), m.target, best));
        }
    }
}

proof fn lemma_fold_not_exact(hs: Seq<Seq<char>>, needle: Seq<char>, target: SomeId, best: BestMatch)
    requires
        !best.is_exact(),
    ensures
        !fold_haystack(hs, needle, target, best).is_exact(),
        spec_found(fold_haystack(hs, needle, target, best)) matches Some(t) ==> spec_found(best) == Some(t) || t == target,
    decreases hs.len(),
{
    if hs.len() > 0 {
        lemma_fold_not_exact(hs.drop_first(), needle, target, spec_maybe_update(best, scored(skim_match_score(hs[0], needle), target)));
    }
}

proof fn lemma_match_from_found(metas: Seq<IdMeta>, needle: Seq<char>, filter: Option<PoolId>, best: BestMatch)
    requires
        !best.is_exact(),
    ensures
        spec_found(match_from(metas, needle, filter, best)) matches Some(t) ==> spec_found(best) == Some(t)
            || searched_target(metas, filter, t),
    decreases metas.len(),
{
    if metas.len() > 0 {
        let rest = metas.drop_first();
        let m = metas[0];
        let next = if filter is Some && m.pool_id != filter->0 {
            best
        } else {
            fold_haystack(strs(m.fuzzy_haystack@), normalized(needle), m.target, best)
        };
        if !(filter is Some && m.pool_id != filter->0) {
            lemma_fold_not_exact(strs(m.fuzzy_haystack@), normalized(needle), m.target, best);
        }
        lemma_match_from_found(rest, needle, filter, next);
        if let Some(t) = spec_found(match_from(metas, needle, filter, best)) {
            if searched_target(rest, filter, t) {
                let j = choose|j: int| 0 <= j < rest.len() && passes(#[trigger] rest[j], filter) && rest[j].target == t;
                assert(metas[j + 1] == rest[j]);
            }
            if spec_found(next) == Some(t) && spec_found(best) != Some(t) {
                assert(metas[0] == m);
            }
        }
    }
}

/// A search stops at the first searched entry that lists the needle among its `@ids`, whatever
/// the fuzzy scores of the entries before it.
pub proof fn lemma_first_exact_id_wins(metas: Seq<IdMeta>, needle: Seq<char>, filter: Option<PoolId>, i: int)
    requires
        first_exact(metas, needle, filter, i),
    ensures
        spec_find(metas, needle, filter) == BestMatch::ExactMatch(metas[i].target),
{
    lemma_match_from_first_exact(metas, needle, filter, BestMatch::NoMatch, i);
}

/// A search finds nothing in an empty table, and whatever it finds stands for an entry that it
/// searched: one inside the pool filter. Without an exact `@id` it finds no exact match.
pub proof fn lemma_found_was_registered(metas: Seq<IdMeta>, needle: Seq<char>, filter: Option<PoolId>)
    ensures
        metas.len() == 0 ==> spec_find(metas, needle, filter) == BestMatch::NoMatch,
        spec_found(spec_find(metas, needle, filter)) matches Some(t) ==> searched_target(metas, filter, t),
        !has_exact(metas, needle, filter) ==> !spec_find(metas, needle, filter).is_exact(),
{
    lemma_match_from_found(metas, needle, filter, BestMatch::NoMatch);
    if !has_exact(metas, needle, filter) {
        lemma_match_from_no_exact(metas, needle, filter, BestMatch::NoMatch);
    }
}

/// A pool found by `find_pool_or_nondata_id` is the first pool listing the needle as an `@id`
/// when there is one (nodes are then not searched); otherwise, a node listing it as an `@id`
/// wins over fuzzy matches. Whatever is found is a registered pool or node that is not a data
/// element, never a lane or a data node.
pub proof fn lemma_pool_or_nondata_search(m: IdMatcher, needle: Seq<char>)
    ensures
        forall|i: int| first_exact(m.pools@, needle, None, i) ==>
            spec_found(either(spec_find(m.pools@, needle, None), spec_find(m.nondata_nodes@, needle, None)))
                == Some(#[trigger] m.pools@[i].target),
        forall|i: int| !has_exact(m.pools@, needle, None) && first_exact(m.nondata_nodes@, needle, None, i) ==>
            spec_found(either(spec_find(m.pools@, needle, None), spec_find(m.nondata_nodes@, needle, None)))
                == Some(#[trigger] m.nondata_nodes@[i].target),
        spec_found(either(spec_find(m.pools@, needle, None), spec_find(m.nondata_nodes@, needle, None))) matches Some(t)
            ==> searched_target(m.pools@, None, t) || searched_target(m.nondata_nodes@, None, t),
{
    lemma_found_was_registered(m.pools@, needle, None);
    lemma_found_was_registered(m.nondata_nodes@, needle, None);
    assert forall|i: int| first_exact(m.pools@, needle, None, i) implies
        spec_found(either(spec_find(m.pools@, needle, None), spec_find(m.nondata_nodes@, needle, None)))
            == Some(#[trigger] m.pools@[i].target) by {
        lemma_first_exact_id_wins(m.pools@, needle, None, i);
    }
    assert forall|i: int| !has_exact(m.pools@, needle, None) && first_exact(m.nondata_nodes@, needle, None, i) implies
        spec_found(either(spec_find(m.pools@, needle, None), spec_find(m.nondata_nodes@, needle, None)))
            == Some(#[trigger] m.nondata_nodes@[i].target) by {
        lemma_first_exact_id_wins(m.nondata_nodes@, needle, None, i);
    }
}

/// `find_any_node_id`: a node that is not a data element and lists the needle as an `@id` wins
/// first; else a data node that does; whatever is found is a registered node inside the pool
/// filter.
pub proof fn lemma_any_node_search(m: IdMatcher, needle: Seq<char>, pool_id: Option<PoolId>)
    ensures
        forall|i: int| first_exact(m.nondata_nodes@, needle, pool_id, i) ==>
            spec_found(either(spec_find(m.nondata_nodes@, needle, pool_id), spec_find(m.data_nodes@, needle, pool_id)))
                == Some(#[trigger] m.nondata_nodes@[i].target),
        forall|i: int| !has_exact(m.nondata_nodes@, needle, pool_id) && first_exact(m.data_nodes@, needle, pool_id, i) ==>
            spec_found(either(spec_find(m.nondata_nodes@, needle, pool_id), spec_find(m.data_nodes@, needle, pool_id)))
                == Some(#[trigger] m.data_nodes@[i].target),
        spec_found(either(spec_find(m.nondata_nodes@, needle, pool_id), spec_find(m.data_nodes@, needle, pool_id))) matches Some(t)
            ==> searched_target(m.nondata_nodes@, pool_id, t) || searched_target(m.data_nodes@, pool_id, t),
{
    lemma_found_was_registered(m.nondata_nodes@, needle, pool_id);
    lemma_found_was_registered(m.data_nodes@, needle, pool_id);
    assert forall|i: int| first_exact(m.nondata_nodes@, needle, pool_id, i) implies
        spec_found(either(spec_find(m.nondata_nodes@, needle, pool_id), spec_find(m.data_nodes@, needle, pool_id)))
            == Some(#[trigger] m.nondata_nodes@[i].target) by {
        lemma_first_exact_id_wins(m.nondata_nodes@, needle, pool_id, i);
    }
    assert forall|i: int| !has_exact(m.nondata_nodes@, needle, pool_id) && first_exact(m.data_nodes@, needle, pool_id, i) implies
        spec_found(either(spec_find(m.nondata_nodes@, needle, pool_id), spec_find(m.data_nodes@, needle, pool_id)))
            == Some(#[trigger] m.data_nodes@[i].target) by {
        lemma_first_exact_id_wins(m.data_nodes@, needle, pool_id, i);
    }
}

/// A lane registered with `needle` among its `@ids`, where no lane registered before lists it,
/// is what `find_lane_id` then gives; registering a lane leaves the pool and node tables, and so
/// every pool and node search, as they were.
pub proof fn lemma_registered_lane_is_found(before: IdMatcher, after: IdMatcher, pool_id: PoolId, lane_id: LaneId, needle: Seq<char>)
    requires
        after.lanes@.len() == before.lanes@.len() + 1,
        after.lanes@.drop_last() == before.lanes@,
        after.lanes@.last().target == SomeId::LaneId(pool_id, lane_id),
        strs(after.lanes@.last().ids@).contains(needle),
        !has_exact(before.lanes@, needle, None),
        after.pools == before.pools,
        after.data_nodes == before.data_nodes,
        after.nondata_nodes == before.nondata_nodes,
    ensures
        lane_of(spec_find(after.lanes@, needle, None)) == Some((pool_id, lane_id)),
        forall|x: Seq<char>| #[trigger] spec_find(after.pools@, x, None) == spec_find(before.pools@, x, None),
        forall|x: Seq<char>, f: Option<PoolId>| #[trigger] spec_find(after.nondata_nodes@, x, f) == spec_find(before.nondata_nodes@, x, f)
            && spec_find(after.data_nodes@, x, f) == spec_find(before.data_nodes@, x, f),
{
    let n = before.lanes@.len() as int;
    assert forall|j: int| 0 <= j < n implies !#[trigger] exact_at(after.lanes@, needle, None, j) by {
        assert(after.lanes@[j] == before.lanes@[j]);
        if exact_at(after.lanes@, needle, None, j) {
            assert(exact_at(before.lanes@, needle, None, j));
        }
    }
    lemma_first_exact_id_wins(after.lanes@, needle, None, n);
}

} // verus!
