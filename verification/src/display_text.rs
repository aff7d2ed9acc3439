//! Placement of node and edge labels: every node kind and every routed edge offers a fixed list
//! of candidate positions, tried in order; the first one with the lowest collision score in the
//! grid wins, and a score of zero ends the search early.
use vstd::prelude::*;
use crate::collision_grid::{spec_box, spec_box_indices, Grid};
use crate::graph::Edge;
use crate::ids::{EdgeId, RelativePort};

verus! {

#[derive(Debug, Clone, Copy, PartialEq, Eq, Structural)]
pub enum Alignment {
    Left,
    Center,
    Right,
}

/// Where a label's box is placed: its top left corner and how the text is aligned in it.
#[derive(Debug, Clone, Copy, PartialEq, Eq, Structural)]
pub struct DisplayTextLocation {
    pub alignment: Alignment,
    pub x: usize,
    pub y: usize,
}

/// Which point of the label's box a candidate position names.
#[derive(Debug, Clone, Copy, PartialEq, Eq, Structural)]
pub enum ReferencePoint {
    Center,
    LeftTop,
    RightTop,
    LeftBottom,
    RightBottom,
    CenterTop,
    CenterBottom,
    RightCenter,
    LeftCenter,
}

/// A candidate position: `(x, y)` is where the reference point of the label's box goes.
#[derive(Debug, Clone, Copy, PartialEq, Eq, Structural)]
pub struct DisplayTextLocationCandidateInner {
    pub alignment: Alignment,
    pub reference_point: ReferencePoint,
    pub x: usize,
    pub y: usize,
}

/// The box of a node.
#[derive(Debug, Clone, Copy, PartialEq, Eq, Structural)]
pub struct Dimension {
    pub x: usize,
    pub y: usize,
    pub width: usize,
    pub height: usize,
}

#[derive(Debug, Clone, Copy, PartialEq, Eq, Structural)]
pub enum Side {
    Top,
    Right,
    Bottom,
    Left,
}

/// The distances that label placement works with. Step sizes and collapse distances are positive.
#[derive(Debug, Clone, Copy, PartialEq, Eq, Structural)]
pub struct DisplayTextConfig {
    /// Distance between a label and the node or edge it belongs to.
    pub margin: u32,
    pub edge_x_step_size: u32,
    pub edge_y_step_size: u32,
    pub edge_x_margin_to_ends: u32,
    pub edge_y_margin_to_ends: u32,
    pub edge_x_min_distance_to_center_or_else_collapse_into_center: u32,
    pub edge_y_min_distance_to_center_or_else_collapse_into_center: u32,
}

/// The top left corner of a box of size `wh` whose reference point is at the candidate's
/// position (clamped at zero).
pub open spec fn spec_materialize(c: DisplayTextLocationCandidateInner, wh: (usize, usize)) -> DisplayTextLocation {
    let (width, height) = wh;
    let x = match c.reference_point {
        ReferencePoint::Center | ReferencePoint::CenterTop | ReferencePoint::CenterBottom => c.x.saturating_sub(width / 2),
        ReferencePoint::LeftTop | ReferencePoint::LeftCenter | ReferencePoint::LeftBottom => c.x,
        ReferencePoint::RightTop | ReferencePoint::RightCenter | ReferencePoint::RightBottom => c.x.saturating_sub(width),
    };
    let y = match c.reference_point {
        ReferencePoint::LeftTop | ReferencePoint::CenterTop | ReferencePoint::RightTop => c.y,
        ReferencePoint::LeftCenter | ReferencePoint::Center | ReferencePoint::RightCenter => c.y.saturating_sub(height / 2),
        ReferencePoint::LeftBottom | ReferencePoint::CenterBottom | ReferencePoint::RightBottom => c.y.saturating_sub(height),
    };
    DisplayTextLocation { alignment: c.alignment, x, y }
}

impl DisplayTextLocationCandidateInner {
    pub fn materialize(&self, wh: (usize, usize)) -> (r: DisplayTextLocation)
        ensures
            r == spec_materialize(*self, wh),
    {
        let (width, height) = wh;
        let x = match self.reference_point {
            ReferencePoint::Center | ReferencePoint::CenterTop | ReferencePoint::CenterBottom => self.x.saturating_sub(width / 2),
            ReferencePoint::LeftTop | ReferencePoint::LeftCenter | ReferencePoint::LeftBottom => self.x,
            ReferencePoint::RightTop | ReferencePoint::RightCenter | ReferencePoint::RightBottom => self.x.saturating_sub(width),
        };
        let y = match self.reference_point {
            ReferencePoint::LeftTop | ReferencePoint::CenterTop | ReferencePoint::RightTop => self.y,
            ReferencePoint::LeftCenter | ReferencePoint::Center | ReferencePoint::RightCenter => self.y.saturating_sub(height / 2),
            ReferencePoint::LeftBottom | ReferencePoint::CenterBottom | ReferencePoint::RightBottom => self.y.saturating_sub(height),
        };
        DisplayTextLocation { alignment: self.alignment, x, y }
    }
}

/// The grid's collision score of a label box at `loc`.
pub open spec fn score_of(grid: Grid, loc: DisplayTextLocation, wh: (usize, usize)) -> int {
    grid.spec_box_weight((loc.x, loc.y), wh)
}

/// The grid can score a label box at `loc` (its cells exist, and the sum fits a `u32`).
pub open spec fn scorable(grid: Grid, loc: DisplayTextLocation, wh: (usize, usize)) -> bool {
    grid.box_query_ok((loc.x, loc.y), wh)
}

/// The best so far after trying candidate `c`: it replaces `cur` only if it scores strictly less.
pub open spec fn try_candidate(grid: Grid, wh: (usize, usize), cur: (DisplayTextLocation, u32), c: DisplayTextLocationCandidateInner) -> (DisplayTextLocation, u32) {
    let loc = spec_materialize(c, wh);
    let s = score_of(grid, loc, wh);
    if s < cur.1 { (loc, s as u32) } else { cur }
}

/// Tries the candidates in order, starting from the best-so-far `cur`, and stops as soon as the
/// best score is zero. `None` where a tried candidate cannot be scored.
pub open spec fn scan(grid: Grid, wh: (usize, usize), cur: (DisplayTextLocation, u32), cands: Seq<DisplayTextLocationCandidateInner>) -> Option<(DisplayTextLocation, u32)>
    decreases cands.len(),
{
    if cands.len() == 0 {
        Some(cur)
    } else if !scorable(grid, spec_materialize(cands[0], wh), wh) {
        None
    } else {
        let next = try_candidate(grid, wh, cur, cands[0]);
        if next.1 == 0 {
            Some(next)
        } else {
            scan(grid, wh, next, cands.drop_first())
        }
    }
}

/// Scanning a concatenation is scanning the first part, then (unless it ended at score zero) the
/// second part from there.
pub proof fn lemma_scan_append(grid: Grid, wh: (usize, usize), cur: (DisplayTextLocation, u32), a: Seq<DisplayTextLocationCandidateInner>, b: Seq<DisplayTextLocationCandidateInner>)
    requires
        cur.1 != 0,
    ensures
        scan(grid, wh, cur, a + b) == (match scan(grid, wh, cur, a) {
            None => None,
            Some(r) => if r.1 == 0 { Some(r) } else { scan(grid, wh, r, b) },
        }),
    decreases a.len(),
{
    if a.len() == 0 {
        assert(a + b =~= b);
    } else {
        assert((a + b).drop_first() =~= a.drop_first() + b);
        assert((a + b)[0] == a[0]);
        if scorable(grid, spec_materialize(a[0], wh), wh) {
            let next = try_candidate(grid, wh, cur, a[0]);
            if next.1 != 0 {
                lemma_scan_append(grid, wh, next, a.drop_first(), b);
            }
        }
    }
}

/// A search never ends with a higher score than it started with.
pub proof fn lemma_scan_never_raises(grid: Grid, wh: (usize, usize), cur: (DisplayTextLocation, u32), cands: Seq<DisplayTextLocationCandidateInner>)
    ensures
        scan(grid, wh, cur, cands) matches Some(r) ==> r.1 <= cur.1,
    decreases cands.len(),
{
    if cands.len() > 0 && scorable(grid, spec_materialize(cands[0], wh), wh) {
        let loc = spec_materialize(cands[0], wh);
        let idxs = spec_box_indices(spec_box((loc.x, loc.y), wh), grid.num_cells_vertically);
        crate::collision_grid::lemma_cells_weight_prefix(grid.cells@, idxs, spec_box((loc.x, loc.y), wh), 0);
        let next = try_candidate(grid, wh, cur, cands[0]);
        if next.1 != 0 {
            lemma_scan_never_raises(grid, wh, next, cands.drop_first());
        }
    }
}

/// The label box at the winning position scores no more than the starting position nor than any
/// candidate, and it is the starting position or one of the candidates.
pub proof fn lemma_scan_finds_minimum(grid: Grid, wh: (usize, usize), cur: (DisplayTextLocation, u32), cands: Seq<DisplayTextLocationCandidateInner>)
    requires
        scan(grid, wh, cur, cands) is Some,
        forall|i: int| 0 <= i < cands.len() ==> score_of(grid, spec_materialize(#[trigger] cands[i], wh), wh) >= 0,
    ensures
        ({
            let r = scan(grid, wh, cur, cands)->0;
            &&& r.1 <= cur.1
            &&& forall|i: int| 0 <= i < cands.len() ==> r.1 <= score_of(grid, spec_materialize(#[trigger] cands[i], wh), wh)
            &&& (r == cur || exists|i: int| 0 <= i < cands.len() && r.0 == spec_materialize(#[trigger] cands[i], wh)
                && r.1 == score_of(grid, r.0, wh))
        }),
    decreases cands.len(),
{
    if cands.len() > 0 {
        let next = try_candidate(grid, wh, cur, cands[0]);
        if next.1 != 0 {
            let rest = cands.drop_first();
            assert forall|i: int| 0 <= i < rest.len() implies score_of(grid, spec_materialize(#[trigger] rest[i], wh), wh) >= 0 by {
                assert(rest[i] == cands[i + 1]);
            }
            lemma_scan_finds_minimum(grid, wh, next, rest);
            let r = scan(grid, wh, next, rest)->0;
            assert forall|i: int| 0 <= i < cands.len() implies r.1 <= score_of(grid, spec_materialize(#[trigger] cands[i], wh), wh) by {
                if i > 0 {
                    assert(cands[i] == rest[i - 1]);
                }
            }
            if r != next {
                let j = choose|j: int| 0 <= j < rest.len() && r.0 == spec_materialize(#[trigger] rest[j], wh)
                    && r.1 == score_of(grid, r.0, wh);
                assert(cands[j + 1] == rest[j]);
            } else if next != cur {
                assert(r.0 == spec_materialize(cands[0], wh));
            }
        } else if next != cur {
            assert(next.0 == spec_materialize(cands[0], wh));
        }
    }
}

/// The best position found so far, its score, and the size of the label being placed.
pub struct CandidateTracker {
    pub score: u32,
    pub candidate: DisplayTextLocation,
    pub textbox_wh: (usize, usize),
}

impl CandidateTracker {
    /// Scores `candidate` and keeps it if it beats the best so far; answers whether the best
    /// score is now zero, in which case the search is over.
    pub fn call_and_maybe_update(&mut self, grid: &Grid, candidate: &DisplayTextLocationCandidateInner) -> (done: bool)
        requires
            scorable(*grid, spec_materialize(*candidate, old(self).textbox_wh), old(self).textbox_wh),
        ensures
            (final(self).candidate, final(self).score) == try_candidate(*grid, old(self).textbox_wh,
                (old(self).candidate, old(self).score), *candidate),
            final(self).textbox_wh == old(self).textbox_wh,
            done == (final(self).score == 0),
    {
        let loc = candidate.materialize(self.textbox_wh);
        let score = grid.box_intersection_weight((loc.x, loc.y), self.textbox_wh);
        if score < self.score {
            self.score = score;
            self.candidate = loc;
        }
        self.score == 0
    }

    /// Tries `candidates` in order and stops early at score zero.
    pub fn try_all(&mut self, grid: &Grid, candidates: &Vec<DisplayTextLocationCandidateInner>) -> (done: bool)
        requires
            old(self).score != 0,
            scan(*grid, old(self).textbox_wh, (old(self).candidate, old(self).score), candidates@) is Some,
        ensures
            final(self).textbox_wh == old(self).textbox_wh,
            Some((final(self).candidate, final(self).score)) == scan(*grid, old(self).textbox_wh,
                (old(self).candidate, old(self).score), candidates@),
            done == (final(self).score == 0),
    {
        let ghost wh = self.textbox_wh;
        let ghost start = (self.candidate, self.score);
        assert(candidates@.skip(0) =~= candidates@);
        let mut i: usize = 0;
        while i < candidates.len()
            invariant
                0 <= i <= candidates@.len(),
                self.textbox_wh == wh,
                wh == old(self).textbox_wh,
                start == (old(self).candidate, old(self).score),
                self.score != 0,
                scan(*grid, wh, start, candidates@) is Some,
                scan(*grid, wh, start, candidates@) == scan(*grid, wh, (self.candidate, self.score), candidates@.skip(i as int)),
            decreases candidates@.len() - i,
        {
            let ghost rest = candidates@.skip(i as int);
            assert(rest[0] == candidates@[i as int]);
            assert(rest.drop_first() =~= candidates@.skip(i + 1));
            if self.call_and_maybe_update(grid, &candidates[i]) {
                return true;
            }
            i = i + 1;
        }
        assert(candidates@.skip(i as int) =~= Seq::<DisplayTextLocationCandidateInner>::empty());
        false
    }
}

/// The tracker a search starts with: the position `start` with the worst possible score.
pub open spec fn initial(start: DisplayTextLocationCandidateInner, wh: (usize, usize)) -> (DisplayTextLocation, u32) {
    (spec_materialize(start, wh), u32::MAX)
}

/// Where the search over `cands` from `start` ends, if every candidate it tries can be scored.
pub open spec fn best_location(grid: Grid, wh: (usize, usize), start: DisplayTextLocationCandidateInner, cands: Seq<DisplayTextLocationCandidateInner>) -> Option<DisplayTextLocation> {
    match scan(grid, wh, initial(start, wh), cands) {
        Some(r) => Some(r.0),
        None => None,
    }
}

/// Runs the search over `candidates` from `start` and returns the winning position.
pub fn search(grid: &Grid, wh: (usize, usize), start: DisplayTextLocationCandidateInner, candidates: &Vec<DisplayTextLocationCandidateInner>) -> (r: DisplayTextLocation)
    requires
        best_location(*grid, wh, start, candidates@) is Some,
    ensures
        Some(r) == best_location(*grid, wh, start, candidates@),
{
    let mut tracker = CandidateTracker { score: u32::MAX, candidate: start.materialize(wh), textbox_wh: wh };
    tracker.try_all(grid, candidates);
    tracker.candidate
}

/// Runs the search over `candidates` from `start`, or gives `None` where a candidate that it
/// reaches cannot be scored.
pub fn try_search(grid: &Grid, wh: (usize, usize), start: DisplayTextLocationCandidateInner, candidates: &Vec<DisplayTextLocationCandidateInner>) -> (r: Option<DisplayTextLocation>)
    ensures
        r == best_location(*grid, wh, start, candidates@),
{
    let mut tracker = CandidateTracker { score: u32::MAX, candidate: start.materialize(wh), textbox_wh: wh };
    let ghost init = initial(start, wh);
    assert(candidates@.skip(0) =~= candidates@);
    let mut i: usize = 0;
    while i < candidates.len()
        invariant
            0 <= i <= candidates@.len(),
            tracker.textbox_wh == wh,
            tracker.score != 0,
            init == initial(start, wh),
            scan(*grid, wh, init, candidates@) == scan(*grid, wh, (tracker.candidate, tracker.score), candidates@.skip(i as int)),
        decreases candidates@.len() - i,
    {
        let ghost rest = candidates@.skip(i as int);
        assert(rest[0] == candidates@[i as int]);
        assert(rest.drop_first() =~= candidates@.skip(i + 1));
        let loc = candidates[i].materialize(wh);
        if !grid.box_query_check((loc.x, loc.y), wh) {
            return None;
        }
        if tracker.call_and_maybe_update(grid, &candidates[i]) {
            return Some(tracker.candidate);
        }
        i = i + 1;
    }
    assert(candidates@.skip(i as int) =~= Seq::<DisplayTextLocationCandidateInner>::empty());
    Some(tracker.candidate)
}

/// `r` is the integer square root of `n`.
pub open spec fn is_isqrt(n: int, r: int) -> bool {
    0 <= r && r * r <= n && n < (r + 1) * (r + 1)
}

pub open spec fn spec_isqrt(n: int) -> int {
    choose|r: int| is_isqrt(n, r)
}

proof fn lemma_isqrt_unique(n: int, a: int, b: int)
    requires
        is_isqrt(n, a),
        is_isqrt(n, b),
    ensures
        a == b,
{
    if a < b {
        assert((a + 1) * (a + 1) <= b * b) by (nonlinear_arith)
            requires 0 <= a, a + 1 <= b;
    } else if b < a {
        assert((b + 1) * (b + 1) <= a * a) by (nonlinear_arith)
            requires 0 <= b, b + 1 <= a;
    }
}

/// The integer square root: the largest `r` with `r * r <= n`, by bisection.
fn isqrt(n: usize) -> (r: usize)
    ensures
        is_isqrt(n as int, r as int),
{
    let m = n as u64;
    let mut lo: u64 = 0;
    let mut hi: u64 = 0x1_0000_0000;
    assert(m < hi * hi) by (nonlinear_arith)
        requires
            hi == 0x1_0000_0000,
            m <= 0xffff_ffff_ffff_ffff,
    ;
    while hi - lo > 1
        invariant
            lo < hi <= 0x1_0000_0000,
            m == n,
            lo * lo <= m,
            m < hi * hi,
        decreases hi - lo,
    {
        let mid = lo + (hi - lo) / 2;
        assert(mid * mid < 0x1_0000_0000_0000_0000) by (nonlinear_arith)
            requires
                mid < 0x1_0000_0000,
        ;
        if mid * mid <= m {
            lo = mid;
        } else {
            hi = mid;
        }
    }
    assert(lo <= m) by (nonlinear_arith)
        requires
            lo * lo <= m,
    ;
    lo as usize
}

/// How far a label in a corner position is pulled in along each axis: `margin / sqrt(2)`,
/// rounded down.
pub open spec fn fract_margin(margin: u32) -> int {
    spec_isqrt((margin as int * margin as int) / 2)
}

pub open spec fn center_candidate(dim: Dimension) -> DisplayTextLocationCandidateInner {
    DisplayTextLocationCandidateInner {
        alignment: Alignment::Center,
        reference_point: ReferencePoint::Center,
        x: dim.x.saturating_add(dim.width / 2),
        y: dim.y.saturating_add(dim.height / 2),
    }
}

/// The eight positions around a node, in the order top left, top, top right, right, bottom right,
/// bottom, bottom left, left. `m` is the margin, `fm` the corner margin, and the corner positions
/// sit `ox` and `oy` in from the box's corners.
pub open spec fn ring_positions(m: usize, fm: usize, dim: Dimension, ox: usize, oy: usize) -> Seq<DisplayTextLocationCandidateInner> {
    let (x, y, w, h) = (dim.x, dim.y, dim.width, dim.height);
    seq![
        DisplayTextLocationCandidateInner { alignment: Alignment::Right, reference_point: ReferencePoint::RightBottom,
            x: x.saturating_add(ox).saturating_sub(fm), y: y.saturating_add(oy).saturating_sub(fm) },
        DisplayTextLocationCandidateInner { alignment: Alignment::Center, reference_point: ReferencePoint::CenterBottom,
            x: x.saturating_add(w / 2), y: y.saturating_sub(m) },
        DisplayTextLocationCandidateInner { alignment: Alignment::Left, reference_point: ReferencePoint::LeftBottom,
            x: x.saturating_add(w).saturating_sub(ox).saturating_add(fm), y: y.saturating_add(oy).saturating_sub(fm) },
        DisplayTextLocationCandidateInner { alignment: Alignment::Left, reference_point: ReferencePoint::LeftCenter,
            x: x.saturating_add(w).saturating_add(m), y: y.saturating_add(h / 2) },
        DisplayTextLocationCandidateInner { alignment: Alignment::Left, reference_point: ReferencePoint::LeftTop,
            x: x.saturating_add(w).saturating_sub(ox).saturating_add(fm), y: y.saturating_add(h).saturating_sub(oy).saturating_add(fm) },
        DisplayTextLocationCandidateInner { alignment: Alignment::Center, reference_point: ReferencePoint::CenterTop,
            x: x.saturating_add(w / 2), y: y.saturating_add(h).saturating_add(m) },
        DisplayTextLocationCandidateInner { alignment: Alignment::Right, reference_point: ReferencePoint::RightTop,
            x: x.saturating_add(ox).saturating_sub(fm), y: y.saturating_add(h).saturating_sub(oy).saturating_add(fm) },
        DisplayTextLocationCandidateInner { alignment: Alignment::Right, reference_point: ReferencePoint::RightCenter,
            x: x.saturating_sub(m), y: y.saturating_add(h / 2) },
    ]
}

/// The order in which a gateway tries the ring positions: first the corner on the incoming side
/// and the opposite side, the incoming side itself last.
pub open spec fn gateway_order(side: Side) -> Seq<int> {
    match side {
        Side::Left => seq![0int, 3, 6, 1, 5, 2, 4, 7],
        Side::Right => seq![2int, 7, 4, 1, 5, 0, 6, 3],
        Side::Top => seq![0int, 5, 2, 7, 3, 6, 4, 1],
        Side::Bottom => seq![6int, 1, 4, 7, 3, 0, 2, 5],
    }
}

/// The order in which an event or a data node tries the ring positions: below first (above for an
/// incoming flow from below), the incoming side itself last.
pub open spec fn event_or_data_order(side: Side) -> Seq<int> {
    match side {
        Side::Left => seq![5int, 1, 3, 0, 6, 2, 4, 7],
        Side::Right => seq![5int, 1, 7, 2, 4, 0, 6, 3],
        Side::Top => seq![5int, 7, 3, 0, 2, 6, 4, 1],
        Side::Bottom => seq![1int, 7, 3, 6, 4, 0, 2, 5],
    }
}

pub open spec fn ordered(ring: Seq<DisplayTextLocationCandidateInner>, order: Seq<int>) -> Seq<DisplayTextLocationCandidateInner> {
    Seq::new(8, |i: int| ring[order[i]])
}

pub open spec fn spec_gateway_candidates(config: DisplayTextConfig, dim: Dimension, side: Side) -> Seq<DisplayTextLocationCandidateInner> {
    ordered(ring_positions(config.margin as usize, fract_margin(config.margin) as usize, dim, dim.width / 4, dim.height / 4), gateway_order(side))
}

pub open spec fn spec_event_or_data_candidates(config: DisplayTextConfig, corner_offset: usize, dim: Dimension, side: Side) -> Seq<DisplayTextLocationCandidateInner> {
    ordered(ring_positions(config.margin as usize, fract_margin(config.margin) as usize, dim, corner_offset / 4, corner_offset / 4), event_or_data_order(side))
}

/// The ring positions, computed.
fn ring(m: usize, fm: usize, dim: Dimension, ox: usize, oy: usize) -> (r: [DisplayTextLocationCandidateInner; 8])
    ensures
        r@ == ring_positions(m, fm, dim, ox, oy),
{
    let (x, y, w, h) = (dim.x, dim.y, dim.width, dim.height);
    let r = [
        DisplayTextLocationCandidateInner { alignment: Alignment::Right, reference_point: ReferencePoint::RightBottom,
            x: x.saturating_add(ox).saturating_sub(fm), y: y.saturating_add(oy).saturating_sub(fm) },
        DisplayTextLocationCandidateInner { alignment: Alignment::Center, reference_point: ReferencePoint::CenterBottom,
            x: x.saturating_add(w / 2), y: y.saturating_sub(m) },
        DisplayTextLocationCandidateInner { alignment: Alignment::Left, reference_point: ReferencePoint::LeftBottom,
            x: x.saturating_add(w).saturating_sub(ox).saturating_add(fm), y: y.saturating_add(oy).saturating_sub(fm) },
        DisplayTextLocationCandidateInner { alignment: Alignment::Left, reference_point: ReferencePoint::LeftCenter,
            x: x.saturating_add(w).saturating_add(m), y: y.saturating_add(h / 2) },
        DisplayTextLocationCandidateInner { alignment: Alignment::Left, reference_point: ReferencePoint::LeftTop,
            x: x.saturating_add(w).saturating_sub(ox).saturating_add(fm), y: y.saturating_add(h).saturating_sub(oy).saturating_add(fm) },
        DisplayTextLocationCandidateInner { alignment: Alignment::Center, reference_point: ReferencePoint::CenterTop,
            x: x.saturating_add(w / 2), y: y.saturating_add(h).saturating_add(m) },
        DisplayTextLocationCandidateInner { alignment: Alignment::Right, reference_point: ReferencePoint::RightTop,
            x: x.saturating_add(ox).saturating_sub(fm), y: y.saturating_add(h).saturating_sub(oy).saturating_add(fm) },
        DisplayTextLocationCandidateInner { alignment: Alignment::Right, reference_point: ReferencePoint::RightCenter,
            x: x.saturating_sub(m), y: y.saturating_add(h / 2) },
    ];
    assert(r@ =~= ring_positions(m, fm, dim, ox, oy));
    r
}

/// The ring positions in the given order.
fn pick(p: &[DisplayTextLocationCandidateInner; 8], a: usize, b: usize, c: usize, d: usize, e: usize, f: usize, g: usize, h: usize) -> (r: Vec<DisplayTextLocationCandidateInner>)
    requires
        a < 8 && b < 8 && c < 8 && d < 8 && e < 8 && f < 8 && g < 8 && h < 8,
    ensures
        r@ == ordered(p@, seq![a as int, b as int, c as int, d as int, e as int, f as int, g as int, h as int]),
{
    let r = vec![p[a], p[b], p[c], p[d], p[e], p[f], p[g], p[h]];
    assert(r@ =~= ordered(p@, seq![a as int, b as int, c as int, d as int, e as int, f as int, g as int, h as int]));
    r
}

fn margins(config: &DisplayTextConfig) -> (r: (usize, usize))
    requires
        config.margin as int * config.margin as int <= usize::MAX,
    ensures
        r.0 == config.margin,
        r.1 == fract_margin(config.margin),
{
    let full_margin = config.margin as usize;
    let fm = isqrt((full_margin * full_margin) / 2);
    proof {
        lemma_isqrt_unique((full_margin * full_margin) as int / 2, fm as int, spec_isqrt((full_margin * full_margin) as int / 2));
    }
    (full_margin, fm)
}

/// The label position of a gateway with box `dim` whose first incoming sequence flow arrives
/// from `incoming_from`.
pub fn gateway_display_text_location_candidates(config: &DisplayTextConfig, textbox_wh: (usize, usize), dim: Dimension,
    incoming_from: Side, grid: &Grid) -> (r: DisplayTextLocation)
    requires
        config.margin as int * config.margin as int <= usize::MAX,
        best_location(*grid, textbox_wh, center_candidate(dim), spec_gateway_candidates(*config, dim, incoming_from)) is Some,
    ensures
        Some(r) == best_location(*grid, textbox_wh, center_candidate(dim), spec_gateway_candidates(*config, dim, incoming_from)),
{
    let (start, candidates) = gateway_candidates(config, dim, incoming_from);
    search(grid, textbox_wh, start, &candidates)
}

/// The label position of a gateway, or `None` where a candidate that the search reaches cannot
/// be scored on the grid (see `scorable`).
pub fn try_gateway_display_text_location_candidates(config: &DisplayTextConfig, textbox_wh: (usize, usize), dim: Dimension,
    incoming_from: Side, grid: &Grid) -> (r: Option<DisplayTextLocation>)
    requires
        config.margin as int * config.margin as int <= usize::MAX,
    ensures
        r == best_location(*grid, textbox_wh, center_candidate(dim), spec_gateway_candidates(*config, dim, incoming_from)),
{
    let (start, candidates) = gateway_candidates(config, dim, incoming_from);
    try_search(grid, textbox_wh, start, &candidates)
}

fn gateway_candidates(config: &DisplayTextConfig, dim: Dimension, incoming_from: Side)
    -> (r: (DisplayTextLocationCandidateInner, Vec<DisplayTextLocationCandidateInner>))
    requires
        config.margin as int * config.margin as int <= usize::MAX,
    ensures
        r.0 == center_candidate(dim),
        r.1@ == spec_gateway_candidates(*config, dim, incoming_from),
{
    let (m, fm) = margins(config);
    let p = ring(m, fm, dim, dim.width / 4, dim.height / 4);
    let candidates = match incoming_from {
        Side::Left => pick(&p, 0, 3, 6, 1, 5, 2, 4, 7),
        Side::Right => pick(&p, 2, 7, 4, 1, 5, 0, 6, 3),
        Side::Top => pick(&p, 0, 5, 2, 7, 3, 6, 4, 1),
        Side::Bottom => pick(&p, 6, 1, 4, 7, 3, 0, 2, 5),
    };
    let start = DisplayTextLocationCandidateInner {
        alignment: Alignment::Center,
        reference_point: ReferencePoint::Center,
        x: dim.x.saturating_add(dim.width / 2),
        y: dim.y.saturating_add(dim.height / 2),
    };
    (start, candidates)
}

/// The label position of an event or data node whose corner positions sit `corner_offset / 4`
/// in from the box's corners.
pub fn event_or_data_display_text_location_candidates(config: &DisplayTextConfig, corner_offset: usize,
    textbox_wh: (usize, usize), dim: Dimension, incoming_from: Side, grid: &Grid) -> (r: DisplayTextLocation)
    requires
        config.margin as int * config.margin as int <= usize::MAX,
        best_location(*grid, textbox_wh, center_candidate(dim), spec_event_or_data_candidates(*config, corner_offset, dim, incoming_from)) is Some,
    ensures
        Some(r) == best_location(*grid, textbox_wh, center_candidate(dim), spec_event_or_data_candidates(*config, corner_offset, dim, incoming_from)),
{
    let (start, candidates) = event_or_data_candidates(config, corner_offset, dim, incoming_from);
    search(grid, textbox_wh, start, &candidates)
}

/// The label position of an event or data node, or `None` where a candidate that the search
/// reaches cannot be scored on the grid (see `scorable`).
pub fn try_event_or_data_display_text_location_candidates(config: &DisplayTextConfig, corner_offset: usize,
    textbox_wh: (usize, usize), dim: Dimension, incoming_from: Side, grid: &Grid) -> (r: Option<DisplayTextLocation>)
    requires
        config.margin as int * config.margin as int <= usize::MAX,
    ensures
        r == best_location(*grid, textbox_wh, center_candidate(dim), spec_event_or_data_candidates(*config, corner_offset, dim, incoming_from)),
{
    let (start, candidates) = event_or_data_candidates(config, corner_offset, dim, incoming_from);
    try_search(grid, textbox_wh, start, &candidates)
}

fn event_or_data_candidates(config: &DisplayTextConfig, corner_offset: usize, dim: Dimension, incoming_from: Side)
    -> (r: (DisplayTextLocationCandidateInner, Vec<DisplayTextLocationCandidateInner>))
    requires
        config.margin as int * config.margin as int <= usize::MAX,
    ensures
        r.0 == center_candidate(dim),
        r.1@ == spec_event_or_data_candidates(*config, corner_offset, dim, incoming_from),
{
    let (m, fm) = margins(config);
    let p = ring(m, fm, dim, corner_offset / 4, corner_offset / 4);
    let candidates = match incoming_from {
        Side::Left => pick(&p, 5, 1, 3, 0, 6, 2, 4, 7),
        Side::Right => pick(&p, 5, 1, 7, 2, 4, 0, 6, 3),
        Side::Top => pick(&p, 5, 7, 3, 0, 2, 6, 4, 1),
        Side::Bottom => pick(&p, 1, 7, 3, 6, 4, 0, 2, 5),
    };
    let start = DisplayTextLocationCandidateInner {
        alignment: Alignment::Center,
        reference_point: ReferencePoint::Center,
        x: dim.x.saturating_add(dim.width / 2),
        y: dim.y.saturating_add(dim.height / 2),
    };
    (start, candidates)
}

/// Events are round: their corner positions sit slightly in from the box's corners.
pub fn event_display_text_location_candidates(config: &DisplayTextConfig, textbox_wh: (usize, usize), dim: Dimension,
    incoming_from: Side, grid: &Grid) -> (r: DisplayTextLocation)
    requires
        config.margin as int * config.margin as int <= usize::MAX,
        best_location(*grid, textbox_wh, center_candidate(dim), spec_event_or_data_candidates(*config, 5, dim, incoming_from)) is Some,
    ensures
        Some(r) == best_location(*grid, textbox_wh, center_candidate(dim), spec_event_or_data_candidates(*config, 5, dim, incoming_from)),
{
    event_or_data_display_text_location_candidates(config, 5, textbox_wh, dim, incoming_from, grid)
}

/// Data nodes are boxes: their corner positions are the box's corners.
pub fn data_display_text_location_candidates(config: &DisplayTextConfig, textbox_wh: (usize, usize), dim: Dimension,
    incoming_from: Side, grid: &Grid) -> (r: DisplayTextLocation)
    requires
        config.margin as int * config.margin as int <= usize::MAX,
        best_location(*grid, textbox_wh, center_candidate(dim), spec_event_or_data_candidates(*config, 0, dim, incoming_from)) is Some,
    ensures
        Some(r) == best_location(*grid, textbox_wh, center_candidate(dim), spec_event_or_data_candidates(*config, 0, dim, incoming_from)),
{
    event_or_data_display_text_location_candidates(config, 0, textbox_wh, dim, incoming_from, grid)
}

/// An activity's label is centered in its box.
pub fn activity_display_text_location_candidates(textbox_wh: (usize, usize), dim: Dimension) -> (r: DisplayTextLocation)
    ensures
        r == spec_materialize(center_candidate(dim), textbox_wh),
{
    DisplayTextLocationCandidateInner {
        alignment: Alignment::Center,
        reference_point: ReferencePoint::Center,
        x: dim.x.saturating_add(dim.width / 2),
        y: dim.y.saturating_add(dim.height / 2),
    }.materialize(textbox_wh)
}

/// Bound on the coordinates and distances along an edge segment, so that the signed arithmetic
/// of `iterate_edge_points` cannot overflow.
pub const EDGE_COORD_BOUND: u32 = 0x3fff_ffff;

/// Valid input of `iterate_edge_points`: a segment of non-zero length and positive steps.
pub open spec fn edge_points_ok(start: u32, end: u32, margin_to_start: u32, step_size: u32, collapse_to_center: u32) -> bool {
    &&& start != end
    &&& start <= EDGE_COORD_BOUND
    &&& end <= EDGE_COORD_BOUND
    &&& margin_to_start <= EDGE_COORD_BOUND
    &&& 0 < step_size <= EDGE_COORD_BOUND
    &&& 0 < collapse_to_center <= EDGE_COORD_BOUND
}

/// The midpoint of the segment, rounded towards `min(start, end)`.
pub open spec fn edge_mid(start: u32, end: u32) -> int {
    if start < end { start + (end - start) / 2 } else { end + (start - end) / 2 }
}

/// The first position tried from the start: `margin_to_start` in from it.
pub open spec fn edge_new_start(start: u32, end: u32, margin_to_start: u32) -> int {
    if start < end { start + margin_to_start } else { start - margin_to_start }
}

/// The first position tried from the end.
pub open spec fn edge_new_end(start: u32, end: u32, margin_to_start: u32) -> int {
    if start < end { end - margin_to_start } else { end + margin_to_start }
}

/// The step towards the end: positive when the segment runs towards larger coordinates.
pub open spec fn edge_step(start: u32, end: u32, step_size: u32) -> int {
    if start < end { step_size as int } else { -(step_size as int) }
}

/// The last position that is still far enough from the midpoint.
pub open spec fn edge_last(start: u32, end: u32, collapse_to_center: u32) -> int {
    let mid = edge_mid(start, end);
    if start < end {
        if mid - collapse_to_center < 0 { 0 } else { mid - collapse_to_center }
    } else {
        mid + collapse_to_center
    }
}

/// How many positions lie on each side of the midpoint.
pub open spec fn edge_steps(start: u32, end: u32, margin_to_start: u32, step_size: u32, collapse_to_center: u32) -> int {
    let ns = edge_new_start(start, end, margin_to_start);
    let last = edge_last(start, end, collapse_to_center);
    if start < end {
        if last < ns { 0 } else { (last - ns) / (step_size as int) + 1 }
    } else {
        if last > ns { 0 } else { (ns - last) / (step_size as int) + 1 }
    }
}

/// The positions along a segment: stepping in from the start, the midpoint, then the mirrored
/// steps out to the end.
pub open spec fn spec_edge_points(start: u32, end: u32, margin_to_start: u32, step_size: u32, collapse_to_center: u32) -> Seq<u32> {
    let n = edge_steps(start, end, margin_to_start, step_size, collapse_to_center);
    let ns = edge_new_start(start, end, margin_to_start);
    let ne = edge_new_end(start, end, margin_to_start);
    let st = edge_step(start, end, step_size);
    Seq::new(n as nat, |i: int| (ns + i * st) as u32)
        + seq![edge_mid(start, end) as u32]
        + Seq::new(n as nat, |i: int| (ne - (n - 1 - i) * st) as u32)
}

/// The positions along a segment from `start` to `end` at which a label is tried.
pub fn iterate_edge_points(start: u32, end: u32, margin_to_start: u32, step_size: u32, collapse_to_center: u32) -> (r: Vec<u32>)
    requires
        edge_points_ok(start, end, margin_to_start, step_size, collapse_to_center),
    ensures
        r@ == spec_edge_points(start, end, margin_to_start, step_size, collapse_to_center),
{
    let ghost n = edge_steps(start, end, margin_to_start, step_size, collapse_to_center);
    let s = start as i64;
    let e = end as i64;
    let m = margin_to_start as i64;
    let (new_start, new_end, step, mid_point, last) = if start < end {
        let mid = start + (end - start) / 2;
        let last: i64 = if (mid as i64) < collapse_to_center as i64 { 0 } else { mid as i64 - collapse_to_center as i64 };
        (s + m, e - m, step_size as i64, mid, last)
    } else {
        let mid = end + (start - end) / 2;
        (s - m, e + m, -(step_size as i64), mid, mid as i64 + collapse_to_center as i64)
    };
    let d: i64 = if start < end { last - new_start } else { new_start - last };
    let steps: i64 = if d < 0 { 0 } else { d / (step_size as i64) + 1 };
    assert(steps <= 0x8000_0000) by {
        if d >= 0 {
            assert((d as int) / (step_size as int) <= d as int) by (nonlinear_arith)
                requires d >= 0, step_size >= 1;
        }
    }
    assert(steps == n);
    let mut r: Vec<u32> = Vec::new();
    let mut i: i64 = 0;
    while i < steps
        invariant
            0 <= i <= steps <= 0x8000_0000,
            -0x8000_0000 <= new_start <= 0x8000_0000,
            -0x4000_0000 <= step <= 0x4000_0000,
            r@.len() == i,
            forall|k: int| 0 <= k < i ==> r@[k] == (new_start + k * step) as u32,
        decreases steps - i,
    {
        assert(-0x8000_0000 * 0x4000_0000 <= i * step <= 0x8000_0000 * 0x4000_0000) by (nonlinear_arith)
            requires 0 <= i <= 0x8000_0000, -0x4000_0000 <= step <= 0x4000_0000;
        let v = new_start + i * step;
        r.push(v as u32);
        i = i + 1;
    }
    r.push(mid_point);
    let mut j: i64 = 0;
    while j < steps
        invariant
            0 <= j <= steps <= 0x8000_0000,
            -0x8000_0000 <= new_end <= 0x8000_0000,
            -0x4000_0000 <= step <= 0x4000_0000,
            r@.len() == steps + 1 + j,
            forall|k: int| 0 <= k < steps ==> r@[k] == (new_start + k * step) as u32,
            r@[steps as int] == mid_point,
            forall|k: int| steps + 1 <= k < steps + 1 + j ==> #[trigger] r@[k] == (new_end - (steps - 1 - (k - steps - 1)) * step) as u32,
        decreases steps - j,
    {
        let k = steps - 1 - j;
        assert(-0x8000_0000 * 0x4000_0000 <= k * step <= 0x8000_0000 * 0x4000_0000) by (nonlinear_arith)
            requires 0 <= k <= 0x8000_0000, -0x4000_0000 <= step <= 0x4000_0000;
        let v = new_end - k * step;
        r.push(v as u32);
        j = j + 1;
    }
    assert(r@ =~= spec_edge_points(start, end, margin_to_start, step_size, collapse_to_center));
    r
}

pub open spec fn cand(alignment: Alignment, reference_point: ReferencePoint, x: usize, y: usize) -> DisplayTextLocationCandidateInner {
    DisplayTextLocationCandidateInner { alignment, reference_point, x, y }
}

/// Beside a vertical segment at `x`: to the left, then to the right, at each position `ys`.
pub open spec fn vertical_pairs(x: usize, m: usize, ys: Seq<u32>) -> Seq<DisplayTextLocationCandidateInner> {
    Seq::new(2 * ys.len(), |k: int| if k % 2 == 0 {
        cand(Alignment::Right, ReferencePoint::RightCenter, x.saturating_sub(m), ys[k / 2] as usize)
    } else {
        cand(Alignment::Left, ReferencePoint::LeftCenter, x.saturating_add(m), ys[k / 2] as usize)
    })
}

/// Beside a horizontal segment at `y`: above, then below, at each position `xs`.
pub open spec fn horizontal_pairs(y: usize, m: usize, xs: Seq<u32>) -> Seq<DisplayTextLocationCandidateInner> {
    Seq::new(2 * xs.len(), |k: int| if k % 2 == 0 {
        cand(Alignment::Center, ReferencePoint::CenterBottom, xs[k / 2] as usize, y.saturating_sub(m))
    } else {
        cand(Alignment::Center, ReferencePoint::CenterTop, xs[k / 2] as usize, y.saturating_add(m))
    })
}

/// A segment that labels can be placed along: vertical or horizontal, of non-zero length, within
/// the coordinate bound.
pub open spec fn segment_ok(config: DisplayTextConfig, start: (usize, usize), end: (usize, usize)) -> bool {
    if start.0 == end.0 {
        start.1 <= EDGE_COORD_BOUND && end.1 <= EDGE_COORD_BOUND && edge_points_ok(start.1 as u32, end.1 as u32,
            config.edge_y_margin_to_ends, config.edge_y_step_size, config.edge_y_min_distance_to_center_or_else_collapse_into_center)
    } else {
        start.1 == end.1 && start.0 <= EDGE_COORD_BOUND && end.0 <= EDGE_COORD_BOUND && edge_points_ok(start.0 as u32, end.0 as u32,
            config.edge_x_margin_to_ends, config.edge_x_step_size, config.edge_x_min_distance_to_center_or_else_collapse_into_center)
    }
}

/// The candidates along one segment. A horizontal one first offers the two positions just past
/// its start, which keeps labels of neighbouring edges aligned.
#[verifier::opaque]
pub open spec fn spec_segment_candidates(config: DisplayTextConfig, start: (usize, usize), end: (usize, usize)) -> Seq<DisplayTextLocationCandidateInner> {
    let m = config.margin as usize;
    if start.0 == end.0 {
        vertical_pairs(start.0, m, spec_edge_points(start.1 as u32, end.1 as u32, config.edge_y_margin_to_ends,
            config.edge_y_step_size, config.edge_y_min_distance_to_center_or_else_collapse_into_center))
    } else {
        let rough = if start.0 < end.0 {
            seq![cand(Alignment::Center, ReferencePoint::LeftBottom, start.0.saturating_add(m), start.1.saturating_sub(m)),
                cand(Alignment::Center, ReferencePoint::LeftTop, start.0.saturating_add(m), start.1.saturating_add(m))]
        } else {
            seq![cand(Alignment::Center, ReferencePoint::RightBottom, start.0.saturating_sub(m), start.1.saturating_sub(m)),
                cand(Alignment::Center, ReferencePoint::RightTop, start.0.saturating_sub(m), start.1.saturating_add(m))]
        };
        rough + horizontal_pairs(start.1, m, spec_edge_points(start.0 as u32, end.0 as u32, config.edge_x_margin_to_ends,
            config.edge_x_step_size, config.edge_x_min_distance_to_center_or_else_collapse_into_center))
    }
}

/// The label candidates along the segment from `start` to `end`.
pub fn segment_candidates(config: &DisplayTextConfig, start: (usize, usize), end: (usize, usize))
    -> (r: Vec<DisplayTextLocationCandidateInner>)
    requires
        segment_ok(*config, start, end),
    ensures
        r@ == spec_segment_candidates(*config, start, end),
{
    reveal(spec_segment_candidates);
    let m = config.margin as usize;
    let mut r: Vec<DisplayTextLocationCandidateInner> = Vec::new();
    if start.0 == end.0 {
        let ys = iterate_edge_points(start.1 as u32, end.1 as u32, config.edge_y_margin_to_ends, config.edge_y_step_size,
            config.edge_y_min_distance_to_center_or_else_collapse_into_center);
        let mut i: usize = 0;
        while i < ys.len()
            invariant
                0 <= i <= ys@.len(),
                r@ =~= vertical_pairs(start.0, m, ys@.take(i as int)),
            decreases ys@.len() - i,
        {
            r.push(DisplayTextLocationCandidateInner { alignment: Alignment::Right, reference_point: ReferencePoint::RightCenter,
                x: start.0.saturating_sub(m), y: ys[i] as usize });
            r.push(DisplayTextLocationCandidateInner { alignment: Alignment::Left, reference_point: ReferencePoint::LeftCenter,
                x: start.0.saturating_add(m), y: ys[i] as usize });
            i = i + 1;
            assert(r@ =~= vertical_pairs(start.0, m, ys@.take(i as int)));
        }
        assert(ys@.take(i as int) =~= ys@);
    } else {
        if start.0 < end.0 {
            r.push(DisplayTextLocationCandidateInner { alignment: Alignment::Center, reference_point: ReferencePoint::LeftBottom,
                x: start.0.saturating_add(m), y: start.1.saturating_sub(m) });
            r.push(DisplayTextLocationCandidateInner { alignment: Alignment::Center, reference_point: ReferencePoint::LeftTop,
                x: start.0.saturating_add(m), y: start.1.saturating_add(m) });
        } else {
            r.push(DisplayTextLocationCandidateInner { alignment: Alignment::Center, reference_point: ReferencePoint::RightBottom,
                x: start.0.saturating_sub(m), y: start.1.saturating_sub(m) });
            r.push(DisplayTextLocationCandidateInner { alignment: Alignment::Center, reference_point: ReferencePoint::RightTop,
                x: start.0.saturating_sub(m), y: start.1.saturating_add(m) });
        }
        let ghost rough = r@;
        let xs = iterate_edge_points(start.0 as u32, end.0 as u32, config.edge_x_margin_to_ends, config.edge_x_step_size,
            config.edge_x_min_distance_to_center_or_else_collapse_into_center);
        let mut i: usize = 0;
        while i < xs.len()
            invariant
                0 <= i <= xs@.len(),
                rough.len() == 2,
                r@ =~= rough + horizontal_pairs(start.1, m, xs@.take(i as int)),
            decreases xs@.len() - i,
        {
            r.push(DisplayTextLocationCandidateInner { alignment: Alignment::Center, reference_point: ReferencePoint::CenterBottom,
                x: xs[i] as usize, y: start.1.saturating_sub(m) });
            r.push(DisplayTextLocationCandidateInner { alignment: Alignment::Center, reference_point: ReferencePoint::CenterTop,
                x: xs[i] as usize, y: start.1.saturating_add(m) });
            i = i + 1;
            assert(r@ =~= rough + horizontal_pairs(start.1, m, xs@.take(i as int)));
        }
        assert(xs@.take(i as int) =~= xs@);
    }
    r
}

/// A bend of an edge: it turns by a right angle at `middle`, and the positions a margin away from
/// `middle` are representable.
pub open spec fn corner_ok(config: DisplayTextConfig, start: (usize, usize), middle: (usize, usize), end: (usize, usize)) -> bool {
    &&& middle.0 + config.margin <= usize::MAX
    &&& middle.1 + config.margin <= usize::MAX
    &&& ((start.0 == middle.0 && start.1 != middle.1 && middle.0 != end.0 && middle.1 == end.1)
        || (start.0 != middle.0 && start.1 == middle.1 && middle.0 == end.0 && middle.1 != end.1))
}

/// The three candidates at a bend, the first on the outer side of the turn.
#[verifier::opaque]
pub open spec fn spec_corner_candidates(config: DisplayTextConfig, start: (usize, usize), middle: (usize, usize), end: (usize, usize)) -> Seq<DisplayTextLocationCandidateInner> {
    let m = config.margin as usize;
    let (mx, my) = middle;
    let above = my.saturating_sub(m);
    let below = (my + m) as usize;
    let left = mx.saturating_sub(m);
    let right = (mx + m) as usize;
    if start.0 == middle.0 {
        if start.1 > middle.1 {
            if middle.0 > end.0 {
                seq![cand(Alignment::Center, ReferencePoint::CenterBottom, mx, above), cand(Alignment::Left, ReferencePoint::LeftCenter, right, my),
                    cand(Alignment::Left, ReferencePoint::LeftBottom, right, above)]
            } else {
                seq![cand(Alignment::Center, ReferencePoint::CenterBottom, mx, above), cand(Alignment::Right, ReferencePoint::RightCenter, left, my),
                    cand(Alignment::Right, ReferencePoint::RightBottom, left, above)]
            }
        } else {
            if middle.0 > end.0 {
                seq![cand(Alignment::Center, ReferencePoint::CenterTop, mx, below), cand(Alignment::Right, ReferencePoint::RightCenter, left, my),
                    cand(Alignment::Right, ReferencePoint::RightTop, left, below)]
            } else {
                seq![cand(Alignment::Center, ReferencePoint::CenterTop, mx, below), cand(Alignment::Left, ReferencePoint::LeftCenter, right, my),
                    cand(Alignment::Left, ReferencePoint::LeftTop, right, below)]
            }
        }
    } else {
        if start.0 < middle.0 {
            if middle.1 > end.1 {
                seq![cand(Alignment::Left, ReferencePoint::LeftCenter, right, my), cand(Alignment::Center, ReferencePoint::CenterTop, mx, below),
                    cand(Alignment::Left, ReferencePoint::LeftTop, right, below)]
            } else {
                seq![cand(Alignment::Left, ReferencePoint::LeftCenter, right, my), cand(Alignment::Center, ReferencePoint::CenterBottom, mx, above),
                    cand(Alignment::Left, ReferencePoint::LeftBottom, right, above)]
            }
        } else {
            if middle.1 < end.1 {
                seq![cand(Alignment::Right, ReferencePoint::RightCenter, left, my), cand(Alignment::Center, ReferencePoint::CenterBottom, mx, above),
                    cand(Alignment::Right, ReferencePoint::RightBottom, left, above)]
            } else {
                seq![cand(Alignment::Right, ReferencePoint::RightCenter, left, my), cand(Alignment::Center, ReferencePoint::CenterTop, mx, below),
                    cand(Alignment::Right, ReferencePoint::RightTop, left, below)]
            }
        }
    }
}

fn three(a: DisplayTextLocationCandidateInner, b: DisplayTextLocationCandidateInner, c: DisplayTextLocationCandidateInner)
    -> (r: Vec<DisplayTextLocationCandidateInner>)
    ensures
        r@ == seq![a, b, c],
{
    let r = vec![a, b, c];
    assert(r@ =~= seq![a, b, c]);
    r
}

/// The label candidates at the bend `middle` of an edge coming from `start` and going on to `end`.
pub fn corner_candidates(config: &DisplayTextConfig, start: (usize, usize), middle: (usize, usize),
    end: (usize, usize)) -> (r: Vec<DisplayTextLocationCandidateInner>)
    requires
        corner_ok(*config, start, middle, end),
    ensures
        r@ == spec_corner_candidates(*config, start, middle, end),
{
    reveal(spec_corner_candidates);
    let m = config.margin as usize;
    let (mx, my) = middle;
    let above = my.saturating_sub(m);
    let below = my + m;
    let left = mx.saturating_sub(m);
    let right = mx + m;
    if start.0 == middle.0 {
        if start.1 > middle.1 {
            if middle.0 > end.0 {
                // up, then left
                three(DisplayTextLocationCandidateInner { alignment: Alignment::Center, reference_point: ReferencePoint::CenterBottom, x: mx, y: above },
                    DisplayTextLocationCandidateInner { alignment: Alignment::Left, reference_point: ReferencePoint::LeftCenter, x: right, y: my },
                    DisplayTextLocationCandidateInner { alignment: Alignment::Left, reference_point: ReferencePoint::LeftBottom, x: right, y: above })
            } else {
                // up, then right
                three(DisplayTextLocationCandidateInner { alignment: Alignment::Center, reference_point: ReferencePoint::CenterBottom, x: mx, y: above },
                    DisplayTextLocationCandidateInner { alignment: Alignment::Right, reference_point: ReferencePoint::RightCenter, x: left, y: my },
                    DisplayTextLocationCandidateInner { alignment: Alignment::Right, reference_point: ReferencePoint::RightBottom, x: left, y: above })
            }
        } else {
            if middle.0 > end.0 {
                // down, then left
                three(DisplayTextLocationCandidateInner { alignment: Alignment::Center, reference_point: ReferencePoint::CenterTop, x: mx, y: below },
                    DisplayTextLocationCandidateInner { alignment: Alignment::Right, reference_point: ReferencePoint::RightCenter, x: left, y: my },
                    DisplayTextLocationCandidateInner { alignment: Alignment::Right, reference_point: ReferencePoint::RightTop, x: left, y: below })
            } else {
                // down, then right
                three(DisplayTextLocationCandidateInner { alignment: Alignment::Center, reference_point: ReferencePoint::CenterTop, x: mx, y: below },
                    DisplayTextLocationCandidateInner { alignment: Alignment::Left, reference_point: ReferencePoint::LeftCenter, x: right, y: my },
                    DisplayTextLocationCandidateInner { alignment: Alignment::Left, reference_point: ReferencePoint::LeftTop, x: right, y: below })
            }
        }
    } else {
        if start.0 < middle.0 {
            if middle.1 > end.1 {
                // right, then up
                three(DisplayTextLocationCandidateInner { alignment: Alignment::Left, reference_point: ReferencePoint::LeftCenter, x: right, y: my },
                    DisplayTextLocationCandidateInner { alignment: Alignment::Center, reference_point: ReferencePoint::CenterTop, x: mx, y: below },
                    DisplayTextLocationCandidateInner { alignment: Alignment::Left, reference_point: ReferencePoint::LeftTop, x: right, y: below })
            } else {
                // right, then down
                three(DisplayTextLocationCandidateInner { alignment: Alignment::Left, reference_point: ReferencePoint::LeftCenter, x: right, y: my },
                    DisplayTextLocationCandidateInner { alignment: Alignment::Center, reference_point: ReferencePoint::CenterBottom, x: mx, y: above },
                    DisplayTextLocationCandidateInner { alignment: Alignment::Left, reference_point: ReferencePoint::LeftBottom, x: right, y: above })
            }
        } else {
            if middle.1 < end.1 {
                // left, then down
                three(DisplayTextLocationCandidateInner { alignment: Alignment::Right, reference_point: ReferencePoint::RightCenter, x: left, y: my },
                    DisplayTextLocationCandidateInner { alignment: Alignment::Center, reference_point: ReferencePoint::CenterBottom, x: mx, y: above },
                    DisplayTextLocationCandidateInner { alignment: Alignment::Right, reference_point: ReferencePoint::RightBottom, x: left, y: above })
            } else {
                // left, then up
                three(DisplayTextLocationCandidateInner { alignment: Alignment::Right, reference_point: ReferencePoint::RightCenter, x: left, y: my },
                    DisplayTextLocationCandidateInner { alignment: Alignment::Center, reference_point: ReferencePoint::CenterTop, x: mx, y: below },
                    DisplayTextLocationCandidateInner { alignment: Alignment::Right, reference_point: ReferencePoint::RightTop, x: left, y: below })
            }
        }
    }
}

/// Tries the label candidates along the segment from `start` to `end` on `tracker`, stopping at
/// the first that brings the best score to zero; answers whether it did.
pub fn edge_segment_display_text_location_candidates(tracker: &mut CandidateTracker, grid: &Grid, config: &DisplayTextConfig,
    start: (usize, usize), end: (usize, usize)) -> (done: bool)
    requires
        segment_ok(*config, start, end),
        old(tracker).score != 0,
        scan(*grid, old(tracker).textbox_wh, (old(tracker).candidate, old(tracker).score), spec_segment_candidates(*config, start, end)) is Some,
    ensures
        final(tracker).textbox_wh == old(tracker).textbox_wh,
        Some((final(tracker).candidate, final(tracker).score)) == scan(*grid, old(tracker).textbox_wh,
            (old(tracker).candidate, old(tracker).score), spec_segment_candidates(*config, start, end)),
        done == (final(tracker).score == 0),
        final(tracker).score <= old(tracker).score,
{
    let candidates = segment_candidates(config, start, end);
    proof {
        lemma_scan_never_raises(*grid, tracker.textbox_wh, (tracker.candidate, tracker.score), candidates@);
    }
    tracker.try_all(grid, &candidates)
}

/// Tries the three label candidates at the bend `middle` (coming from `start`, going on to `end`)
/// on `tracker`, stopping at the first that brings the best score to zero; answers whether it did.
pub fn edge_corner_display_text_location_candidates(tracker: &mut CandidateTracker, grid: &Grid, config: &DisplayTextConfig,
    start: (usize, usize), middle: (usize, usize), end: (usize, usize)) -> (done: bool)
    requires
        corner_ok(*config, start, middle, end),
        old(tracker).score != 0,
        scan(*grid, old(tracker).textbox_wh, (old(tracker).candidate, old(tracker).score), spec_corner_candidates(*config, start, middle, end)) is Some,
    ensures
        final(tracker).textbox_wh == old(tracker).textbox_wh,
        Some((final(tracker).candidate, final(tracker).score)) == scan(*grid, old(tracker).textbox_wh,
            (old(tracker).candidate, old(tracker).score), spec_corner_candidates(*config, start, middle, end)),
        done == (final(tracker).score == 0),
        final(tracker).score <= old(tracker).score,
{
    let candidates = corner_candidates(config, start, middle, end);
    proof {
        lemma_scan_never_raises(*grid, tracker.textbox_wh, (tracker.candidate, tracker.score), candidates@);
    }
    tracker.try_all(grid, &candidates)
}

/// The segment that is tried first and then left out of the walk along the edge: an edge that
/// leaves its node upwards or downwards is best labelled on its first horizontal segment.
pub open spec fn skipped_segment(points: Seq<(usize, usize)>) -> int {
    if points.len() >= 3 && points[0].0 == points[1].0 { 1 } else { -1 }
}

/// The candidates of the walk along the edge from segment `i` on: each segment (unless it is
/// `skip`), followed by the bend at its end.
pub open spec fn walk_candidates(config: DisplayTextConfig, points: Seq<(usize, usize)>, i: int, skip: int) -> Seq<DisplayTextLocationCandidateInner>
    decreases points.len() - i,
{
    if i < 0 || i + 1 >= points.len() {
        Seq::empty()
    } else {
        (if i == skip { Seq::empty() } else { spec_segment_candidates(config, points[i], points[i + 1]) })
            + (if i + 2 < points.len() { spec_corner_candidates(config, points[i], points[i + 1], points[i + 2]) } else { Seq::empty() })
            + walk_candidates(config, points, i + 1, skip)
    }
}

pub open spec fn spec_edge_candidates(config: DisplayTextConfig, points: Seq<(usize, usize)>) -> Seq<DisplayTextLocationCandidateInner> {
    let skip = skipped_segment(points);
    (if skip == 1 { spec_segment_candidates(config, points[1], points[2]) } else { Seq::empty() })
        + walk_candidates(config, points, 0, skip)
}

/// The label box is first centered on the edge's first point (the origin for an empty edge).
pub open spec fn edge_start_candidate(points: Seq<(usize, usize)>) -> DisplayTextLocationCandidateInner {
    let p = if points.len() > 0 { points[0] } else { (0usize, 0usize) };
    cand(Alignment::Center, ReferencePoint::Center, p.0, p.1)
}

/// Every segment is axis-parallel and every bend a right angle.
pub open spec fn edge_route_ok(config: DisplayTextConfig, points: Seq<(usize, usize)>) -> bool {
    &&& forall|i: int| 0 <= i < points.len() - 1 ==> segment_ok(config, #[trigger] points[i], points[i + 1])
    &&& forall|i: int| 0 <= i < points.len() - 2 ==> corner_ok(config, #[trigger] points[i], points[i + 1], points[i + 2])
}

/// All label candidates of an edge routed through `line_points`, in the order they are tried.
fn edge_candidates(config: &DisplayTextConfig, line_points: &[(usize, usize)]) -> (r: Vec<DisplayTextLocationCandidateInner>)
    requires
        edge_route_ok(*config, line_points@),
    ensures
        r@ == spec_edge_candidates(*config, line_points@),
{
    let ghost pts = line_points@;
    let n = line_points.len();
    let mut candidates: Vec<DisplayTextLocationCandidateInner> = Vec::new();
    let has_skip = n >= 3 && line_points[0].0 == line_points[1].0;
    if has_skip {
        assert(segment_ok(*config, pts[1], pts[2]));
        let mut first = segment_candidates(config, line_points[1], line_points[2]);
        candidates.append(&mut first);
    }
    let ghost skip_spec = skipped_segment(pts);
    let ghost head = candidates@;
    assert(head == (if skip_spec == 1 { spec_segment_candidates(*config, pts[1], pts[2]) } else { Seq::empty() }));
    let last: usize = if n > 0 { n - 1 } else { 0 };
    let mut i: usize = 0;
    while i < last
        invariant
            0 <= i <= last,
            last + 1 == n || (n == 0 && last == 0),
            n == pts.len(),
            pts == line_points@,
            skip_spec == (if has_skip { 1int } else { -1int }),
            edge_route_ok(*config, pts),
            candidates@ + walk_candidates(*config, pts, i as int, skip_spec) == head + walk_candidates(*config, pts, 0, skip_spec),
        decreases last - i,
    {
        let ghost before = candidates@;
        let ghost seg_part = if i as int == skip_spec { Seq::<DisplayTextLocationCandidateInner>::empty() } else { spec_segment_candidates(*config, pts[i as int], pts[i + 1]) };
        let ghost corner_part = if i + 2 < pts.len() { spec_corner_candidates(*config, pts[i as int], pts[i + 1], pts[i + 2]) } else { Seq::<DisplayTextLocationCandidateInner>::empty() };
        proof {
            lemma_walk_unfold(*config, pts, i as int, skip_spec);
        }
        if !(has_skip && i == 1) {
            assert(segment_ok(*config, pts[i as int], pts[i + 1]));
            let mut seg = segment_candidates(config, line_points[i], line_points[i + 1]);
            candidates.append(&mut seg);
        }
        assert(candidates@ =~= before + seg_part);
        if i + 2 < n {
            assert(corner_ok(*config, pts[i as int], pts[i + 1], pts[i + 2]));
            let mut corner = corner_candidates(config, line_points[i], line_points[i + 1], line_points[i + 2]);
            candidates.append(&mut corner);
        }
        assert(candidates@ =~= before + seg_part + corner_part);
        assert(candidates@ + walk_candidates(*config, pts, i + 1, skip_spec) =~= before + walk_candidates(*config, pts, i as int, skip_spec));
        i = i + 1;
    }
    assert(walk_candidates(*config, pts, i as int, skip_spec) =~= Seq::<DisplayTextLocationCandidateInner>::empty());
    assert(candidates@ =~= spec_edge_candidates(*config, pts));
    candidates
}

proof fn lemma_walk_unfold(config: DisplayTextConfig, points: Seq<(usize, usize)>, i: int, skip: int)
    requires
        0 <= i,
        i + 1 < points.len(),
    ensures
        walk_candidates(config, points, i, skip) ==
            (if i == skip { Seq::empty() } else { spec_segment_candidates(config, points[i], points[i + 1]) })
            + (if i + 2 < points.len() { spec_corner_candidates(config, points[i], points[i + 1], points[i + 2]) } else { Seq::empty() })
            + walk_candidates(config, points, i + 1, skip),
{
}

/// The label position of an edge routed through `line_points`.
pub fn edge_display_text_location_candidates(config: &DisplayTextConfig, textbox_wh: (usize, usize), line_points: &[(usize, usize)],
    grid: &Grid) -> (r: DisplayTextLocation)
    requires
        edge_route_ok(*config, line_points@),
        best_location(*grid, textbox_wh, edge_start_candidate(line_points@), spec_edge_candidates(*config, line_points@)) is Some,
    ensures
        Some(r) == best_location(*grid, textbox_wh, edge_start_candidate(line_points@), spec_edge_candidates(*config, line_points@)),
{
    let candidates = edge_candidates(config, line_points);
    let (x, y) = if line_points.len() > 0 { line_points[0] } else { (0, 0) };
    let start = DisplayTextLocationCandidateInner { alignment: Alignment::Center, reference_point: ReferencePoint::Center, x, y };
    search(grid, textbox_wh, start, &candidates)
}

/// The label position of an edge routed through `line_points`, or `None` where a candidate that
/// the search reaches cannot be scored on the grid (see `scorable`).
pub fn try_edge_display_text_location_candidates(config: &DisplayTextConfig, textbox_wh: (usize, usize), line_points: &[(usize, usize)],
    grid: &Grid) -> (r: Option<DisplayTextLocation>)
    requires
        edge_route_ok(*config, line_points@),
    ensures
        r == best_location(*grid, textbox_wh, edge_start_candidate(line_points@), spec_edge_candidates(*config, line_points@)),
{
    let candidates = edge_candidates(config, line_points);
    let (x, y) = if line_points.len() > 0 { line_points[0] } else { (0, 0) };
    let start = DisplayTextLocationCandidateInner { alignment: Alignment::Center, reference_point: ReferencePoint::Center, x, y };
    try_search(grid, textbox_wh, start, &candidates)
}

/// Which side of its node a port lies on.
pub open spec fn port_side(port: RelativePort, width: usize) -> Side {
    if port.x == 0 {
        Side::Left
    } else if port.x == width {
        Side::Right
    } else if port.y == 0 {
        Side::Top
    } else {
        Side::Bottom
    }
}

pub open spec fn is_wanted_flow(edge: Edge, data_flow: bool) -> bool {
    if data_flow { edge.flow_type is DataFlow } else { edge.flow_type is SequenceFlow }
}

/// The position of the first incoming edge from `k` on that is of the wanted kind.
pub open spec fn first_wanted(incoming: Seq<EdgeId>, edges: Seq<Edge>, data_flow: bool, n: int, k: int) -> Option<int>
    decreases n - k,
{
    if k < 0 || k >= n {
        None
    } else if is_wanted_flow(edges[incoming[k].0 as int], data_flow) {
        Some(k)
    } else {
        first_wanted(incoming, edges, data_flow, n, k + 1)
    }
}

/// The side of its node at which the first incoming flow of the wanted kind (data flows, or else
/// sequence flows) arrives; the left side when there is none.
pub fn side_of_first_incoming_flow(width: usize, height: usize, incoming: &[EdgeId], incoming_ports: &[RelativePort],
    edges: &[Edge], data_flow: bool) -> (r: Side)
    requires
        forall|i: int| 0 <= i < incoming@.len() && i < incoming_ports@.len() ==> (#[trigger] incoming@[i]).0 < edges@.len(),
        forall|i: int| 0 <= i < incoming@.len() && i < incoming_ports@.len() ==> ({
            let p = #[trigger] incoming_ports@[i];
            p.x == 0 || p.x == width || p.y == 0 || p.y == height
        }),
    ensures
        ({
            let n = if incoming@.len() < incoming_ports@.len() { incoming@.len() as int } else { incoming_ports@.len() as int };
            r == match first_wanted(incoming@, edges@, data_flow, n, 0) {
                None => Side::Left,
                Some(k) => port_side(incoming_ports@[k], width),
            }
        }),
{
    let n = if incoming.len() < incoming_ports.len() { incoming.len() } else { incoming_ports.len() };
    let mut k: usize = 0;
    while k < n
        invariant
            0 <= k <= n,
            n == (if incoming@.len() < incoming_ports@.len() { incoming@.len() as int } else { incoming_ports@.len() as int }),
            forall|i: int| 0 <= i < incoming@.len() && i < incoming_ports@.len() ==> (#[trigger] incoming@[i]).0 < edges@.len(),
            first_wanted(incoming@, edges@, data_flow, n as int, 0) == first_wanted(incoming@, edges@, data_flow, n as int, k as int),
        decreases n - k,
    {
        let e = &edges[incoming[k].0];
        let wanted = if data_flow { e.is_data_flow() } else { e.is_sequence_flow() };
        if wanted {
            let port = incoming_ports[k];
            return if port.x == 0 {
                Side::Left
            } else if port.x == width {
                Side::Right
            } else if port.y == 0 {
                Side::Top
            } else {
                Side::Bottom
            };
        }
        k = k + 1;
    }
    Side::Left
}

/// An edge label candidate names its position in the same way as a node label candidate.
pub type EdgeDisplayTextLocationCandidate = DisplayTextLocationCandidateInner;

/// Eight indices `0..=7` into the eight ring positions, three bits each.
#[derive(Debug, Clone, Copy, PartialEq, Eq, Structural)]
pub struct PackedIndicesForDisplayTextLocation {
    pub bits: u32,
}

/// The bits of `s[k..8]`, three per index, `s[k]` in the lowest three bits.
pub open spec fn packed_from(s: Seq<usize>, k: int) -> int
    decreases 8 - k,
{
    if k >= 8 || k < 0 {
        0
    } else {
        s[k] + 8 * packed_from(s, k + 1)
    }
}

/// `bits` shifted right by three, `j` times.
pub open spec fn shifted(bits: int, j: int) -> int
    decreases j,
{
    if j <= 0 { bits } else { shifted(bits, j - 1) / 8 }
}

impl PackedIndicesForDisplayTextLocation {
    pub fn new(indices: [usize; 8]) -> (r: PackedIndicesForDisplayTextLocation)
        requires
            forall|k: int| 0 <= k < 8 ==> #[trigger] indices@[k] < 8,
        ensures
            r.bits == packed_from(indices@, 0),
    {
        let mut bits: u32 = 0;
        let mut k: usize = 8;
        while k > 0
            invariant
                0 <= k <= 8,
                forall|j: int| 0 <= j < 8 ==> #[trigger] indices@[j] < 8,
                bits == packed_from(indices@, k as int),
                bits < pow8_bound(k as int),
            decreases k,
        {
            k = k - 1;
            let index = indices[k] as u32;
            proof {
                lemma_pow8_bound(k as int);
            }
            let b = bits;
            assert((b << 3u32) == b * 8) by (bit_vector)
                requires
                    b < 0x0020_0000,
            ;
            bits = bits << 3;
            let b2 = bits;
            assert((b2 | index) == b2 + index) by (bit_vector)
                requires
                    b2 % 8 == 0,
                    index < 8,
            ;
            bits = bits | index;
        }
        PackedIndicesForDisplayTextLocation { bits }
    }

    /// The eight indices, lowest three bits first.
    pub fn unpack(&self) -> (r: [usize; 8])
        ensures
            forall|j: int| 0 <= j < 8 ==> #[trigger] r@[j] == shifted(self.bits as int, j) % 8,
    {
        let mut indices: [usize; 8] = [0, 0, 0, 0, 0, 0, 0, 0];
        let mut bits = self.bits;
        let mut j: usize = 0;
        while j < 8
            invariant
                0 <= j <= 8,
                indices@.len() == 8,
                bits == shifted(self.bits as int, j as int),
                forall|i: int| 0 <= i < j ==> #[trigger] indices@[i] == shifted(self.bits as int, i) % 8,
            decreases 8 - j,
        {
            let b = bits;
            assert((b & 7u32) == b % 8) by (bit_vector);
            assert((b >> 3u32) == b / 8) by (bit_vector);
            indices[j] = (bits & 7) as usize;
            bits = bits >> 3;
            j = j + 1;
        }
        indices
    }
}

/// `8^(8 - k)`: a bound on `packed_from(s, k)`.
pub open spec fn pow8_bound(k: int) -> int
    decreases 8 - k,
{
    if k >= 8 || k < 0 { 1 } else { 8 * pow8_bound(k + 1) }
}

proof fn lemma_pow8_bound(k: int)
    requires
        0 <= k < 8,
    ensures
        pow8_bound(k + 1) <= 0x0020_0000,
        pow8_bound(k) == 8 * pow8_bound(k + 1),
{
    assert(pow8_bound(8) == 1);
    assert(pow8_bound(7) == 8);
    assert(pow8_bound(6) == 64);
    assert(pow8_bound(5) == 512);
    assert(pow8_bound(4) == 4096);
    assert(pow8_bound(3) == 32768);
    assert(pow8_bound(2) == 262144);
    assert(pow8_bound(1) == 2097152);
}

/// Unpacking what `new` packed gives back every index: `unpack(new(a)) == a` for indices
/// below eight.
pub proof fn lemma_unpack_after_new(s: Seq<usize>)
    requires
        s.len() == 8,
        forall|k: int| 0 <= k < 8 ==> #[trigger] s[k] < 8,
    ensures
        forall|j: int| 0 <= j < 8 ==> #[trigger] shifted(packed_from(s, 0), j) % 8 == s[j] as int,
{
    assert forall|j: int| 0 <= j < 8 implies #[trigger] shifted(packed_from(s, 0), j) % 8 == s[j] as int by {
        lemma_shifted_packed(s, j);
        lemma_packed_nonneg(s, j + 1);
    }
}

proof fn lemma_shifted_packed(s: Seq<usize>, j: int)
    requires
        s.len() == 8,
        forall|k: int| 0 <= k < 8 ==> #[trigger] s[k] < 8,
        0 <= j <= 8,
    ensures
        shifted(packed_from(s, 0), j) == packed_from(s, j),
    decreases j,
{
    if j > 0 {
        lemma_shifted_packed(s, j - 1);
        lemma_packed_nonneg(s, j);
        assert(shifted(packed_from(s, 0), j) == shifted(packed_from(s, 0), j - 1) / 8);
        assert(packed_from(s, j - 1) == s[j - 1] + 8 * packed_from(s, j));
    }
}

proof fn lemma_packed_nonneg(s: Seq<usize>, j: int)
    requires
        s.len() == 8,
        0 <= j <= 8,
    ensures
        packed_from(s, j) >= 0,
    decreases 8 - j,
{
    if j < 8 {
        lemma_packed_nonneg(s, j + 1);
    }
}

} // verus!
