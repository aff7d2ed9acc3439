//! A quad tree of line segments, to test whether a box touches any stored line.
use vstd::prelude::*;

verus! {

/// A leaf holding this many lines splits on the next insertion (if big enough).
pub const MAX_FILL_DEGREE: i64 = 10;
/// Cells smaller than this never split.
pub const MIN_SPLIT_DIMENSION: i64 = 100;

#[derive(Debug, Clone, Copy, PartialEq, Eq, Structural)]
pub struct Point {
    pub x: i64,
    pub y: i64,
}

#[derive(Debug, Clone, Copy, PartialEq, Eq, Structural)]
pub struct Line {
    pub start: Point,
    pub end: Point,
}

#[derive(Debug, Clone, Copy, PartialEq, Eq, Structural)]
pub struct BoundingBox {
    pub left: i64,
    pub right: i64,
    pub top: i64,
    pub bottom: i64,
}

/// A square cell with top left corner `(left, top)` and side `extent`.
#[derive(Debug, Clone, Copy, PartialEq, Eq, Structural)]
pub struct QuadTreeCell {
    pub left: i64,
    pub top: i64,
    pub extent: i64,
}

pub struct QuadTreeLeafData {
    pub lines: Vec<Line>,
}

pub enum QuadTreeState {
    Leaf { data: Box<QuadTreeLeafData> },
    /// Always four children: top left, top right, bottom left, bottom right.
    Parent { children: Vec<QuadTree> },
}

pub struct QuadTree {
    pub state: QuadTreeState,
    pub cell: QuadTreeCell,
}

pub open spec fn fits_i64(v: int) -> bool {
    i64::MIN <= v <= i64::MAX
}

pub open spec fn spec_orientation(a: Point, b: Point, c: Point) -> int {
    (b.x - a.x) * (c.y - a.y) - (b.y - a.y) * (c.x - a.x)
}

pub open spec fn orientation_defined(a: Point, b: Point, c: Point) -> bool {
    &&& fits_i64(b.x - a.x)
    &&& fits_i64(b.y - a.y)
    &&& fits_i64(c.x - a.x)
    &&& fits_i64(c.y - a.y)
    &&& fits_i64((b.x - a.x) * (c.y - a.y))
    &&& fits_i64((b.y - a.y) * (c.x - a.x))
    &&& fits_i64(spec_orientation(a, b, c))
}

pub fn orientation(a: Point, b: Point, c: Point) -> (r: i64)
    requires
        orientation_defined(a, b, c),
    ensures
        r == spec_orientation(a, b, c),
{
    let bax = b.x - a.x;
    let bay = b.y - a.y;
    let cax = c.x - a.x;
    let cay = c.y - a.y;
    bax * cay - bay * cax
}

pub open spec fn min_i(a: i64, b: i64) -> i64 {
    if a < b { a } else { b }
}

pub open spec fn max_i(a: i64, b: i64) -> i64 {
    if a > b { a } else { b }
}

pub open spec fn spec_on_segment(a: Point, b: Point, p: Point) -> bool {
    &&& spec_orientation(a, b, p) == 0
    &&& min_i(a.x, b.x) <= p.x <= max_i(a.x, b.x)
    &&& min_i(a.y, b.y) <= p.y <= max_i(a.y, b.y)
}

pub fn on_segment(a: Point, b: Point, p: Point, o: &mut i64) -> (r: bool)
    requires
        orientation_defined(a, b, p),
    ensures
        *final(o) == spec_orientation(a, b, p),
        r == spec_on_segment(a, b, p),
{
    *o = orientation(a, b, p);
    let min_x = if a.x < b.x { a.x } else { b.x };
    let max_x = if a.x > b.x { a.x } else { b.x };
    let min_y = if a.y < b.y { a.y } else { b.y };
    let max_y = if a.y > b.y { a.y } else { b.y };
    *o == 0 && p.x >= min_x && p.x <= max_x && p.y >= min_y && p.y <= max_y
}

/// Same test as the collision grid's, on `i64` coordinates.
pub open spec fn spec_segments_intersect(l1: Line, l2: Line) -> bool {
    let (a, b, c, d) = (l1.start, l1.end, l2.start, l2.end);
    ||| spec_on_segment(a, b, c)
    ||| spec_on_segment(a, b, d)
    ||| spec_on_segment(c, d, a)
    ||| spec_on_segment(c, d, b)
    ||| ((spec_orientation(a, b, c) > 0) != (spec_orientation(a, b, d) > 0)
        && (spec_orientation(c, d, a) > 0) != (spec_orientation(c, d, b) > 0))
}

pub open spec fn segments_intersect_defined(l1: Line, l2: Line) -> bool {
    let (a, b, c, d) = (l1.start, l1.end, l2.start, l2.end);
    orientation_defined(a, b, c) && (spec_on_segment(a, b, c) || (orientation_defined(a, b, d)
        && (spec_on_segment(a, b, d) || (orientation_defined(c, d, a)
        && (spec_on_segment(c, d, a) || orientation_defined(c, d, b))))))
}

pub fn segments_intersect(l1: Line, l2: Line) -> (r: bool)
    requires
        segments_intersect_defined(l1, l2),
    ensures
        r == spec_segments_intersect(l1, l2),
{
    let (a, b, c, d) = (l1.start, l1.end, l2.start, l2.end);
    let mut o1: i64 = 0;
    let mut o2: i64 = 0;
    let mut o3: i64 = 0;
    let mut o4: i64 = 0;
    if on_segment(a, b, c, &mut o1) {
        return true;
    }
    if on_segment(a, b, d, &mut o2) {
        return true;
    }
    if on_segment(c, d, a, &mut o3) {
        return true;
    }
    if on_segment(c, d, b, &mut o4) {
        return true;
    }
    (o1 > 0) != (o2 > 0) && (o3 > 0) != (o4 > 0)
}

pub open spec fn spec_bb_contains(bb: BoundingBox, p: Point) -> bool {
    bb.left <= p.x <= bb.right && bb.top <= p.y <= bb.bottom
}

pub open spec fn side(bb: BoundingBox, k: int) -> Line {
    let bl = Point { x: bb.left, y: bb.bottom };
    let br = Point { x: bb.right, y: bb.bottom };
    let tr = Point { x: bb.right, y: bb.top };
    let tl = Point { x: bb.left, y: bb.top };
    if k == 0 {
        Line { start: bl, end: br }
    } else if k == 1 {
        Line { start: bl, end: tl }
    } else if k == 2 {
        Line { start: tr, end: tl }
    } else {
        Line { start: tr, end: br }
    }
}

pub open spec fn spec_bb_intersect(bb: BoundingBox, line: Line) -> bool {
    ||| spec_bb_contains(bb, line.start)
    ||| spec_bb_contains(bb, line.end)
    ||| spec_segments_intersect(line, side(bb, 0))
    ||| spec_segments_intersect(line, side(bb, 1))
    ||| spec_segments_intersect(line, side(bb, 2))
    ||| spec_segments_intersect(line, side(bb, 3))
}

/// No `i64` overflow in the tests that `BoundingBox::intersect` performs.
pub open spec fn bb_intersect_defined(bb: BoundingBox, line: Line) -> bool {
    ||| spec_bb_contains(bb, line.start)
    ||| spec_bb_contains(bb, line.end)
    ||| (segments_intersect_defined(line, side(bb, 0)) && (spec_segments_intersect(line, side(bb, 0))
        || (segments_intersect_defined(line, side(bb, 1)) && (spec_segments_intersect(line, side(bb, 1))
        || (segments_intersect_defined(line, side(bb, 2)) && (spec_segments_intersect(line, side(bb, 2))
        || segments_intersect_defined(line, side(bb, 3))))))))
}

pub open spec fn spec_bb_overlaps(a: BoundingBox, b: BoundingBox) -> bool {
    a.left < b.right && a.right > b.left && a.top < b.bottom && a.bottom > b.top
}

impl BoundingBox {
    pub fn intersect(&self, line: &Line) -> (r: bool)
        requires
            bb_intersect_defined(*self, *line),
        ensures
            r == spec_bb_intersect(*self, *line),
    {
        if self.contains(line.start) || self.contains(line.end) {
            return true;
        }
        let bl = Point { x: self.left, y: self.bottom };
        let br = Point { x: self.right, y: self.bottom };
        let tr = Point { x: self.right, y: self.top };
        let tl = Point { x: self.left, y: self.top };
        segments_intersect(*line, Line { start: bl, end: br })
            || segments_intersect(*line, Line { start: bl, end: tl })
            || segments_intersect(*line, Line { start: tr, end: tl })
            || segments_intersect(*line, Line { start: tr, end: br })
    }

    pub fn contains(&self, p: Point) -> (r: bool)
        ensures
            r == spec_bb_contains(*self, p),
    {
        self.left <= p.x && p.x <= self.right && self.top <= p.y && p.y <= self.bottom
    }

    pub fn overlaps(&self, other: &BoundingBox) -> (r: bool)
        ensures
            r == spec_bb_overlaps(*self, *other),
    {
        self.left < other.right && self.right > other.left && self.top < other.bottom && self.bottom > other.top
    }
}

/// The cell as a closed box.
pub open spec fn cell_box(c: QuadTreeCell) -> BoundingBox {
    BoundingBox { left: c.left, top: c.top, right: (c.left + c.extent) as i64, bottom: (c.top + c.extent) as i64 }
}

/// The cell's corners are representable.
pub open spec fn cell_fits(c: QuadTreeCell) -> bool {
    fits_i64(c.left + c.extent) && fits_i64(c.top + c.extent)
}

impl QuadTreeCell {
    pub fn intersects(&self, line: &Line) -> (r: bool)
        requires
            cell_fits(*self),
            bb_intersect_defined(cell_box(*self), *line),
        ensures
            r == spec_bb_intersect(cell_box(*self), *line),
    {
        BoundingBox { left: self.left, top: self.top, right: self.left + self.extent, bottom: self.top + self.extent }.intersect(line)
    }

    pub fn overlaps(&self, other: &BoundingBox) -> (r: bool)
        requires
            cell_fits(*self),
        ensures
            r == spec_bb_overlaps(cell_box(*self), *other),
    {
        BoundingBox { left: self.left, top: self.top, right: self.left + self.extent, bottom: self.top + self.extent }.overlaps(other)
    }
}


/// Bound on all coordinates, so that no side test can overflow `i64`.
pub const COORD_BOUND: i64 = 0x2000_0000;

pub open spec fn small(v: i64) -> bool {
    -COORD_BOUND <= v <= COORD_BOUND
}

pub open spec fn small_point(p: Point) -> bool {
    small(p.x) && small(p.y)
}

pub open spec fn small_line(l: Line) -> bool {
    small_point(l.start) && small_point(l.end)
}

pub open spec fn small_box(bb: BoundingBox) -> bool {
    small(bb.left) && small(bb.right) && small(bb.top) && small(bb.bottom)
}

proof fn lemma_orientation_defined(a: Point, b: Point, c: Point)
    requires
        small_point(a),
        small_point(b),
        small_point(c),
    ensures
        orientation_defined(a, b, c),
{
    let bax = b.x - a.x;
    let bay = b.y - a.y;
    let cax = c.x - a.x;
    let cay = c.y - a.y;
    let m = 2 * (COORD_BOUND as int);
    assert(-m <= bax <= m && -m <= bay <= m && -m <= cax <= m && -m <= cay <= m);
    assert(-m * m <= bax * cay <= m * m) by (nonlinear_arith)
        requires -m <= bax <= m, -m <= cay <= m, m >= 0;
    assert(-m * m <= bay * cax <= m * m) by (nonlinear_arith)
        requires -m <= bay <= m, -m <= cax <= m, m >= 0;
    assert(m * m == 0x1000_0000_0000_0000int) by (nonlinear_arith)
        requires m == 0x4000_0000;
}

proof fn lemma_bb_intersect_defined(bb: BoundingBox, line: Line)
    requires
        small_box(bb),
        small_line(line),
    ensures
        bb_intersect_defined(bb, line),
{
    let bl = Point { x: bb.left, y: bb.bottom };
    let br = Point { x: bb.right, y: bb.bottom };
    let tr = Point { x: bb.right, y: bb.top };
    let tl = Point { x: bb.left, y: bb.top };
    let pts = seq![line.start, line.end, bl, br, tr, tl];
    assert forall|i: int, j: int, k: int| 0 <= i < 6 && 0 <= j < 6 && 0 <= k < 6
        implies orientation_defined(#[trigger] pts[i], #[trigger] pts[j], #[trigger] pts[k]) by {
        lemma_orientation_defined(pts[i], pts[j], pts[k]);
    }
    assert(orientation_defined(line.start, line.end, bl) && orientation_defined(line.start, line.end, br));
    assert(orientation_defined(line.start, line.end, tr) && orientation_defined(line.start, line.end, tl));
    assert(orientation_defined(bl, br, line.start) && orientation_defined(bl, br, line.end));
    assert(orientation_defined(bl, tl, line.start) && orientation_defined(bl, tl, line.end));
    assert(orientation_defined(tr, tl, line.start) && orientation_defined(tr, tl, line.end));
    assert(orientation_defined(tr, br, line.start) && orientation_defined(tr, br, line.end));
}

/// The cell lies in `[0, COORD_BOUND]` in both directions and has a non-negative side.
pub open spec fn cell_ok(c: QuadTreeCell) -> bool {
    &&& 0 <= c.left
    &&& 0 <= c.top
    &&& 0 <= c.extent
    &&& c.left + c.extent <= COORD_BOUND
    &&& c.top + c.extent <= COORD_BOUND
}

/// The four children of a parent, in storage order.
pub open spec fn child(t: QuadTree, i: int) -> QuadTree
    recommends
        t.state is Parent,
{
    t.state->children@[i]
}

/// Line `l` is held wherever an insertion of it reaches: if it touches the cell, a leaf lists
/// it, and each child of a parent holds it in turn.
pub open spec fn held_where_reached(t: QuadTree, l: Line) -> bool
    decreases t,
{
    spec_bb_intersect(cell_box(t.cell), l) ==> match t.state {
        QuadTreeState::Leaf { data } => data.lines@.contains(l),
        QuadTreeState::Parent { children } => children@.len() == 4
            && forall|i: int| 0 <= i < 4 ==> held_where_reached(#[trigger] children@[i], l),
    }
}

/// Every line stored anywhere in the tree is held wherever an insertion of it reaches: in every
/// leaf whose cell it touches along a path of cells that it touches.
pub open spec fn lines_placed(t: QuadTree) -> bool {
    forall|l: Line| #[trigger] tree_lines(t).contains(l) ==> held_where_reached(t, l)
}

/// Well-formed: cells in range with a side that is a power of two, parents have as children
/// their four quadrants, leaves hold only lines in range that touch their cell, and every stored
/// line is held wherever an insertion of it reaches (`lines_placed`).
pub open spec fn tree_wf(t: QuadTree) -> bool
    decreases t,
{
    &&& cell_ok(t.cell)
    &&& is_pow2(t.cell.extent as int)
    &&& lines_placed(t)
    &&& match t.state {
        QuadTreeState::Leaf { data } => forall|i: int| 0 <= i < data.lines@.len() ==> small_line(#[trigger] data.lines@[i])
            && spec_bb_intersect(cell_box(t.cell), data.lines@[i]),
        QuadTreeState::Parent { children } => {
            &&& children@.len() == 4
            &&& t.cell.extent >= 2
            &&& forall|i: int| 0 <= i < 4 ==> {
                let c = #[trigger] children@[i];
                &&& c.cell == quadrant(t.cell, i)
                &&& c.cell.extent < t.cell.extent
                &&& t.cell.left <= c.cell.left
                &&& t.cell.top <= c.cell.top
                &&& c.cell.left + c.cell.extent <= t.cell.left + t.cell.extent
                &&& c.cell.top + c.cell.extent <= t.cell.top + t.cell.extent
                &&& tree_wf(c)
            }
        },
    }
}

/// The lines stored in the leaves of the tree.
pub open spec fn tree_lines(t: QuadTree) -> Set<Line>
    decreases t,
{
    match t.state {
        QuadTreeState::Leaf { data } => data.lines@.to_set(),
        QuadTreeState::Parent { children } => if children@.len() == 4 {
            tree_lines(children@[0]) + tree_lines(children@[1]) + tree_lines(children@[2]) + tree_lines(children@[3])
        } else {
            Set::empty()
        },
    }
}

/// What `intersects_any_line` answers: the box overlaps the cell, and it touches a line of the
/// leaf, or (for a parent) the query succeeds in some child.
pub open spec fn spec_query(t: QuadTree, bb: BoundingBox) -> bool
    decreases t,
{
    spec_bb_overlaps(cell_box(t.cell), bb) && match t.state {
        QuadTreeState::Leaf { data } => exists|i: int| 0 <= i < data.lines@.len() && spec_bb_intersect(bb, #[trigger] data.lines@[i]),
        QuadTreeState::Parent { children } => exists|i: int| 0 <= i < children@.len() && spec_query(#[trigger] children@[i], bb),
    }
}

/// Smallest power of two that is at least `x` (one for zero).
pub open spec fn is_pow2(v: int) -> bool
    decreases v,
{
    if v <= 0 {
        false
    } else if v == 1 {
        true
    } else {
        v % 2 == 0 && is_pow2(v / 2)
    }
}

/// The smallest power of two that is at least `x` (one for zero).
pub fn next_power_of_two(x: usize) -> (r: usize)
    requires
        x <= 0x1000_0000,
    ensures
        is_pow2(r as int),
        r >= x,
        r <= 0x2000_0000,
        r == 1 || r / 2 < x,
{
    let mut r: usize = 1;
    assert(is_pow2(1));
    while r < x
        invariant
            is_pow2(r as int),
            1 <= r <= 0x2000_0000,
            r == 1 || r / 2 < x,
            x <= 0x1000_0000,
        decreases 0x2000_0000 - r,
    {
        assert(is_pow2(2 * r as int)) by {
            assert((2 * r as int) % 2 == 0);
            assert((2 * r as int) / 2 == r);
        }
        r = r * 2;
    }
    r
}

impl QuadTree {
    /// An empty leaf whose cell is the square of side `max(min_width, min_height)` rounded up to a
    /// power of two, at the origin.
    pub fn new(min_width: usize, min_height: usize) -> (r: QuadTree)
        requires
            min_width <= 0x1000_0000,
            min_height <= 0x1000_0000,
        ensures
            tree_wf(r),
            tree_lines(r) == Set::<Line>::empty(),
            r.cell.left == 0,
            r.cell.top == 0,
            is_pow2(r.cell.extent as int),
            r.cell.extent >= min_width && r.cell.extent >= min_height,
            r.cell.extent == 1 || r.cell.extent / 2 < (if min_width > min_height { min_width } else { min_height }),
    {
        let m = if min_width > min_height { min_width } else { min_height };
        let p = next_power_of_two(m);
        let r = QuadTree {
            cell: QuadTreeCell { left: 0, top: 0, extent: p as i64 },
            state: QuadTreeState::Leaf { data: Box::new(QuadTreeLeafData { lines: Vec::new() }) },
        };
        assert(tree_lines(r) =~= Set::<Line>::empty());
        r
    }
}

/// `m` halves the axis-parallel segment from `c` to `d`.
pub open spec fn halves(c: Point, d: Point, m: Point) -> bool {
    ||| (c.y == d.y && m.y == c.y && 2 * m.x == c.x + d.x)
    ||| (c.x == d.x && m.x == c.x && 2 * m.y == c.y + d.y)
}

proof fn lemma_half_orientations(a: Point, b: Point, c: Point, d: Point, m: Point)
    requires
        halves(c, d, m),
    ensures
        2 * spec_orientation(a, b, m) == spec_orientation(a, b, c) + spec_orientation(a, b, d),
        2 * spec_orientation(c, m, a) == spec_orientation(c, d, a),
        2 * spec_orientation(m, d, a) == spec_orientation(c, d, a),
{
    let (ax, ay, bx, by, cx, cy, dx, dy, mx, my) = (a.x as int, a.y as int, b.x as int, b.y as int, c.x as int,
        c.y as int, d.x as int, d.y as int, m.x as int, m.y as int);
    assert(2 * ((bx - ax) * (my - ay) - (by - ay) * (mx - ax)) == ((bx - ax) * (cy - ay) - (by - ay) * (cx - ax))
        + ((bx - ax) * (dy - ay) - (by - ay) * (dx - ax))) by (nonlinear_arith)
        requires
            2 * mx == cx + dx,
            2 * my == cy + dy,
    ;
    assert(2 * ((mx - cx) * (ay - cy) - (my - cy) * (ax - cx)) == (dx - cx) * (ay - cy) - (dy - cy) * (ax - cx)) by (nonlinear_arith)
        requires
            2 * mx == cx + dx,
            2 * my == cy + dy,
    ;
    assert(2 * ((dx - mx) * (ay - my) - (dy - my) * (ax - mx)) == (dx - cx) * (ay - cy) - (dy - cy) * (ax - cx)) by (nonlinear_arith)
        requires
            2 * mx == cx + dx,
            2 * my == cy + dy,
            cx == dx || cy == dy,
            cx == dx ==> mx == cx,
            cy == dy ==> my == cy,
    ;
}

/// A line that crosses an axis-parallel segment crosses one of its two halves.
proof fn lemma_crosses_a_half(l: Line, c: Point, d: Point, m: Point)
    requires
        halves(c, d, m),
        spec_segments_intersect(l, Line { start: c, end: d }),
    ensures
        spec_segments_intersect(l, Line { start: c, end: m }) || spec_segments_intersect(l, Line { start: m, end: d }),
{
    let (a, b) = (l.start, l.end);
    lemma_half_orientations(a, b, c, d, m);
    lemma_half_orientations(b, a, c, d, m);
    lemma_half_orientations(a, b, c, d, m);
    assert(2 * spec_orientation(c, m, b) == spec_orientation(c, d, b)) by {
        lemma_half_orientations(b, a, c, d, m);
    }
    assert(2 * spec_orientation(m, d, b) == spec_orientation(c, d, b)) by {
        lemma_half_orientations(b, a, c, d, m);
    }
}

/// A line that touches a cell with an even side touches one of its quadrants.
proof fn lemma_quadrants_cover(c: QuadTreeCell, line: Line)
    requires
        cell_ok(c),
        c.extent >= 2,
        c.extent % 2 == 0,
        spec_bb_intersect(cell_box(c), line),
    ensures
        exists|i: int| 0 <= i < 4 && spec_bb_intersect(cell_box(#[trigger] quadrant(c, i)), line),
{
    let p = cell_box(c);
    let q0 = cell_box(quadrant(c, 0));
    let q1 = cell_box(quadrant(c, 1));
    let q2 = cell_box(quadrant(c, 2));
    let q3 = cell_box(quadrant(c, 3));
    let h = c.extent / 2;
    assert(q0.right == p.left + h && q3.left == p.left + h && q3.right == p.right && q3.bottom == p.bottom);
    if spec_bb_contains(p, line.start) || spec_bb_contains(p, line.end) {
        assert(spec_bb_intersect(q0, line) || spec_bb_intersect(q1, line) || spec_bb_intersect(q2, line) || spec_bb_intersect(q3, line));
    } else if spec_segments_intersect(line, side(p, 0)) {
        lemma_crosses_a_half(line, side(p, 0).start, side(p, 0).end, side(q2, 0).end);
        assert(side(q2, 0) == Line { start: side(p, 0).start, end: side(q2, 0).end });
        assert(side(q3, 0) == Line { start: side(q2, 0).end, end: side(p, 0).end });
        assert(spec_bb_intersect(q2, line) || spec_bb_intersect(q3, line));
    } else if spec_segments_intersect(line, side(p, 1)) {
        lemma_crosses_a_half(line, side(p, 1).start, side(p, 1).end, side(q2, 1).end);
        assert(side(q2, 1) == Line { start: side(p, 1).start, end: side(q2, 1).end });
        assert(side(q0, 1) == Line { start: side(q2, 1).end, end: side(p, 1).end });
        assert(spec_bb_intersect(q2, line) || spec_bb_intersect(q0, line));
    } else if spec_segments_intersect(line, side(p, 2)) {
        lemma_crosses_a_half(line, side(p, 2).start, side(p, 2).end, side(q1, 2).end);
        assert(side(q1, 2) == Line { start: side(p, 2).start, end: side(q1, 2).end });
        assert(side(q0, 2) == Line { start: side(q1, 2).end, end: side(p, 2).end });
        assert(spec_bb_intersect(q1, line) || spec_bb_intersect(q0, line));
    } else {
        lemma_crosses_a_half(line, side(p, 3).start, side(p, 3).end, side(q1, 3).end);
        assert(side(q1, 3) == Line { start: side(p, 3).start, end: side(q1, 3).end });
        assert(side(q3, 3) == Line { start: side(q1, 3).end, end: side(p, 3).end });
        assert(spec_bb_intersect(q1, line) || spec_bb_intersect(q3, line));
    }
}

/// `c` is a well-formed child of a parent with cell `p`: strictly smaller and inside it.
pub open spec fn child_fits(c: QuadTree, p: QuadTreeCell) -> bool {
    &&& c.cell.extent < p.extent
    &&& p.left <= c.cell.left
    &&& p.top <= c.cell.top
    &&& c.cell.left + c.cell.extent <= p.left + p.extent
    &&& c.cell.top + c.cell.extent <= p.top + p.extent
    &&& tree_wf(c)
}

pub open spec fn children_ok(s: Seq<QuadTree>, p: QuadTreeCell) -> bool {
    &&& s.len() == 4
    &&& forall|i: int| 0 <= i < 4 ==> child_fits(#[trigger] s[i], p) && s[i].cell == quadrant(p, i)
}

pub open spec fn children_lines(s: Seq<QuadTree>) -> Set<Line> {
    tree_lines(s[0]) + tree_lines(s[1]) + tree_lines(s[2]) + tree_lines(s[3])
}

/// The `i`-th quadrant of `c` (top left, top right, bottom left, bottom right).
pub open spec fn quadrant(c: QuadTreeCell, i: int) -> QuadTreeCell {
    let h = c.extent / 2;
    QuadTreeCell {
        left: (if i == 1 || i == 3 { c.left + h } else { c.left as int }) as i64,
        top: (if i == 2 || i == 3 { c.top + h } else { c.top as int }) as i64,
        extent: h as i64,
    }
}

fn empty_leaf(cell: QuadTreeCell) -> (r: QuadTree)
    ensures
        r.cell == cell,
        r.state is Leaf,
        r.state->data.lines@ == Seq::<Line>::empty(),
{
    QuadTree { cell, state: QuadTreeState::Leaf { data: Box::new(QuadTreeLeafData { lines: Vec::new() }) } }
}

/// `new` is `old` after `QuadTree::insert` of `line`: same cell, no other line added, untouched
/// where the line misses the cell, split exactly when a full leaf large enough is hit, and a
/// leaf that is not split gets the line appended.
pub open spec fn inserted(old: QuadTree, new: QuadTree, line: Line) -> bool {
    &&& tree_wf(new)
    &&& new.cell == old.cell
    &&& held_where_reached(new, line)
    &&& forall|l: Line| held_where_reached(old, l) ==> #[trigger] held_where_reached(new, l)
    &&& tree_lines(new) <= tree_lines(old).insert(line)
    &&& spec_bb_intersect(cell_box(old.cell), line) ==> tree_lines(new) == tree_lines(old).insert(line)
    &&& !spec_bb_intersect(cell_box(old.cell), line) ==> new == old
    &&& spec_bb_intersect(cell_box(old.cell), line) ==> ((new.state is Parent) <==> (
        old.state is Parent || (old.state->data.lines@.len() >= MAX_FILL_DEGREE
            && old.cell.extent >= MIN_SPLIT_DIMENSION)))
    &&& spec_bb_intersect(cell_box(old.cell), line) && old.state is Leaf
        && !(old.state->data.lines@.len() >= MAX_FILL_DEGREE && old.cell.extent >= MIN_SPLIT_DIMENSION)
        ==> new.state->data.lines@ == old.state->data.lines@.push(line)
}

proof fn lemma_held_parent(t: QuadTree, l: Line)
    requires
        t.state is Parent,
        t.state->children@.len() == 4,
        forall|c: int| 0 <= c < 4 ==> #[trigger] held_where_reached(t.state->children@[c], l),
    ensures
        held_where_reached(t, l),
{
    match t.state {
        QuadTreeState::Parent { children } => {
            assert forall|i: int| 0 <= i < 4 implies held_where_reached(#[trigger] children@[i], l) by {
                assert(children@[i] == t.state->children@[i]);
            }
        },
        _ => {},
    }
}

/// A parent `t1` whose children came from `kids` by inserting `line`, where every line held in
/// `old` and touching its cell is held in each of `kids`: `line` is held in `t1`, and so is
/// every line held in `old`.
proof fn lemma_children_held(old: QuadTree, t1: QuadTree, kids: Seq<QuadTree>, line: Line)
    requires
        t1.cell == old.cell,
        t1.state is Parent,
        t1.state->children@.len() == 4,
        kids.len() == 4,
        spec_bb_intersect(cell_box(old.cell), line),
        forall|c: int| 0 <= c < 4 ==> inserted(kids[c], #[trigger] t1.state->children@[c], line),
        forall|l: Line| held_where_reached(old, l) && spec_bb_intersect(cell_box(old.cell), l)
            ==> forall|c: int| 0 <= c < 4 ==> #[trigger] held_where_reached(kids[c], l),
    ensures
        held_where_reached(t1, line),
        forall|l: Line| held_where_reached(old, l) ==> #[trigger] held_where_reached(t1, l),
{
    reveal_with_fuel(held_where_reached, 2);
    let r = t1.state->children@;
    assert forall|c: int| 0 <= c < 4 implies #[trigger] held_where_reached(r[c], line) by {
        assert(inserted(kids[c], r[c], line));
    }
    assert forall|l: Line| held_where_reached(old, l) implies #[trigger] held_where_reached(t1, l) by {
        if spec_bb_intersect(cell_box(t1.cell), l) {
            assert(spec_bb_intersect(cell_box(old.cell), l));
            assert forall|c: int| 0 <= c < 4 implies #[trigger] held_where_reached(r[c], l) by {
                assert(inserted(kids[c], r[c], line));
                assert(held_where_reached(kids[c], l));
                assert(held_where_reached(r[c], l));
            }
            lemma_held_parent(t1, l);
        }
    }
}

/// A power of two of at least two is even, and its half is a power of two.
proof fn lemma_half_pow2(e: int)
    requires
        is_pow2(e),
        e >= 2,
    ensures
        e % 2 == 0,
        is_pow2(e / 2),
{
}

/// Inserts `line` into each of the four children of a parent with cell `parent`.
fn insert_children(children: Vec<QuadTree>, parent: QuadTreeCell, line: &Line) -> (r: Vec<QuadTree>)
    requires
        cell_ok(parent),
        is_pow2(parent.extent as int),
        parent.extent >= 2,
        children_ok(children@, parent),
        small_line(*line),
    ensures
        children_ok(r@, parent),
        children_lines(r@) <= children_lines(children@).insert(*line),
        spec_bb_intersect(cell_box(parent), *line) ==> children_lines(r@) == children_lines(children@).insert(*line),
        forall|i: int| 0 <= i < 4 ==> (#[trigger] r@[i]).cell == children@[i].cell,
        forall|i: int| 0 <= i < 4 ==> inserted(children@[i], #[trigger] r@[i], *line),
    decreases parent.extent, 0int,
{
    let ghost old_children = children@;
    let mut children = children;
    let mut c3 = children.pop().unwrap();
    let mut c2 = children.pop().unwrap();
    let mut c1 = children.pop().unwrap();
    let mut c0 = children.pop().unwrap();
    assert(child_fits(old_children[0], parent) && child_fits(old_children[1], parent));
    assert(child_fits(old_children[2], parent) && child_fits(old_children[3], parent));
    c0.insert(line);
    c1.insert(line);
    c2.insert(line);
    c3.insert(line);
    let r = vec![c0, c1, c2, c3];
    assert(child_fits(r@[0], parent) && child_fits(r@[1], parent));
    assert(child_fits(r@[2], parent) && child_fits(r@[3], parent));
    proof {
        if spec_bb_intersect(cell_box(parent), *line) {
            lemma_half_pow2(parent.extent as int);
            lemma_quadrants_cover(parent, *line);
            let k = choose|k: int| 0 <= k < 4 && spec_bb_intersect(cell_box(#[trigger] quadrant(parent, k)), *line);
            assert(old_children[k].cell == quadrant(parent, k));
            assert(tree_lines(r@[k]).contains(*line));
            assert(children_lines(r@) =~= children_lines(old_children).insert(*line));
        }
    }
    r
}

impl QuadTreeCell {
    /// Four empty quadrants of this cell (a quad tree cell: its side a power of two), into which
    /// every line of `old_lines` (lines touching the cell) is inserted.
    pub fn split_up(&self, old_lines: &[Line]) -> (r: Vec<QuadTree>)
        requires
            cell_ok(*self),
            is_pow2(self.extent as int),
            self.extent >= 2,
            forall|i: int| 0 <= i < old_lines@.len() ==> small_line(#[trigger] old_lines@[i])
                && spec_bb_intersect(cell_box(*self), old_lines@[i]),
        ensures
            children_ok(r@, *self),
            children_lines(r@) == old_lines@.to_set(),
            forall|i: int| 0 <= i < 4 ==> (#[trigger] r@[i]).cell == quadrant(*self, i),
            forall|i: int, k: int| 0 <= i < 4 && 0 <= k < old_lines@.len() ==> held_where_reached(#[trigger] r@[i], #[trigger] old_lines@[k]),
        decreases self.extent, 1int,
    {
        let e = self.extent;
        let extent = e >> 1;
        assert(extent == e / 2) by (bit_vector)
            requires
                extent == e >> 1,
                e >= 0,
        ;
        proof {
            lemma_half_pow2(e as int);
        }
        let mut children = vec![
            empty_leaf(QuadTreeCell { left: self.left, top: self.top, extent }),
            empty_leaf(QuadTreeCell { left: self.left + extent, top: self.top, extent }),
            empty_leaf(QuadTreeCell { left: self.left, top: self.top + extent, extent }),
            empty_leaf(QuadTreeCell { left: self.left + extent, top: self.top + extent, extent }),
        ];
        assert forall|i: int| 0 <= i < 4 implies (#[trigger] children@[i]).cell == quadrant(*self, i)
            && tree_lines(children@[i]) =~= Set::<Line>::empty() && child_fits(children@[i], *self) by {
            assert(children@[i].state->data.lines@ =~= Seq::<Line>::empty());
        }
        assert(children_lines(children@) =~= Set::<Line>::empty());
        assert(old_lines@.take(0).to_set() =~= Set::<Line>::empty());
        let mut i: usize = 0;
        while i < old_lines.len()
            invariant
                0 <= i <= old_lines@.len(),
                cell_ok(*self),
                is_pow2(self.extent as int),
                self.extent >= 2,
                forall|k: int| 0 <= k < old_lines@.len() ==> small_line(#[trigger] old_lines@[k])
                    && spec_bb_intersect(cell_box(*self), old_lines@[k]),
                children_ok(children@, *self),
                children_lines(children@) == old_lines@.take(i as int).to_set(),
                forall|k: int| 0 <= k < 4 ==> (#[trigger] children@[k]).cell == quadrant(*self, k),
                forall|c: int, k: int| 0 <= c < 4 && 0 <= k < i ==> held_where_reached(#[trigger] children@[c], #[trigger] old_lines@[k]),
            decreases old_lines@.len() - i,
        {
            let ghost before = children@;
            children = insert_children(children, *self, &old_lines[i]);
            assert forall|c: int, k: int| 0 <= c < 4 && 0 <= k < i + 1 implies held_where_reached(#[trigger] children@[c], #[trigger] old_lines@[k]) by {
                assert(inserted(before[c], children@[c], old_lines@[i as int]));
                if k < i {
                    assert(held_where_reached(before[c], old_lines@[k]));
                }
            }
            assert(old_lines@.take(i as int).to_set().insert(old_lines@[i as int]) =~= old_lines@.take(i + 1).to_set()) by {
                assert(old_lines@.take(i + 1) =~= old_lines@.take(i as int).push(old_lines@[i as int]));
                old_lines@.take(i as int).lemma_push_to_set_commute(old_lines@[i as int]);
            }
            i = i + 1;
        }
        assert(old_lines@.take(i as int) =~= old_lines@);
        children
    }
}

impl QuadTree {
    /// Stores `line` in every leaf whose cell it touches; a full leaf that is large enough is
    /// split into quadrants first.
    pub fn insert(&mut self, line: &Line)
        requires
            tree_wf(*old(self)),
            small_line(*line),
        ensures
            tree_wf(*final(self)),
            final(self).cell == old(self).cell,
            held_where_reached(*final(self), *line),
            forall|l: Line| held_where_reached(*old(self), l) ==> #[trigger] held_where_reached(*final(self), l),
            tree_lines(*final(self)) <= tree_lines(*old(self)).insert(*line),
            spec_bb_intersect(cell_box(old(self).cell), *line) ==> tree_lines(*final(self)) == tree_lines(*old(self)).insert(*line),
            !spec_bb_intersect(cell_box(old(self).cell), *line) ==> *final(self) == *old(self),
            spec_bb_intersect(cell_box(old(self).cell), *line) ==> ((final(self).state is Parent) <==> (
                old(self).state is Parent || (old(self).state->data.lines@.len() >= MAX_FILL_DEGREE
                    && old(self).cell.extent >= MIN_SPLIT_DIMENSION))),
            spec_bb_intersect(cell_box(old(self).cell), *line) && old(self).state is Leaf
                && !(old(self).state->data.lines@.len() >= MAX_FILL_DEGREE && old(self).cell.extent >= MIN_SPLIT_DIMENSION)
                ==> final(self).state->data.lines@ == old(self).state->data.lines@.push(*line),
        decreases old(self).cell.extent, 2int,
    {
        proof {
            lemma_bb_intersect_defined(cell_box(self.cell), *line);
        }
        if !self.cell.intersects(line) {
            return;
        }
        let ghost old_tree = *self;
        let ghost mut kids0: Seq<QuadTree> = Seq::empty();
        let mut state = QuadTreeState::Leaf { data: Box::new(QuadTreeLeafData { lines: Vec::new() }) };
        std::mem::swap(&mut state, &mut self.state);
        let cell = self.cell;
        let new_state = match state {
            QuadTreeState::Leaf { data } => {
                let mut lines = data.lines;
                if lines.len() >= 10 && cell.extent >= MIN_SPLIT_DIMENSION {
                    let split = cell.split_up(lines.as_slice());
                    proof {
                        kids0 = split@;
                        assert forall|l: Line| held_where_reached(old_tree, l) && spec_bb_intersect(cell_box(cell), l)
                            implies forall|c: int| 0 <= c < 4 ==> #[trigger] held_where_reached(kids0[c], l) by {
                            assert(lines@.contains(l));
                            let k = choose|k: int| 0 <= k < lines@.len() && lines@[k] == l;
                            assert forall|c: int| 0 <= c < 4 implies #[trigger] held_where_reached(kids0[c], l) by {
                                assert(held_where_reached(split@[c], lines@[k]));
                            }
                        }
                    }
                    let children = insert_children(split, cell, line);
                    proof {
                        assert forall|i: int| 0 <= i < 4 implies child_fits(#[trigger] children@[i], cell) by {}
                        lemma_children_held(old_tree, QuadTree { cell, state: QuadTreeState::Parent { children } }, kids0, *line);
                    }
                    QuadTreeState::Parent { children }
                } else {
                    lines.push(*line);
                    proof {
                        assert(lines@.to_set() =~= old_tree.state->data.lines@.to_set().insert(*line)) by {
                            old_tree.state->data.lines@.lemma_push_to_set_commute(*line);
                        }
                        assert(lines@[lines@.len() - 1] == *line);
                        assert forall|l: Line| held_where_reached(old_tree, l) implies lines@.contains(l) || !spec_bb_intersect(cell_box(cell), l) by {
                            if spec_bb_intersect(cell_box(cell), l) {
                                let k = choose|k: int| 0 <= k < old_tree.state->data.lines@.len() && old_tree.state->data.lines@[k] == l;
                                assert(lines@[k] == l);
                            }
                        }
                    }
                    QuadTreeState::Leaf { data: Box::new(QuadTreeLeafData { lines }) }
                }
            },
            QuadTreeState::Parent { children } => {
                proof {
                    kids0 = children@;
                }
                let children = insert_children(children, cell, line);
                proof {
                    lemma_children_held(old_tree, QuadTree { cell, state: QuadTreeState::Parent { children } }, kids0, *line);
                }
                QuadTreeState::Parent { children }
            },
        };
        self.state = new_state;
        proof {
            if self.state is Parent {
                assert(children_ok(self.state->children@, cell));
            }
            assert(held_where_reached(*self, *line));
            assert forall|l: Line| held_where_reached(old_tree, l) implies #[trigger] held_where_reached(*self, l) by {}
            assert forall|l: Line| #[trigger] tree_lines(*self).contains(l) implies held_where_reached(*self, l) by {
                if l != *line {
                    assert(tree_lines(old_tree).contains(l));
                }
            }
        }
    }

    /// Whether `bounding_box` overlaps the tree's cell and touches one of the lines stored in a
    /// leaf that it overlaps.
    pub fn intersects_any_line(&self, bounding_box: &BoundingBox) -> (r: bool)
        requires
            tree_wf(*self),
            small_box(*bounding_box),
        ensures
            r == spec_query(*self, *bounding_box),
        decreases self.cell.extent,
    {
        if !self.cell.overlaps(bounding_box) {
            return false;
        }
        match &self.state {
            QuadTreeState::Leaf { data } => {
                let lines = &data.lines;
                let mut i: usize = 0;
                while i < lines.len()
                    invariant
                        0 <= i <= lines@.len(),
                        self.state is Leaf,
                        spec_bb_overlaps(cell_box(self.cell), *bounding_box),
                        lines@ == self.state->data.lines@,
                        small_box(*bounding_box),
                        forall|k: int| 0 <= k < lines@.len() ==> small_line(#[trigger] lines@[k]),
                        forall|k: int| 0 <= k < i ==> !spec_bb_intersect(*bounding_box, #[trigger] lines@[k]),
                    decreases lines@.len() - i,
                {
                    proof {
                        lemma_bb_intersect_defined(*bounding_box, lines@[i as int]);
                    }
                    if bounding_box.intersect(&lines[i]) {
                        assert(spec_bb_intersect(*bounding_box, self.state->data.lines@[i as int]));
                        return true;
                    }
                    i = i + 1;
                }
                false
            },
            QuadTreeState::Parent { children } => {
                let mut i: usize = 0;
                while i < children.len()
                    invariant
                        0 <= i <= children@.len(),
                        self.state is Parent,
                        spec_bb_overlaps(cell_box(self.cell), *bounding_box),
                        children@ == self.state->children@,
                        children_ok(children@, self.cell),
                        small_box(*bounding_box),
                        forall|k: int| 0 <= k < i ==> !spec_query(#[trigger] children@[k], *bounding_box),
                    decreases children@.len() - i,
                {
                    assert(child_fits(children@[i as int], self.cell));
                    if children[i].intersects_any_line(bounding_box) {
                        assert(spec_query(self.state->children@[i as int], *bounding_box));
                        return true;
                    }
                    i = i + 1;
                }
                false
            },
        }
    }
}

/// A positive answer of `intersects_any_line` is backed by a stored line that the box touches.
pub proof fn lemma_query_finds_stored_line(t: QuadTree, bb: BoundingBox)
    requires
        tree_wf(t),
        spec_query(t, bb),
    ensures
        exists|l: Line| tree_lines(t).contains(l) && spec_bb_intersect(bb, l),
    decreases t,
{
    match t.state {
        QuadTreeState::Leaf { data } => {
            let i = choose|i: int| 0 <= i < data.lines@.len() && spec_bb_intersect(bb, #[trigger] data.lines@[i]);
            assert(data.lines@.to_set().contains(data.lines@[i]));
        },
        QuadTreeState::Parent { children } => {
            let i = choose|i: int| 0 <= i < children@.len() && spec_query(#[trigger] children@[i], bb);
            lemma_query_finds_stored_line(children@[i], bb);
            let l = choose|l: Line| tree_lines(children@[i]).contains(l) && spec_bb_intersect(bb, l);
            assert(tree_lines(t).contains(l));
        },
    }
}

/// The quadrant of a cell that holds `p` and overlaps `bb`: on each axis the half that `p` lies
/// in, and where `p` lies on the middle line, the half that `bb` reaches into.
pub open spec fn quadrant_toward(c: QuadTreeCell, p: Point, bb: BoundingBox) -> int {
    let h = c.extent / 2;
    let right = p.x > c.left + h || (p.x == c.left + h && bb.right > c.left + h);
    let below = p.y > c.top + h || (p.y == c.top + h && bb.bottom > c.top + h);
    (if right { 1int } else { 0int }) + (if below { 2int } else { 0int })
}

proof fn lemma_held_query(t: QuadTree, l: Line, bb: BoundingBox, p: Point)
    requires
        tree_wf(t),
        held_where_reached(t, l),
        p == l.start || p == l.end,
        bb.left < bb.right,
        bb.top < bb.bottom,
        spec_bb_contains(bb, p),
        spec_bb_contains(cell_box(t.cell), p),
        spec_bb_overlaps(cell_box(t.cell), bb),
    ensures
        spec_query(t, bb),
    decreases t,
{
    assert(spec_bb_intersect(cell_box(t.cell), l));
    assert(spec_bb_intersect(bb, l));
    match t.state {
        QuadTreeState::Leaf { data } => {
            assert(data.lines@.contains(l));
            let k = choose|k: int| 0 <= k < data.lines@.len() && data.lines@[k] == l;
            assert(spec_bb_intersect(bb, data.lines@[k]));
        },
        QuadTreeState::Parent { children } => {
            let q = quadrant_toward(t.cell, p, bb);
            let c = children@[q];
            lemma_half_pow2(t.cell.extent as int);
            assert(c.cell == quadrant(t.cell, q));
            assert(tree_wf(c));
            assert(held_where_reached(c, l));
            assert(spec_bb_contains(cell_box(c.cell), p));
            assert(spec_bb_overlaps(cell_box(c.cell), bb));
            lemma_held_query(c, l, bb, p);
            assert(spec_query(children@[q], bb));
        },
    }
}

/// A query finds a stored line that has an end inside the box, where that end lies in the tree's
/// cell and the box is not flat and overlaps the cell: the query reaches a leaf that holds the
/// line.
pub proof fn lemma_query_finds_line_end(t: QuadTree, l: Line, bb: BoundingBox, p: Point)
    requires
        tree_wf(t),
        tree_lines(t).contains(l),
        spec_bb_overlaps(cell_box(t.cell), bb),
        p == l.start || p == l.end,
        bb.left < bb.right,
        bb.top < bb.bottom,
        spec_bb_contains(bb, p),
        spec_bb_contains(cell_box(t.cell), p),
    ensures
        spec_query(t, bb),
{
    assert(held_where_reached(t, l));
    lemma_held_query(t, l, bb, p);
}

} // verus!
