//! A uniform grid of cells that stores weighted line segments, to score how much a text box would
//! collide with lines already drawn.
use vstd::prelude::*;

verus! {

/// Edge length of a grid cell.
pub const CELL_SIZE: u16 = 100;

#[derive(Debug, Clone, Copy, PartialEq, Eq, Structural)]
pub struct Point {
    pub x: i32,
    pub y: i32,
}

#[derive(Debug, Clone, Copy, PartialEq, Eq, Structural)]
pub struct Line {
    pub start: Point,
    pub end: Point,
}

#[derive(Debug, Clone, Copy, PartialEq, Eq, Structural)]
pub struct BoundingBox {
    pub left: i32,
    pub right: i32,
    pub top: i32,
    pub bottom: i32,
}

/// A line with its weight; higher is worse.
#[derive(Debug, Clone, Copy)]
pub struct WeightedLine {
    pub line: Line,
    pub weight: u32,
}

/// The lines that pass through one cell.
#[derive(Debug, Clone)]
pub struct CellData {
    pub lines: Vec<WeightedLine>,
}

/// The grid. Cell `(column x, row y)` is stored at index `y * num_cells_vertically + x`.
pub struct Grid {
    pub cells: Vec<CellData>,
    pub num_cells_vertically: u16,
    pub num_cells_horizontally: u16,
}

/// The point with the (wrapping) `i32` conversions of the coordinates.
pub open spec fn spec_point_from(p: (usize, usize)) -> Point {
    Point { x: p.0 as i32, y: p.1 as i32 }
}

impl Point {
    /// The point at `(x, y)`, each coordinate converted to `i32` as `as` does.
    pub fn from(p: &(usize, usize)) -> (r: Point)
        ensures
            r == spec_point_from(*p),
    {
        Point { x: p.0 as i32, y: p.1 as i32 }
    }
}

impl Line {
    /// The line from `start` to `end`.
    pub fn new(start: &(usize, usize), end: &(usize, usize)) -> (r: Line)
        ensures
            r == (Line { start: spec_point_from(*start), end: spec_point_from(*end) }),
    {
        Line { start: Point::from(start), end: Point::from(end) }
    }
}

pub open spec fn fits_i32(v: int) -> bool {
    i32::MIN <= v <= i32::MAX
}

/// Twice the signed area of the triangle `a b c`: positive for a counter-clockwise turn in a
/// y-up frame, zero when the points are collinear.
pub open spec fn spec_orientation(a: Point, b: Point, c: Point) -> int {
    (b.x - a.x) * (c.y - a.y) - (b.y - a.y) * (c.x - a.x)
}

/// Every intermediate value of the orientation computation fits in `i32`.
pub open spec fn orientation_defined(a: Point, b: Point, c: Point) -> bool {
    &&& fits_i32(b.x - a.x)
    &&& fits_i32(b.y - a.y)
    &&& fits_i32(c.x - a.x)
    &&& fits_i32(c.y - a.y)
    &&& fits_i32((b.x - a.x) * (c.y - a.y))
    &&& fits_i32((b.y - a.y) * (c.x - a.x))
    &&& fits_i32(spec_orientation(a, b, c))
}

pub fn orientation(a: Point, b: Point, c: Point) -> (r: i32)
    requires
        orientation_defined(a, b, c),
    ensures
        r == spec_orientation(a, b, c),
{
    let bax = b.x - a.x;
    let bay = b.y - a.y;
    let cax = c.x - a.x;
    let cay = c.y - a.y;
    bax * cay - bay * cax
}

pub open spec fn min_i(a: i32, b: i32) -> i32 {
    if a < b { a } else { b }
}

pub open spec fn max_i(a: i32, b: i32) -> i32 {
    if a > b { a } else { b }
}

/// `p` lies on the closed segment from `a` to `b`.
pub open spec fn spec_on_segment(a: Point, b: Point, p: Point) -> bool {
    &&& spec_orientation(a, b, p) == 0
    &&& min_i(a.x, b.x) <= p.x <= max_i(a.x, b.x)
    &&& min_i(a.y, b.y) <= p.y <= max_i(a.y, b.y)
}

/// Whether `p` lies on the segment `a b`; `o` receives the orientation of `a b p`.
pub fn on_segment(a: Point, b: Point, p: Point, o: &mut i32) -> (r: bool)
    requires
        orientation_defined(a, b, p),
    ensures
        *final(o) == spec_orientation(a, b, p),
        r == spec_on_segment(a, b, p),
{
    *o = orientation(a, b, p);
    let min_x = if a.x < b.x { a.x } else { b.x };
    let max_x = if a.x > b.x { a.x } else { b.x };
    let min_y = if a.y < b.y { a.y } else { b.y };
    let max_y = if a.y > b.y { a.y } else { b.y };
    *o == 0 && p.x >= min_x && p.x <= max_x && p.y >= min_y && p.y <= max_y
}

/// Whether the closed segments `a b` and `c d` share a point: an end of one lies on the other,
/// or each segment's ends lie strictly on different sides of the other segment's line, where a
/// collinear end counts as the non-positive side.
pub open spec fn spec_segments_intersect(l1: Line, l2: Line) -> bool {
    let (a, b, c, d) = (l1.start, l1.end, l2.start, l2.end);
    ||| spec_on_segment(a, b, c)
    ||| spec_on_segment(a, b, d)
    ||| spec_on_segment(c, d, a)
    ||| spec_on_segment(c, d, b)
    ||| ((spec_orientation(a, b, c) > 0) != (spec_orientation(a, b, d) > 0)
        && (spec_orientation(c, d, a) > 0) != (spec_orientation(c, d, b) > 0))
}

/// No `i32` overflow happens in the orientations that `segments_intersect` computes (it stops at
/// the first end found on the other segment).
pub open spec fn segments_intersect_defined(l1: Line, l2: Line) -> bool {
    let (a, b, c, d) = (l1.start, l1.end, l2.start, l2.end);
    orientation_defined(a, b, c) && (spec_on_segment(a, b, c) || (orientation_defined(a, b, d)
        && (spec_on_segment(a, b, d) || (orientation_defined(c, d, a)
        && (spec_on_segment(c, d, a) || orientation_defined(c, d, b))))))
}

pub fn segments_intersect(l1: Line, l2: Line) -> (r: bool)
    requires
        segments_intersect_defined(l1, l2),
    ensures
        r == spec_segments_intersect(l1, l2),
{
    let (a, b, c, d) = (l1.start, l1.end, l2.start, l2.end);
    let mut o1: i32 = 0;
    let mut o2: i32 = 0;
    let mut o3: i32 = 0;
    let mut o4: i32 = 0;
    if on_segment(a, b, c, &mut o1) {
        return true;
    }
    if on_segment(a, b, d, &mut o2) {
        return true;
    }
    if on_segment(c, d, a, &mut o3) {
        return true;
    }
    if on_segment(c, d, b, &mut o4) {
        return true;
    }
    (o1 > 0) != (o2 > 0) && (o3 > 0) != (o4 > 0)
}

/// Whether two segments intersect does not depend on which one is named first.
pub proof fn lemma_segments_intersect_symmetric(l1: Line, l2: Line)
    ensures
        spec_segments_intersect(l1, l2) == spec_segments_intersect(l2, l1),
{
}

/// The corners of a box, as `segments_intersect` uses them.
pub open spec fn corner_bl(bb: BoundingBox) -> Point { Point { x: bb.left, y: bb.bottom } }
pub open spec fn corner_br(bb: BoundingBox) -> Point { Point { x: bb.right, y: bb.bottom } }
pub open spec fn corner_tr(bb: BoundingBox) -> Point { Point { x: bb.right, y: bb.top } }
pub open spec fn corner_tl(bb: BoundingBox) -> Point { Point { x: bb.left, y: bb.top } }

/// `p` lies in the closed box.
pub open spec fn spec_bb_contains(bb: BoundingBox, p: Point) -> bool {
    bb.left <= p.x <= bb.right && bb.top <= p.y <= bb.bottom
}

/// The line touches the closed box: an end lies inside, or it crosses one of the four sides.
pub open spec fn spec_bb_intersect(bb: BoundingBox, line: Line) -> bool {
    ||| spec_bb_contains(bb, line.start)
    ||| spec_bb_contains(bb, line.end)
    ||| spec_segments_intersect(line, Line { start: corner_bl(bb), end: corner_br(bb) })
    ||| spec_segments_intersect(line, Line { start: corner_bl(bb), end: corner_tl(bb) })
    ||| spec_segments_intersect(line, Line { start: corner_tr(bb), end: corner_tl(bb) })
    ||| spec_segments_intersect(line, Line { start: corner_tr(bb), end: corner_br(bb) })
}

/// No overflow in the side tests of `BoundingBox::intersect`, which stops at the first hit.
pub open spec fn bb_intersect_defined(bb: BoundingBox, line: Line) -> bool {
    let s1 = Line { start: corner_bl(bb), end: corner_br(bb) };
    let s2 = Line { start: corner_bl(bb), end: corner_tl(bb) };
    let s3 = Line { start: corner_tr(bb), end: corner_tl(bb) };
    let s4 = Line { start: corner_tr(bb), end: corner_br(bb) };
    ||| spec_bb_contains(bb, line.start)
    ||| spec_bb_contains(bb, line.end)
    ||| (segments_intersect_defined(line, s1) && (spec_segments_intersect(line, s1)
        || (segments_intersect_defined(line, s2) && (spec_segments_intersect(line, s2)
        || (segments_intersect_defined(line, s3) && (spec_segments_intersect(line, s3)
        || segments_intersect_defined(line, s4)))))))
}

/// The open boxes overlap.
pub open spec fn spec_bb_overlaps(a: BoundingBox, b: BoundingBox) -> bool {
    a.left < b.right && a.right > b.left && a.top < b.bottom && a.bottom > b.top
}

impl BoundingBox {
    pub fn intersect(&self, line: &Line) -> (r: bool)
        requires
            bb_intersect_defined(*self, *line),
        ensures
            r == spec_bb_intersect(*self, *line),
    {
        if self.contains(line.start) || self.contains(line.end) {
            return true;
        }
        let bl = Point { x: self.left, y: self.bottom };
        let br = Point { x: self.right, y: self.bottom };
        let tr = Point { x: self.right, y: self.top };
        let tl = Point { x: self.left, y: self.top };
        segments_intersect(*line, Line { start: bl, end: br })
            || segments_intersect(*line, Line { start: bl, end: tl })
            || segments_intersect(*line, Line { start: tr, end: tl })
            || segments_intersect(*line, Line { start: tr, end: br })
    }

    pub fn contains(&self, p: Point) -> (r: bool)
        ensures
            r == spec_bb_contains(*self, p),
    {
        self.left <= p.x && p.x <= self.right && self.top <= p.y && p.y <= self.bottom
    }

    pub fn overlaps(&self, other: &BoundingBox) -> (r: bool)
        ensures
            r == spec_bb_overlaps(*self, *other),
    {
        self.left < other.right && self.right > other.left && self.top < other.bottom && self.bottom > other.top
    }
}

/// Overlap of open boxes does not depend on the order of the boxes.
pub proof fn lemma_overlaps_symmetric(a: BoundingBox, b: BoundingBox)
    ensures
        spec_bb_overlaps(a, b) == spec_bb_overlaps(b, a),
{
}


/// Cell indices of column `x`, rows `top..=bottom`, top to bottom (wrapping to `u16`).
pub open spec fn col_indices(x: int, top: int, bottom: int, rw: int) -> Seq<u16> {
    Seq::new(if bottom >= top { (bottom - top + 1) as nat } else { 0 }, |j: int| ((top + j) * rw + x) as u16)
}

/// Cell indices of columns `left..x_end`, column by column.
pub open spec fn cols_indices(left: int, x_end: int, top: int, bottom: int, rw: int) -> Seq<u16>
    decreases x_end - left,
{
    if x_end <= left {
        Seq::empty()
    } else {
        cols_indices(left, x_end - 1, top, bottom, rw) + col_indices(x_end - 1, top, bottom, rw)
    }
}

/// The cell coordinate of a box border, as `iterate_indices` computes it.
pub open spec fn cell_of(v: i32) -> int {
    ((v as u16) / CELL_SIZE) as int
}

/// The cell indices that `iterate_indices` visits for `bb` with row width `rw`.
pub open spec fn spec_box_indices(bb: BoundingBox, rw: u16) -> Seq<u16> {
    cols_indices(cell_of(bb.left), cell_of(bb.right) + 1, cell_of(bb.top), cell_of(bb.bottom), rw as int)
}

/// No index computed by `iterate_indices` overflows `u16`.
pub open spec fn box_indices_fit(bb: BoundingBox, rw: u16) -> bool {
    cell_of(bb.left) <= cell_of(bb.right) && cell_of(bb.top) <= cell_of(bb.bottom)
        ==> cell_of(bb.bottom) * rw + cell_of(bb.right) <= u16::MAX
}

/// Sum of the weights of the lines that touch `bb`.
pub open spec fn lines_weight(lines: Seq<WeightedLine>, bb: BoundingBox) -> int
    decreases lines.len(),
{
    if lines.len() == 0 {
        0
    } else {
        lines_weight(lines.drop_last(), bb) + (if spec_bb_intersect(bb, lines.last().line) { lines.last().weight as int } else { 0 })
    }
}

/// Sum over the visited cells (a cell visited twice counts twice) of the weights of their lines
/// that touch `bb`.
pub open spec fn cells_weight(cells: Seq<CellData>, idxs: Seq<u16>, bb: BoundingBox) -> int
    decreases idxs.len(),
{
    if idxs.len() == 0 {
        0
    } else {
        cells_weight(cells, idxs.drop_last(), bb) + lines_weight(cells[idxs.last() as int].lines@, bb)
    }
}

/// The box with top left corner `(x, y)` and the given size, converted to `i32` as `as` does.
pub open spec fn spec_box(xy: (usize, usize), wh: (usize, usize)) -> BoundingBox {
    BoundingBox {
        left: xy.0 as i32,
        right: (xy.0 + wh.0) as i32,
        top: xy.1 as i32,
        bottom: (xy.1 + wh.1) as i32,
    }
}

/// The lines after appending `wl` once for each occurrence of cell `c` in `idxs`.
pub open spec fn cell_lines_after(lines: Seq<WeightedLine>, c: int, idxs: Seq<usize>, wl: WeightedLine) -> Seq<WeightedLine>
    decreases idxs.len(),
{
    if idxs.len() == 0 {
        lines
    } else {
        let prev = cell_lines_after(lines, c, idxs.drop_last(), wl);
        if idxs.last() == c { prev.push(wl) } else { prev }
    }
}

/// `lines_weight` of a sequence with one more line.
proof fn lemma_lines_weight_push(lines: Seq<WeightedLine>, wl: WeightedLine, bb: BoundingBox)
    ensures
        lines_weight(lines.push(wl), bb) == lines_weight(lines, bb) + (if spec_bb_intersect(bb, wl.line) { wl.weight as int } else { 0 }),
{
    assert(lines.push(wl).drop_last() == lines);
}

proof fn lemma_lines_weight_nonneg(lines: Seq<WeightedLine>, bb: BoundingBox)
    ensures
        lines_weight(lines, bb) >= 0,
    decreases lines.len(),
{
    if lines.len() > 0 {
        lemma_lines_weight_nonneg(lines.drop_last(), bb);
    }
}

pub(crate) proof fn lemma_cells_weight_prefix(cells: Seq<CellData>, idxs: Seq<u16>, bb: BoundingBox, k: int)
    requires
        0 <= k <= idxs.len(),
    ensures
        0 <= cells_weight(cells, idxs.take(k), bb) <= cells_weight(cells, idxs, bb),
    decreases idxs.len(),
{
    if idxs.len() > 0 {
        lemma_lines_weight_nonneg(cells[idxs.last() as int].lines@, bb);
        if k == idxs.len() {
            assert(idxs.take(k) == idxs);
            lemma_cells_weight_prefix(cells, idxs.drop_last(), bb, k - 1);
            assert(idxs.drop_last().take(k - 1) == idxs.take(k).drop_last());
        } else {
            lemma_cells_weight_prefix(cells, idxs.drop_last(), bb, k);
            assert(idxs.drop_last().take(k) == idxs.take(k));
        }
    }
}

impl Grid {
    /// What `box_intersection_weight` needs: the visited indices fit `u16` and lie in the grid,
    /// the side tests of every line in a visited cell stay within `i32`, and the sum fits `u32`.
    pub open spec fn box_query_ok(&self, xy: (usize, usize), wh: (usize, usize)) -> bool {
        let bb = spec_box(xy, wh);
        let idxs = spec_box_indices(bb, self.num_cells_vertically);
        &&& xy.0 + wh.0 <= usize::MAX
        &&& xy.1 + wh.1 <= usize::MAX
        &&& box_indices_fit(bb, self.num_cells_vertically)
        &&& forall|k: int| 0 <= k < idxs.len() ==> (#[trigger] idxs[k]) < self.cells@.len()
        &&& forall|k: int, j: int| 0 <= k < idxs.len() && 0 <= j < self.cells@[idxs[k] as int].lines@.len()
            ==> bb_intersect_defined(bb, #[trigger] self.cells@[idxs[k] as int].lines@[j].line)
        &&& cells_weight(self.cells@, idxs, bb) <= u32::MAX
    }

    /// The weight of the lines that touch the box at `xy` of size `wh`, summed over the visited
    /// cells.
    pub open spec fn spec_box_weight(&self, xy: (usize, usize), wh: (usize, usize)) -> int {
        let bb = spec_box(xy, wh);
        cells_weight(self.cells@, spec_box_indices(bb, self.num_cells_vertically), bb)
    }

    /// An empty grid covering at least `min_width` by `min_height`.
    pub fn new(min_width: usize, min_height: usize) -> (r: Grid)
        requires
            (min_width as u16) + CELL_SIZE <= u16::MAX,
            (min_height as u16) + CELL_SIZE <= u16::MAX,
            (((min_width as u16) + CELL_SIZE - 1) / CELL_SIZE as int) * (((min_height as u16) + CELL_SIZE - 1) / CELL_SIZE as int) <= u16::MAX,
        ensures
            r.num_cells_horizontally == ((min_width as u16) + CELL_SIZE - 1) / CELL_SIZE as int,
            r.num_cells_vertically == ((min_height as u16) + CELL_SIZE - 1) / CELL_SIZE as int,
            r.cells@.len() == r.num_cells_vertically * r.num_cells_horizontally,
            forall|i: int| 0 <= i < r.cells@.len() ==> (#[trigger] r.cells@[i]).lines@.len() == 0,
    {
        let w16: u16 = min_width as u16;
        let h16: u16 = min_height as u16;
        let num_cells_horizontally: u16 = (w16 + CELL_SIZE - 1) / CELL_SIZE;
        let num_cells_vertically: u16 = (h16 + CELL_SIZE - 1) / CELL_SIZE;
        proof {
            assert(num_cells_vertically * num_cells_horizontally == num_cells_horizontally * num_cells_vertically)
                by (nonlinear_arith);
        }
        let n: u16 = num_cells_vertically * num_cells_horizontally;
        let mut cells: Vec<CellData> = Vec::new();
        let mut i: u16 = 0;
        while i < n
            invariant
                i <= n,
                cells@.len() == i,
                forall|k: int| 0 <= k < i ==> (#[trigger] cells@[k]).lines@.len() == 0,
            decreases n - i,
        {
            cells.push(CellData { lines: Vec::new() });
            i = i + 1;
        }
        Grid { cells, num_cells_vertically, num_cells_horizontally }
    }

    /// Appends `line` with `weight` to each cell listed in `cells`, once per listing.
    pub fn insert_into_cells(&mut self, line: &Line, weight: u32, cells: &[usize])
        requires
            forall|k: int| 0 <= k < cells@.len() ==> (#[trigger] cells@[k]) < old(self).cells@.len(),
        ensures
            final(self).cells@.len() == old(self).cells@.len(),
            final(self).num_cells_vertically == old(self).num_cells_vertically,
            final(self).num_cells_horizontally == old(self).num_cells_horizontally,
            forall|c: int| 0 <= c < old(self).cells@.len() ==> (#[trigger] final(self).cells@[c]).lines@
                == cell_lines_after(old(self).cells@[c].lines@, c, cells@, WeightedLine { line: *line, weight }),
    {
        let wl = WeightedLine { line: *line, weight };
        let mut i: usize = 0;
        while i < cells.len()
            invariant
                i <= cells@.len(),
                self.cells@.len() == old(self).cells@.len(),
                self.num_cells_vertically == old(self).num_cells_vertically,
                self.num_cells_horizontally == old(self).num_cells_horizontally,
                wl == (WeightedLine { line: *line, weight }),
                forall|k: int| 0 <= k < cells@.len() ==> (#[trigger] cells@[k]) < old(self).cells@.len(),
                forall|c: int| 0 <= c < old(self).cells@.len() ==> (#[trigger] self.cells@[c]).lines@
                    == cell_lines_after(old(self).cells@[c].lines@, c, cells@.take(i as int), wl),
            decreases cells@.len() - i,
        {
            let index = cells[i];
            self.cells[index].lines.push(wl);
            proof {
                assert(cells@.take(i + 1).drop_last() == cells@.take(i as int));
            }
            i = i + 1;
        }
        assert(cells@.take(cells@.len() as int) == cells@);
    }

    /// The cell indices under `bb`: columns `left / CELL_SIZE ..= right / CELL_SIZE`, each with
    /// rows `top / CELL_SIZE ..= bottom / CELL_SIZE`, index `row * num_cells_vertically + column`.
    pub fn iterate_indices(&self, bounding_box: &BoundingBox) -> (r: Vec<u16>)
        requires
            box_indices_fit(*bounding_box, self.num_cells_vertically),
        ensures
            r@ == spec_box_indices(*bounding_box, self.num_cells_vertically),
    {
        let left: u16 = (bounding_box.left as u16) / CELL_SIZE;
        let right: u16 = (bounding_box.right as u16) / CELL_SIZE;
        let top: u16 = (bounding_box.top as u16) / CELL_SIZE;
        let bottom: u16 = (bounding_box.bottom as u16) / CELL_SIZE;
        let row_width = self.num_cells_vertically;
        let ghost rw = row_width as int;
        let mut out: Vec<u16> = Vec::new();
        let mut x: u32 = left as u32;
        assert(out@ == cols_indices(left as int, x as int, top as int, bottom as int, rw));
        while x <= right as u32
            invariant
                left as int <= x,
                x <= right as int + 1 || x == left,
                box_indices_fit(*bounding_box, row_width),
                left == cell_of(bounding_box.left), right == cell_of(bounding_box.right),
                top == cell_of(bounding_box.top), bottom == cell_of(bounding_box.bottom),
                rw == row_width,
                out@ == cols_indices(left as int, x as int, top as int, bottom as int, rw),
            decreases right as int + 1 - x,
        {
            let mut y: u32 = top as u32;
            let ghost before = out@;
            while y <= bottom as u32
                invariant
                    left as int <= x <= right as int,
                    top as int <= y,
                    y <= bottom as int + 1 || y == top,
                    box_indices_fit(*bounding_box, row_width),
                    left == cell_of(bounding_box.left), right == cell_of(bounding_box.right),
                    top == cell_of(bounding_box.top), bottom == cell_of(bounding_box.bottom),
                    rw == row_width,
                    before == cols_indices(left as int, x as int, top as int, bottom as int, rw),
                    out@ == before + col_indices(x as int, top as int, bottom as int, rw).take(y - top),
                decreases bottom as int + 1 - y,
            {
                proof {
                    assert(y * rw + x <= bottom * rw + right) by (nonlinear_arith)
                        requires y <= bottom, x <= right, rw >= 0;
                }
                let idx: u16 = (y as u16) * row_width + (x as u16);
                out.push(idx);
                proof {
                    let col = col_indices(x as int, top as int, bottom as int, rw);
                    assert(col.take(y + 1 - top) == col.take(y - top).push(col[y - top]));
                    assert(col[y - top] == idx);
                }
                y = y + 1;
            }
            proof {
                let col = col_indices(x as int, top as int, bottom as int, rw);
                if top <= bottom {
                    assert(col.take(y - top) == col);
                } else {
                    assert(col.len() == 0);
                }
                assert(cols_indices(left as int, x + 1, top as int, bottom as int, rw)
                    == cols_indices(left as int, x as int, top as int, bottom as int, rw) + col);
            }
            x = x + 1;
        }
        proof {
            if left > right {
                assert(cols_indices(left as int, x as int, top as int, bottom as int, rw).len() == 0);
                assert(cols_indices(left as int, right + 1, top as int, bottom as int, rw).len() == 0);
            }
        }
        out
    }

    /// Sum of the weights of the stored lines that touch the box at `(x, y)` of size
    /// `(width, height)`; a line stored in several visited cells counts once per cell.
    pub fn box_intersection_weight(&self, xy: (usize, usize), wh: (usize, usize)) -> (r: u32)
        requires
            self.box_query_ok(xy, wh),
        ensures
            r == self.spec_box_weight(xy, wh),
    {
        let (x, y) = xy;
        let (width, height) = wh;
        let bounding_box = BoundingBox {
            left: x as i32,
            right: (x + width) as i32,
            top: y as i32,
            bottom: (y + height) as i32,
        };
        let indices = self.iterate_indices(&bounding_box);
        let ghost total = cells_weight(self.cells@, indices@, bounding_box);
        let mut sum: u32 = 0;
        let mut k: usize = 0;
        while k < indices.len()
            invariant
                self.box_query_ok(xy, wh),
                bounding_box == spec_box(xy, wh),
                indices@ == spec_box_indices(bounding_box, self.num_cells_vertically),
                total == cells_weight(self.cells@, indices@, bounding_box),
                total <= u32::MAX,
                k <= indices@.len(),
                sum == cells_weight(self.cells@, indices@.take(k as int), bounding_box),
            decreases indices@.len() - k,
        {
            let index = indices[k] as usize;
            let lines = &self.cells[index].lines;
            proof {
                lemma_cells_weight_prefix(self.cells@, indices@, bounding_box, k + 1);
                assert(indices@.take(k + 1).drop_last() == indices@.take(k as int));
                assert(indices@.take(k + 1).last() == indices@[k as int]);
            }
            let mut j: usize = 0;
            let ghost base = sum as int;
            while j < lines.len()
                invariant
                    self.box_query_ok(xy, wh),
                    bounding_box == spec_box(xy, wh),
                    indices@ == spec_box_indices(bounding_box, self.num_cells_vertically),
                    k < indices@.len(),
                    index == indices@[k as int],
                    lines == &self.cells@[index as int].lines,
                    j <= lines@.len(),
                    base + lines_weight(lines@, bounding_box) <= u32::MAX,
                    sum == base + lines_weight(lines@.take(j as int), bounding_box),
                decreases lines@.len() - j,
            {
                proof {
                    assert(lines@.take(j + 1) == lines@.take(j as int).push(lines@[j as int]));
                    lemma_lines_weight_push(lines@.take(j as int), lines@[j as int], bounding_box);
                    assert(bb_intersect_defined(bounding_box, self.cells@[indices@[k as int] as int].lines@[j as int].line));
                    lemma_lines_weight_prefix(lines@, bounding_box, j + 1);
                }
                if bounding_box.intersect(&lines[j].line) {
                    sum = sum + lines[j].weight;
                }
                j = j + 1;
            }
            proof {
                assert(lines@.take(j as int) == lines@);
            }
            k = k + 1;
        }
        proof {
            assert(indices@.take(k as int) == indices@);
        }
        sum
    }
}

proof fn lemma_lines_weight_prefix(lines: Seq<WeightedLine>, bb: BoundingBox, k: int)
    requires
        0 <= k <= lines.len(),
    ensures
        0 <= lines_weight(lines.take(k), bb) <= lines_weight(lines, bb),
    decreases lines.len(),
{
    lemma_lines_weight_nonneg(lines.take(k), bb);
    if lines.len() > 0 {
        if k == lines.len() {
            assert(lines.take(k) == lines);
        } else {
            lemma_lines_weight_prefix(lines.drop_last(), bb, k);
            assert(lines.drop_last().take(k) == lines.take(k));
        }
    }
}

fn fits_i32_exec(v: i64) -> (r: bool)
    ensures
        r == fits_i32(v as int),
{
    v >= i32::MIN as i64 && v <= i32::MAX as i64
}

/// Whether `orientation` can compute on these points without overflow.
pub fn orientation_ok(a: Point, b: Point, c: Point) -> (r: bool)
    ensures
        r == orientation_defined(a, b, c),
{
    let bax = b.x as i64 - a.x as i64;
    let bay = b.y as i64 - a.y as i64;
    let cax = c.x as i64 - a.x as i64;
    let cay = c.y as i64 - a.y as i64;
    if !(fits_i32_exec(bax) && fits_i32_exec(bay) && fits_i32_exec(cax) && fits_i32_exec(cay)) {
        return false;
    }
    assert(-0x8000_0000 * 0x8000_0000 <= bax * cay <= 0x8000_0000 * 0x8000_0000) by (nonlinear_arith)
        requires
            -0x8000_0000 <= bax <= 0x7fff_ffff,
            -0x8000_0000 <= cay <= 0x7fff_ffff,
    ;
    assert(-0x8000_0000 * 0x8000_0000 <= bay * cax <= 0x8000_0000 * 0x8000_0000) by (nonlinear_arith)
        requires
            -0x8000_0000 <= bay <= 0x7fff_ffff,
            -0x8000_0000 <= cax <= 0x7fff_ffff,
    ;
    let p1 = bax * cay;
    let p2 = bay * cax;
    if !(fits_i32_exec(p1) && fits_i32_exec(p2)) {
        return false;
    }
    fits_i32_exec(p1 - p2)
}

fn on_segment_checked(a: Point, b: Point, p: Point) -> (r: Option<bool>)
    ensures
        r is Some <==> orientation_defined(a, b, p),
        r matches Some(v) ==> v == spec_on_segment(a, b, p),
{
    if !orientation_ok(a, b, p) {
        return None;
    }
    let mut o: i32 = 0;
    Some(on_segment(a, b, p, &mut o))
}

/// Whether `segments_intersect` can run on these segments without overflow.
pub fn segments_intersect_ok(l1: Line, l2: Line) -> (r: bool)
    ensures
        r == segments_intersect_defined(l1, l2),
{
    let (a, b, c, d) = (l1.start, l1.end, l2.start, l2.end);
    match on_segment_checked(a, b, c) {
        None => false,
        Some(true) => true,
        Some(false) => match on_segment_checked(a, b, d) {
            None => false,
            Some(true) => true,
            Some(false) => match on_segment_checked(c, d, a) {
                None => false,
                Some(true) => true,
                Some(false) => orientation_ok(c, d, b),
            },
        },
    }
}

impl BoundingBox {
    /// Whether `intersect` can run on this box and line without overflow.
    pub fn intersect_ok(&self, line: &Line) -> (r: bool)
        ensures
            r == bb_intersect_defined(*self, *line),
    {
        if self.contains(line.start) || self.contains(line.end) {
            return true;
        }
        let bl = Point { x: self.left, y: self.bottom };
        let br = Point { x: self.right, y: self.bottom };
        let tr = Point { x: self.right, y: self.top };
        let tl = Point { x: self.left, y: self.top };
        let s1 = Line { start: bl, end: br };
        let s2 = Line { start: bl, end: tl };
        let s3 = Line { start: tr, end: tl };
        let s4 = Line { start: tr, end: br };
        if !segments_intersect_ok(*line, s1) {
            return false;
        }
        if segments_intersect(*line, s1) {
            return true;
        }
        if !segments_intersect_ok(*line, s2) {
            return false;
        }
        if segments_intersect(*line, s2) {
            return true;
        }
        if !segments_intersect_ok(*line, s3) {
            return false;
        }
        if segments_intersect(*line, s3) {
            return true;
        }
        segments_intersect_ok(*line, s4)
    }
}

impl Grid {
    /// Whether `box_intersection_weight` can run on the box at `xy` of size `wh` (see
    /// `box_query_ok`).
    pub fn box_query_check(&self, xy: (usize, usize), wh: (usize, usize)) -> (r: bool)
        ensures
            r == self.box_query_ok(xy, wh),
    {
        let (x, y) = xy;
        let (width, height) = wh;
        if x > usize::MAX - width || y > usize::MAX - height {
            return false;
        }
        let bb = BoundingBox { left: x as i32, right: (x + width) as i32, top: y as i32, bottom: (y + height) as i32 };
        assert(bb == spec_box(xy, wh));
        let left: u16 = (bb.left as u16) / CELL_SIZE;
        let right: u16 = (bb.right as u16) / CELL_SIZE;
        let top: u16 = (bb.top as u16) / CELL_SIZE;
        let bottom: u16 = (bb.bottom as u16) / CELL_SIZE;
        let rw = self.num_cells_vertically;
        if left <= right && top <= bottom {
            let b64 = bottom as u64;
            let rw64 = rw as u64;
            assert(b64 * rw64 <= 0xffff * 0xffff) by (nonlinear_arith)
                requires
                    b64 <= 0xffff,
                    rw64 <= 0xffff,
            ;
            if b64 * rw64 + right as u64 > u16::MAX as u64 {
                assert(cell_of(bb.bottom) == bottom && cell_of(bb.right) == right);
                assert(cell_of(bb.left) == left && cell_of(bb.top) == top);
                assert(!box_indices_fit(bb, rw));
                return false;
            }
        }
        assert(box_indices_fit(bb, rw));
        let idxs = self.iterate_indices(&bb);
        let mut k: usize = 0;
        while k < idxs.len()
            invariant
                0 <= k <= idxs@.len(),
                bb == spec_box(xy, wh),
                idxs@ == spec_box_indices(bb, self.num_cells_vertically),
                forall|m: int| 0 <= m < k ==> (#[trigger] idxs@[m]) < self.cells@.len(),
                forall|m: int, j: int| 0 <= m < k && 0 <= j < self.cells@[idxs@[m] as int].lines@.len()
                    ==> bb_intersect_defined(bb, #[trigger] self.cells@[idxs@[m] as int].lines@[j].line),
            decreases idxs@.len() - k,
        {
            let index = idxs[k] as usize;
            if index >= self.cells.len() {
                assert(!(idxs@[k as int] < self.cells@.len()));
                return false;
            }
            let lines = &self.cells[index].lines;
            let mut j: usize = 0;
            while j < lines.len()
                invariant
                    0 <= j <= lines@.len(),
                    k < idxs@.len(),
                    bb == spec_box(xy, wh),
                    idxs@ == spec_box_indices(bb, self.num_cells_vertically),
                    index == idxs@[k as int],
                    index < self.cells@.len(),
                    lines == &self.cells@[index as int].lines,
                    forall|t: int| 0 <= t < j ==> bb_intersect_defined(bb, #[trigger] lines@[t].line),
                decreases lines@.len() - j,
            {
                if !bb.intersect_ok(&lines[j].line) {
                    assert(!bb_intersect_defined(bb, self.cells@[idxs@[k as int] as int].lines@[j as int].line));
                    return false;
                }
                j = j + 1;
            }
            assert forall|m: int, t: int| 0 <= m < k + 1 && 0 <= t < self.cells@[idxs@[m] as int].lines@.len()
                implies bb_intersect_defined(bb, #[trigger] self.cells@[idxs@[m] as int].lines@[t].line) by {
                if m == k {
                    assert(self.cells@[idxs@[m] as int].lines@[t] == lines@[t]);
                }
            }
            k = k + 1;
        }
        let ghost total = cells_weight(self.cells@, idxs@, bb);
        let mut sum: u64 = 0;
        let mut k: usize = 0;
        while k < idxs.len()
            invariant
                0 <= k <= idxs@.len(),
                bb == spec_box(xy, wh),
                idxs@ == spec_box_indices(bb, self.num_cells_vertically),
                forall|m: int| 0 <= m < idxs@.len() ==> (#[trigger] idxs@[m]) < self.cells@.len(),
                forall|m: int, j: int| 0 <= m < idxs@.len() && 0 <= j < self.cells@[idxs@[m] as int].lines@.len()
                    ==> bb_intersect_defined(bb, #[trigger] self.cells@[idxs@[m] as int].lines@[j].line),
                total == cells_weight(self.cells@, idxs@, bb),
                sum == cells_weight(self.cells@, idxs@.take(k as int), bb),
                sum <= u32::MAX,
            decreases idxs@.len() - k,
        {
            let index = idxs[k] as usize;
            let lines = &self.cells[index].lines;
            proof {
                lemma_cells_weight_prefix(self.cells@, idxs@, bb, k + 1);
                assert(idxs@.take(k + 1).drop_last() == idxs@.take(k as int));
                assert(idxs@.take(k + 1).last() == idxs@[k as int]);
            }
            let ghost base = sum as int;
            let mut j: usize = 0;
            while j < lines.len()
                invariant
                    0 <= j <= lines@.len(),
                    k < idxs@.len(),
                    bb == spec_box(xy, wh),
                    idxs@ == spec_box_indices(bb, self.num_cells_vertically),
                    index == idxs@[k as int],
                    lines == &self.cells@[index as int].lines,
                    forall|t: int| 0 <= t < lines@.len() ==> bb_intersect_defined(bb, #[trigger] lines@[t].line),
                    base <= u32::MAX,
                    sum == base + lines_weight(lines@.take(j as int), bb),
                    sum <= u32::MAX,
                    total == cells_weight(self.cells@, idxs@, bb),
                    base + lines_weight(lines@, bb) == cells_weight(self.cells@, idxs@.take(k + 1), bb),
                    cells_weight(self.cells@, idxs@.take(k + 1), bb) <= total,
                decreases lines@.len() - j,
            {
                proof {
                    assert(lines@.take(j + 1) == lines@.take(j as int).push(lines@[j as int]));
                    lemma_lines_weight_push(lines@.take(j as int), lines@[j as int], bb);
                    assert(bb_intersect_defined(bb, lines@[j as int].line));
                    lemma_lines_weight_prefix(lines@, bb, j + 1);
                }
                if bb.intersect(&lines[j].line) {
                    sum = sum + lines[j].weight as u64;
                }
                assert(sum == base + lines_weight(lines@.take(j + 1), bb));
                if sum > u32::MAX as u64 {
                    assert(total > u32::MAX);
                    return false;
                }
                j = j + 1;
            }
            proof {
                assert(lines@.take(j as int) == lines@);
            }
            k = k + 1;
        }
        proof {
            assert(idxs@.take(k as int) == idxs@);
        }
        true
    }
}

} // verus!
