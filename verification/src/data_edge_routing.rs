//! Straight routing of data and message flows: the candidate end points on the boxes of the two
//! nodes, the obstacle test for a point, and the choice of the shortest connection.
use vstd::prelude::*;
use crate::graph::Node;
use crate::vecmap::VecMap;

verus! {

/// How far other nodes are kept away from a straight edge.
pub const NODE_MARGIN: usize = 5;

/// The boxes of the nodes, by node index: `(left, top, right, bottom)`.
pub type Matrix = VecMap<usize, (usize, usize, usize, usize)>;

/// Records the box of node `node_id`, replacing an earlier one.
pub fn add_to_matrix(matrix: &mut Matrix, node_id: &usize, width: usize, height: usize, x: usize, y: usize)
    requires
        old(matrix).wf(),
        x + width <= usize::MAX,
        y + height <= usize::MAX,
    ensures
        final(matrix).wf(),
        final(matrix)@ == old(matrix)@.insert(*node_id, (x, y, (x + width) as usize, (y + height) as usize)),
{
    let rect = (x, y, x + width, y + height);
    match matrix.get_mut(node_id) {
        Some(v) => {
            *v = rect;
        },
        None => {
            matrix.insert(*node_id, rect);
        },
    }
}

/// The point lies strictly inside the box of one of the edge's own nodes, or within the margin
/// around the box of any other node.
pub open spec fn hits(x: usize, y: usize, from_id: usize, to_id: usize, id: usize, r: (usize, usize, usize, usize)) -> bool {
    let (x1, y1, x2, y2) = r;
    if id == from_id || id == to_id {
        x > x1 && x < x2 && y > y1 && y < y2
    } else {
        x >= x1 - NODE_MARGIN && x <= x2 + NODE_MARGIN && y >= y1 - NODE_MARGIN && y <= y2 + NODE_MARGIN
    }
}

/// The margins around the boxes of the other nodes can be computed.
pub open spec fn margins_fit(matrix: Map<usize, (usize, usize, usize, usize)>, from_id: usize, to_id: usize) -> bool {
    forall|id: usize| #[trigger] matrix.dom().contains(id) && id != from_id && id != to_id ==> {
        let (x1, y1, x2, y2) = matrix[id];
        x1 >= NODE_MARGIN && y1 >= NODE_MARGIN && x2 + NODE_MARGIN <= usize::MAX && y2 + NODE_MARGIN <= usize::MAX
    }
}

/// Whether the point `(x, y)` is blocked by some node of `matrix`.
pub fn is_in_obstacle_ignore_self(x: usize, y: usize, from_id: usize, to_id: usize, matrix: &Matrix) -> (r: bool)
    requires
        matrix.wf(),
        margins_fit(matrix@, from_id, to_id),
    ensures
        r == exists|id: usize| #[trigger] matrix@.dom().contains(id) && hits(x, y, from_id, to_id, id, matrix@[id]),
{
    let entries = matrix.iter();
    let mut i: usize = 0;
    while i < entries.len()
        invariant
            0 <= i <= entries@.len(),
            entries@ == matrix.entries(),
            matrix.wf(),
            margins_fit(matrix@, from_id, to_id),
            forall|k: int| 0 <= k < i ==> !hits(x, y, from_id, to_id, #[trigger] entries@[k].0, entries@[k].1),
        decreases entries@.len() - i,
    {
        let (id, (x1, y1, x2, y2)) = entries[i];
        proof {
            crate::vecmap::lemma_pairs_to_map_index(matrix.entries(), i as int);
        }
        assert(matrix@.dom().contains(id) && matrix@[id] == (x1, y1, x2, y2));
        if id == from_id || id == to_id {
            if x > x1 && x < x2 && y > y1 && y < y2 {
                return true;
            }
        } else if x >= x1 - NODE_MARGIN && x <= x2 + NODE_MARGIN && y >= y1 - NODE_MARGIN && y <= y2 + NODE_MARGIN {
            return true;
        }
        i = i + 1;
    }
    proof {
        assert forall|id: usize| #[trigger] matrix@.dom().contains(id) implies !hits(x, y, from_id, to_id, id, matrix@[id]) by {
            crate::vecmap::lemma_pairs_to_map_dom(matrix.entries(), id);
            let k = choose|k: int| 0 <= k < matrix.entries().len() && #[trigger] matrix.entries()[k].0 == id;
            crate::vecmap::lemma_pairs_to_map_index(matrix.entries(), k);
            assert(entries@[k].0 == id);
        }
    }
    false
}

/// The Manhattan length of a connection.
pub open spec fn manhattan(p: ((usize, usize), (usize, usize))) -> int {
    let (s, e) = p;
    (if s.0 >= e.0 { s.0 - e.0 } else { e.0 - s.0 }) + (if s.1 >= e.1 { s.1 - e.1 } else { e.1 - s.1 })
}

/// The shortest of the connections, the first one among equals; `((0, 0), (0, 0))` for none.
pub open spec fn spec_shortest(ps: Seq<((usize, usize), (usize, usize))>) -> (int, ((usize, usize), (usize, usize)))
    decreases ps.len(),
{
    if ps.len() == 0 {
        (usize::MAX as int, ((0, 0), (0, 0)))
    } else {
        let best = spec_shortest(ps.drop_last());
        if manhattan(ps.last()) < best.0 { (manhattan(ps.last()), ps.last()) } else { best }
    }
}

/// The connection with the shortest Manhattan length.
pub fn find_shortest_path(bend_points: &Vec<((usize, usize), (usize, usize))>) -> (r: ((usize, usize), (usize, usize)))
    requires
        forall|k: int| 0 <= k < bend_points@.len() ==> {
            let (s, e) = #[trigger] bend_points@[k];
            s.0 <= isize::MAX && s.1 <= isize::MAX && e.0 <= isize::MAX && e.1 <= isize::MAX
                && manhattan(bend_points@[k]) <= isize::MAX
        },
    ensures
        r == spec_shortest(bend_points@).1,
{
    let mut min_distance: usize = usize::MAX;
    let mut start_xy: (usize, usize) = (0, 0);
    let mut end_xy: (usize, usize) = (0, 0);
    let mut i: usize = 0;
    while i < bend_points.len()
        invariant
            0 <= i <= bend_points@.len(),
            forall|k: int| 0 <= k < bend_points@.len() ==> {
                let (s, e) = #[trigger] bend_points@[k];
                s.0 <= isize::MAX && s.1 <= isize::MAX && e.0 <= isize::MAX && e.1 <= isize::MAX
                    && manhattan(bend_points@[k]) <= isize::MAX
            },
            spec_shortest(bend_points@.take(i as int)) == (min_distance as int, (start_xy, end_xy)),
        decreases bend_points@.len() - i,
    {
        let (start, end) = bend_points[i];
        assert(bend_points@.take(i + 1).drop_last() =~= bend_points@.take(i as int));
        assert(bend_points@.take(i + 1).last() == bend_points@[i as int]);
        let dx = start.0 as isize - end.0 as isize;
        let dy = start.1 as isize - end.1 as isize;
        let adx: isize = if dx < 0 { -dx } else { dx };
        let ady: isize = if dy < 0 { -dy } else { dy };
        let distance = (adx + ady) as usize;
        if distance < min_distance {
            min_distance = distance;
            start_xy = start;
            end_xy = end;
        }
        i = i + 1;
    }
    assert(bend_points@.take(i as int) =~= bend_points@);
    (start_xy, end_xy)
}

/// The connection that `find_shortest_path` picks has the least Manhattan length `|dx| + |dy|` of
/// all candidates, and it is the first candidate of that length (where some candidate is shorter
/// than `usize::MAX`).
pub proof fn lemma_shortest_is_least(ps: Seq<((usize, usize), (usize, usize))>)
    requires
        exists|k: int| 0 <= k < ps.len() && ({
            let (s, e) = #[trigger] ps[k];
            (if s.0 >= e.0 { s.0 - e.0 } else { e.0 - s.0 }) + (if s.1 >= e.1 { s.1 - e.1 } else { e.1 - s.1 }) < usize::MAX
        }),
    ensures
        exists|i: int| 0 <= i < ps.len() && #[trigger] ps[i] == spec_shortest(ps).1 && ({
            let d = |p: ((usize, usize), (usize, usize))| (if p.0.0 >= p.1.0 { p.0.0 - p.1.0 } else { p.1.0 - p.0.0 })
                + (if p.0.1 >= p.1.1 { p.0.1 - p.1.1 } else { p.1.1 - p.0.1 });
            &&& forall|j: int| 0 <= j < ps.len() ==> d(ps[i]) <= d(#[trigger] ps[j])
            &&& forall|j: int| 0 <= j < i ==> d(ps[i]) < d(#[trigger] ps[j])
        }),
    decreases ps.len(),
{
    lemma_shortest_facts(ps);
}

proof fn lemma_shortest_facts(ps: Seq<((usize, usize), (usize, usize))>)
    ensures
        spec_shortest(ps).0 <= usize::MAX,
        spec_shortest(ps).0 < usize::MAX ==> exists|i: int| 0 <= i < ps.len() && #[trigger] ps[i] == spec_shortest(ps).1
            && spec_shortest(ps).0 == manhattan(ps[i])
            && forall|j: int| 0 <= j < i ==> manhattan(ps[i]) < manhattan(#[trigger] ps[j]),
        forall|j: int| 0 <= j < ps.len() ==> spec_shortest(ps).0 <= manhattan(#[trigger] ps[j])
            || (manhattan(ps[j]) >= usize::MAX && spec_shortest(ps).0 == usize::MAX),
        spec_shortest(ps).0 == usize::MAX ==> forall|j: int| 0 <= j < ps.len() ==> manhattan(#[trigger] ps[j]) >= usize::MAX,
    decreases ps.len(),
{
    if ps.len() > 0 {
        let t = ps.drop_last();
        lemma_shortest_facts(t);
        assert forall|j: int| 0 <= j < t.len() implies #[trigger] t[j] == ps[j] by {}
        let best = spec_shortest(t);
        if manhattan(ps.last()) < best.0 {
            assert(ps[ps.len() - 1] == spec_shortest(ps).1);
            assert forall|j: int| 0 <= j < ps.len() - 1 implies manhattan(ps[ps.len() - 1]) < manhattan(#[trigger] ps[j]) by {
                assert(t[j] == ps[j]);
            }
        } else if best.0 < usize::MAX {
            let i = choose|i: int| 0 <= i < t.len() && #[trigger] t[i] == best.1 && best.0 == manhattan(t[i])
                && forall|j: int| 0 <= j < i ==> manhattan(t[i]) < manhattan(#[trigger] t[j]);
            assert(ps[i] == t[i]);
            assert forall|j: int| 0 <= j < i implies manhattan(ps[i]) < manhattan(#[trigger] ps[j]) by {
                assert(t[j] == ps[j]);
            }
        }
        assert forall|j: int| 0 <= j < ps.len() implies spec_shortest(ps).0 <= manhattan(#[trigger] ps[j])
            || (manhattan(ps[j]) >= usize::MAX && spec_shortest(ps).0 == usize::MAX) by {
            if j < ps.len() - 1 {
                assert(t[j] == ps[j]);
            }
        }
        assert forall|j: int| spec_shortest(ps).0 == usize::MAX && 0 <= j < ps.len() implies manhattan(#[trigger] ps[j]) >= usize::MAX by {
            if j < ps.len() - 1 {
                assert(t[j] == ps[j]);
            }
        }
    }
}

/// The candidate start points on the box of the source node (left, right, top, bottom, each at
/// the middle, a quarter and three quarters) and end points on the box of the target node (the
/// same, without the middle of the left and right sides).
pub open spec fn start_points(n: Node) -> Seq<(usize, usize)> {
    let (x, y, w, h) = (n.x as int, n.y as int, n.width as int, n.height as int);
    seq![(x, y + h / 2), (x, y + h / 4), (x, y + h * 3 / 4),
        (x + w, y + h / 2), (x + w, y + h / 4), (x + w, y + h * 3 / 4),
        (x + w / 2, y), (x + w / 4, y), (x + w * 3 / 4, y),
        (x + w / 2, y + h), (x + w / 4, y + h), (x + w * 3 / 4, y + h)].map_values(|p: (int, int)| (p.0 as usize, p.1 as usize))
}

pub open spec fn end_points(n: Node) -> Seq<(usize, usize)> {
    let (x, y, w, h) = (n.x as int, n.y as int, n.width as int, n.height as int);
    seq![(x, y + h / 4), (x, y + h * 3 / 4),
        (x + w, y + h / 4), (x + w, y + h * 3 / 4),
        (x + w / 2, y), (x + w / 4, y), (x + w * 3 / 4, y),
        (x + w / 2, y + h), (x + w / 4, y + h), (x + w * 3 / 4, y + h)].map_values(|p: (int, int)| (p.0 as usize, p.1 as usize))
}

/// The box of the node can be measured without overflow.
pub open spec fn box_fits(n: Node) -> bool {
    n.x + n.width <= usize::MAX && n.y + n.height <= usize::MAX && n.width * 3 <= usize::MAX && n.height * 3 <= usize::MAX
}

/// Appends the candidate start points of `from_node` and end points of `to_node`.
pub fn find_start_and_end_points(from_node: &Node, to_node: &Node, start_point_buffer: &mut Vec<(usize, usize)>,
    end_point_buffer: &mut Vec<(usize, usize)>)
    requires
        box_fits(*from_node),
        box_fits(*to_node),
    ensures
        final(start_point_buffer)@ == old(start_point_buffer)@ + start_points(*from_node),
        final(end_point_buffer)@ == old(end_point_buffer)@ + end_points(*to_node),
{
    let (dn_x, dn_y, dn_width, dn_height) = (from_node.x, from_node.y, from_node.width, from_node.height);
    let (node_x, node_y, node_width, node_height) = (to_node.x, to_node.y, to_node.width, to_node.height);
    assert(dn_height * 3 / 4 <= dn_height && dn_width * 3 / 4 <= dn_width) by (nonlinear_arith)
        requires dn_height >= 0, dn_width >= 0;
    assert(node_height * 3 / 4 <= node_height && node_width * 3 / 4 <= node_width) by (nonlinear_arith)
        requires node_height >= 0, node_width >= 0;
    let ghost s0 = start_point_buffer@;
    let ghost e0 = end_point_buffer@;
    start_point_buffer.push((dn_x, dn_y + dn_height / 2));
    start_point_buffer.push((dn_x, dn_y + dn_height / 4));
    start_point_buffer.push((dn_x, dn_y + dn_height * 3 / 4));
    start_point_buffer.push((dn_x + dn_width, dn_y + dn_height / 2));
    start_point_buffer.push((dn_x + dn_width, dn_y + dn_height / 4));
    start_point_buffer.push((dn_x + dn_width, dn_y + dn_height * 3 / 4));
    start_point_buffer.push((dn_x + dn_width / 2, dn_y));
    start_point_buffer.push((dn_x + dn_width / 4, dn_y));
    start_point_buffer.push((dn_x + dn_width * 3 / 4, dn_y));
    start_point_buffer.push((dn_x + dn_width / 2, dn_y + dn_height));
    start_point_buffer.push((dn_x + dn_width / 4, dn_y + dn_height));
    start_point_buffer.push((dn_x + dn_width * 3 / 4, dn_y + dn_height));
    assert(start_point_buffer@ =~= s0 + start_points(*from_node));

    end_point_buffer.push((node_x, node_y + node_height / 4));
    end_point_buffer.push((node_x, node_y + node_height * 3 / 4));
    end_point_buffer.push((node_x + node_width, node_y + node_height / 4));
    end_point_buffer.push((node_x + node_width, node_y + node_height * 3 / 4));
    end_point_buffer.push((node_x + node_width / 2, node_y));
    end_point_buffer.push((node_x + node_width / 4, node_y));
    end_point_buffer.push((node_x + node_width * 3 / 4, node_y));
    end_point_buffer.push((node_x + node_width / 2, node_y + node_height));
    end_point_buffer.push((node_x + node_width / 4, node_y + node_height));
    end_point_buffer.push((node_x + node_width * 3 / 4, node_y + node_height));
    assert(end_point_buffer@ =~= e0 + end_points(*to_node));
}

} // verus!
