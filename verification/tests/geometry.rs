use bpmd::collision_grid::{self, BoundingBox, Grid, Line, Point};
use bpmd::quad_tree::{self, QuadTree};

fn pt(x: i32, y: i32) -> Point {
    Point { x, y }
}

#[test]
fn segments_crossing_in_the_middle_intersect() {
    let a = Line { start: pt(0, 0), end: pt(10, 10) };
    let b = Line { start: pt(0, 10), end: pt(10, 0) };
    assert!(collision_grid::segments_intersect(a, b));
    assert!(collision_grid::segments_intersect(b, a));
}

#[test]
fn parallel_segments_do_not_intersect() {
    let a = Line { start: pt(0, 0), end: pt(10, 0) };
    let b = Line { start: pt(0, 5), end: pt(10, 5) };
    assert!(!collision_grid::segments_intersect(a, b));
    assert!(!collision_grid::segments_intersect(b, a));
}

#[test]
fn touching_end_point_counts_as_intersection() {
    let a = Line { start: pt(0, 0), end: pt(10, 0) };
    let b = Line { start: pt(10, 0), end: pt(10, 10) };
    assert!(collision_grid::segments_intersect(a, b));
}

#[test]
fn orientation_sign_gives_turn_direction() {
    assert!(collision_grid::orientation(pt(0, 0), pt(10, 0), pt(10, 10)) > 0);
    assert!(collision_grid::orientation(pt(0, 0), pt(10, 0), pt(10, -10)) < 0);
    assert_eq!(collision_grid::orientation(pt(0, 0), pt(10, 0), pt(20, 0)), 0);
}

#[test]
fn box_contains_and_overlaps() {
    let b = BoundingBox { left: 0, right: 10, top: 0, bottom: 10 };
    assert!(b.contains(pt(10, 10)));
    assert!(!b.contains(pt(11, 5)));
    let c = BoundingBox { left: 5, right: 15, top: 5, bottom: 15 };
    let d = BoundingBox { left: 10, right: 20, top: 0, bottom: 10 };
    assert!(b.overlaps(&c));
    assert!(c.overlaps(&b));
    assert!(!b.overlaps(&d));
    assert!(!d.overlaps(&b));
}

#[test]
fn box_intersects_line_through_it_without_end_points_inside() {
    let b = BoundingBox { left: 10, right: 20, top: 10, bottom: 20 };
    let through = Line { start: pt(0, 15), end: pt(30, 15) };
    let beside = Line { start: pt(0, 25), end: pt(30, 25) };
    assert!(b.intersect(&through));
    assert!(!b.intersect(&beside));
}

#[test]
fn line_new_converts_coordinates() {
    let l = Line::new(&(3, 4), &(5, 6));
    assert_eq!(l.start, pt(3, 4));
    assert_eq!(l.end, pt(5, 6));
    assert_eq!(Point::from(&(7, 8)), pt(7, 8));
}

#[test]
fn grid_new_rounds_up_to_whole_cells() {
    let g = Grid::new(250, 100);
    assert_eq!(g.num_cells_horizontally, 3);
    assert_eq!(g.num_cells_vertically, 1);
    assert_eq!(g.cells.len(), 3);
}

#[test]
fn grid_weight_counts_lines_that_touch_the_box() {
    let mut g = Grid::new(300, 300);
    let line = Line::new(&(0, 50), &(90, 50));
    g.insert_into_cells(&line, 7, &[0]);
    assert_eq!(g.cells[0].lines.len(), 1);
    assert_eq!(g.box_intersection_weight((10, 40), (20, 20)), 7);
    assert_eq!(g.box_intersection_weight((10, 60), (20, 20)), 0);
}

#[test]
fn grid_iterate_indices_visits_columns_then_rows() {
    let g = Grid::new(300, 300);
    let bb = BoundingBox { left: 50, right: 150, top: 50, bottom: 150 };
    let idx = g.iterate_indices(&bb);
    assert_eq!(idx, vec![0, 3, 1, 4]);
}

#[test]
fn quad_tree_new_is_power_of_two_square() {
    let t = QuadTree::new(300, 100);
    assert_eq!(t.cell.left, 0);
    assert_eq!(t.cell.top, 0);
    assert_eq!(t.cell.extent, 512);
    assert_eq!(quad_tree::next_power_of_two(0), 1);
    assert_eq!(quad_tree::next_power_of_two(64), 64);
    assert_eq!(quad_tree::next_power_of_two(65), 128);
}

#[test]
fn quad_tree_finds_inserted_line() {
    let mut t = QuadTree::new(1000, 1000);
    let l = quad_tree::Line {
        start: quad_tree::Point { x: 100, y: 100 },
        end: quad_tree::Point { x: 900, y: 100 },
    };
    t.insert(&l);
    let hit = quad_tree::BoundingBox { left: 400, right: 420, top: 90, bottom: 110 };
    let miss = quad_tree::BoundingBox { left: 400, right: 420, top: 200, bottom: 220 };
    assert!(t.intersects_any_line(&hit));
    assert!(!t.intersects_any_line(&miss));
}

#[test]
fn quad_tree_splits_when_full_and_still_finds_lines() {
    let mut t = QuadTree::new(1000, 1000);
    for i in 0..12 {
        let y = 50 + 70 * i;
        let l = quad_tree::Line {
            start: quad_tree::Point { x: 10, y },
            end: quad_tree::Point { x: 990, y },
        };
        t.insert(&l);
    }
    assert!(matches!(t.state, quad_tree::QuadTreeState::Parent { .. }));
    let hit = quad_tree::BoundingBox { left: 600, right: 610, top: 255, bottom: 265 };
    assert!(t.intersects_any_line(&hit));
    let miss = quad_tree::BoundingBox { left: 600, right: 610, top: 60, bottom: 100 };
    assert!(!t.intersects_any_line(&miss));
}

#[test]
fn quad_tree_ignores_line_outside_its_cell() {
    let mut t = QuadTree::new(100, 100);
    let l = quad_tree::Line {
        start: quad_tree::Point { x: 500, y: 500 },
        end: quad_tree::Point { x: 600, y: 500 },
    };
    t.insert(&l);
    match &t.state {
        quad_tree::QuadTreeState::Leaf { data } => assert!(data.lines.is_empty()),
        _ => panic!("a leaf was expected"),
    }
}

#[test]
fn quad_tree_split_keeps_a_line_in_every_quadrant_it_crosses() {
    let mut t = QuadTree::new(1000, 1000);
    for i in 0..12 {
        let y = 50 + 70 * i;
        let l = quad_tree::Line {
            start: quad_tree::Point { x: 10, y },
            end: quad_tree::Point { x: 990, y },
        };
        t.insert(&l);
    }
    let first = quad_tree::Line {
        start: quad_tree::Point { x: 10, y: 50 },
        end: quad_tree::Point { x: 990, y: 50 },
    };
    let children = match &t.state {
        quad_tree::QuadTreeState::Parent { children } => children,
        _ => panic!("a parent was expected"),
    };
    for (i, child) in children.iter().enumerate() {
        let held = match &child.state {
            quad_tree::QuadTreeState::Leaf { data } => data.lines.contains(&first),
            _ => panic!("leaves were expected"),
        };
        // The line runs along the top half, across both upper quadrants.
        assert_eq!(held, i < 2);
    }
    let left_end = quad_tree::BoundingBox { left: 5, right: 15, top: 45, bottom: 55 };
    let right_end = quad_tree::BoundingBox { left: 985, right: 995, top: 45, bottom: 55 };
    assert!(t.intersects_any_line(&left_end));
    assert!(t.intersects_any_line(&right_end));
}
