use bpmd::collision_grid::{Grid, Line};
use bpmd::display_text::{
    self, Alignment, CandidateTracker, Dimension, DisplayTextConfig, DisplayTextLocation, DisplayTextLocationCandidateInner,
    PackedIndicesForDisplayTextLocation, ReferencePoint, Side,
};
use bpmd::graph::{Edge, EdgeType, FlowType, RegularEdgeBendPoints};
use bpmd::ids::{EdgeId, NodeId, RelativePort};

fn config() -> DisplayTextConfig {
    DisplayTextConfig {
        margin: 10,
        edge_x_step_size: 20,
        edge_y_step_size: 20,
        edge_x_margin_to_ends: 5,
        edge_y_margin_to_ends: 5,
        edge_x_min_distance_to_center_or_else_collapse_into_center: 10,
        edge_y_min_distance_to_center_or_else_collapse_into_center: 10,
    }
}

fn inner(alignment: Alignment, reference_point: ReferencePoint, x: usize, y: usize) -> DisplayTextLocationCandidateInner {
    DisplayTextLocationCandidateInner { alignment, reference_point, x, y }
}

#[test]
fn materialize_moves_reference_point_to_box_corner() {
    let c = inner(Alignment::Center, ReferencePoint::Center, 100, 100);
    assert_eq!(c.materialize((40, 20)), DisplayTextLocation { alignment: Alignment::Center, x: 80, y: 90 });
    let c = inner(Alignment::Right, ReferencePoint::RightBottom, 100, 100);
    assert_eq!(c.materialize((40, 20)), DisplayTextLocation { alignment: Alignment::Right, x: 60, y: 80 });
    let c = inner(Alignment::Left, ReferencePoint::LeftTop, 100, 100);
    assert_eq!(c.materialize((40, 20)), DisplayTextLocation { alignment: Alignment::Left, x: 100, y: 100 });
}

#[test]
fn materialize_clamps_at_zero() {
    let c = inner(Alignment::Right, ReferencePoint::RightCenter, 5, 3);
    assert_eq!(c.materialize((40, 20)), DisplayTextLocation { alignment: Alignment::Right, x: 0, y: 0 });
}

#[test]
fn edge_points_step_in_from_both_ends() {
    // 0..100: margin 5, step 20, midpoint 50, positions up to 40 from the start.
    assert_eq!(display_text::iterate_edge_points(0, 100, 5, 20, 10), vec![5, 25, 50, 75, 95]);
    // The same segment walked backwards.
    assert_eq!(display_text::iterate_edge_points(100, 0, 5, 20, 10), vec![95, 75, 50, 25, 5]);
}

#[test]
fn edge_points_collapse_to_midpoint_on_short_segment() {
    assert_eq!(display_text::iterate_edge_points(0, 20, 5, 20, 10), vec![10]);
}

#[test]
fn activity_label_is_centered() {
    let dim = Dimension { x: 100, y: 50, width: 100, height: 80 };
    let loc = display_text::activity_display_text_location_candidates((40, 20), dim);
    assert_eq!(loc, DisplayTextLocation { alignment: Alignment::Center, x: 130, y: 80 });
}

#[test]
fn gateway_label_takes_first_candidate_on_empty_grid() {
    let grid = Grid::new(1000, 1000);
    let dim = Dimension { x: 200, y: 200, width: 40, height: 40 };
    // Incoming from the left: the top left corner is tried first. fract margin = isqrt(100 / 2) = 7.
    let loc = display_text::gateway_display_text_location_candidates(&config(), (30, 10), dim, Side::Left, &grid);
    assert_eq!(loc, DisplayTextLocation { alignment: Alignment::Right, x: 210 - 7 - 30, y: 210 - 7 - 10 });
}

#[test]
fn gateway_label_avoids_occupied_corner() {
    let mut grid = Grid::new(1000, 1000);
    // A line right through the top left candidate box (173..203, 193..203): cell (1, 1) holds it.
    let line = Line::new(&(150, 198), &(199, 198));
    let row_width = grid.num_cells_vertically as usize;
    grid.insert_into_cells(&line, 5, &[row_width * 1 + 1]);
    let dim = Dimension { x: 200, y: 200, width: 40, height: 40 };
    let loc = display_text::gateway_display_text_location_candidates(&config(), (30, 10), dim, Side::Left, &grid);
    // Next candidate: to the right of the gateway.
    assert_eq!(loc, DisplayTextLocation { alignment: Alignment::Left, x: 250, y: 215 });
}

#[test]
fn event_label_goes_below_first() {
    let grid = Grid::new(1000, 1000);
    let dim = Dimension { x: 200, y: 200, width: 36, height: 36 };
    let loc = display_text::event_display_text_location_candidates(&config(), (30, 10), dim, Side::Left, &grid);
    assert_eq!(loc, DisplayTextLocation { alignment: Alignment::Center, x: 218 - 15, y: 246 });
    let data = display_text::data_display_text_location_candidates(&config(), (30, 10), dim, Side::Bottom, &grid);
    assert_eq!(data, DisplayTextLocation { alignment: Alignment::Center, x: 218 - 15, y: 190 - 10 });
}

#[test]
fn corner_candidates_of_up_then_right_turn() {
    let c = display_text::corner_candidates(&config(), (100, 200), (100, 100), (200, 100));
    assert_eq!(c, vec![
        inner(Alignment::Center, ReferencePoint::CenterBottom, 100, 90),
        inner(Alignment::Right, ReferencePoint::RightCenter, 90, 100),
        inner(Alignment::Right, ReferencePoint::RightBottom, 90, 90),
    ]);
}

#[test]
fn segment_candidates_of_horizontal_segment() {
    let c = display_text::segment_candidates(&config(), (0, 100), (20, 100));
    assert_eq!(c, vec![
        inner(Alignment::Center, ReferencePoint::LeftBottom, 10, 90),
        inner(Alignment::Center, ReferencePoint::LeftTop, 10, 110),
        inner(Alignment::Center, ReferencePoint::CenterBottom, 10, 90),
        inner(Alignment::Center, ReferencePoint::CenterTop, 10, 110),
    ]);
}

#[test]
fn edge_label_on_empty_grid_sits_above_first_segment_start() {
    let grid = Grid::new(1000, 1000);
    let points = [(100, 100), (300, 100)];
    let loc = display_text::edge_display_text_location_candidates(&config(), (30, 10), &points, &grid);
    assert_eq!(loc, DisplayTextLocation { alignment: Alignment::Center, x: 110, y: 80 });
}

#[test]
fn edge_label_of_edge_leaving_upwards_uses_first_horizontal_segment() {
    let grid = Grid::new(1000, 1000);
    let points = [(100, 300), (100, 100), (300, 100)];
    let loc = display_text::edge_display_text_location_candidates(&config(), (30, 10), &points, &grid);
    assert_eq!(loc, DisplayTextLocation { alignment: Alignment::Center, x: 110, y: 80 });
}

#[test]
fn packed_indices_unpack_gives_back_what_was_packed() {
    let packed = PackedIndicesForDisplayTextLocation::new([1, 2, 3, 4, 5, 6, 7, 0]);
    assert_eq!(packed.unpack(), [1, 2, 3, 4, 5, 6, 7, 0]);
    let last = PackedIndicesForDisplayTextLocation::new([0, 0, 0, 0, 0, 0, 0, 7]);
    assert_eq!(last.unpack(), [0, 0, 0, 0, 0, 0, 0, 7]);
    let zero = PackedIndicesForDisplayTextLocation::new([0; 8]);
    assert_eq!(zero.unpack(), [0; 8]);
}

#[test]
fn side_of_first_incoming_sequence_flow() {
    let mk = |flow_type: FlowType| Edge {
        from: NodeId(0),
        to: NodeId(1),
        edge_type: EdgeType::Regular { text: None, bend_points: RegularEdgeBendPoints::ToBeDetermined },
        is_reversed: false,
        flow_type,
        stays_within_lane: false,
        attached_to_boundary_event: None,
        is_vertical: false,
        stroke_color: None,
    };
    let edges = vec![mk(FlowType::SequenceFlow), mk(FlowType::SequenceFlow)];
    let incoming = [EdgeId(0), EdgeId(1)];
    let ports = [RelativePort { x: 20, y: 0 }, RelativePort { x: 0, y: 18 }];
    let side = display_text::side_of_first_incoming_flow(40, 36, &incoming, &ports, &edges, false);
    assert_eq!(side, Side::Top);
    let none = display_text::side_of_first_incoming_flow(40, 36, &incoming, &ports, &edges, true);
    assert_eq!(none, Side::Left);
}

#[test]
fn corner_search_stops_at_first_free_candidate() {
    let grid = Grid::new(1000, 1000);
    let mut tracker = CandidateTracker {
        score: 5,
        candidate: DisplayTextLocation { alignment: Alignment::Left, x: 0, y: 0 },
        textbox_wh: (30, 10),
    };
    let done = display_text::edge_corner_display_text_location_candidates(&mut tracker, &grid, &config(), (100, 200), (100, 100), (200, 100));
    assert!(done);
    assert_eq!(tracker.score, 0);
    assert_eq!(tracker.candidate, DisplayTextLocation { alignment: Alignment::Center, x: 85, y: 80 });
}

#[test]
fn segment_search_stops_at_first_free_candidate() {
    let grid = Grid::new(1000, 1000);
    let mut tracker = CandidateTracker {
        score: 5,
        candidate: DisplayTextLocation { alignment: Alignment::Left, x: 0, y: 0 },
        textbox_wh: (30, 10),
    };
    let done = display_text::edge_segment_display_text_location_candidates(&mut tracker, &grid, &config(), (0, 100), (20, 100));
    assert!(done);
    assert_eq!(tracker.score, 0);
    assert_eq!(tracker.candidate, DisplayTextLocation { alignment: Alignment::Center, x: 10, y: 80 });
}

#[test]
fn checked_label_search_agrees_and_refuses_boxes_outside_the_grid() {
    let grid = Grid::new(1000, 1000);
    let dim = Dimension { x: 200, y: 200, width: 40, height: 40 };
    let loc = display_text::try_gateway_display_text_location_candidates(&config(), (30, 10), dim, Side::Left, &grid);
    assert_eq!(loc, Some(DisplayTextLocation { alignment: Alignment::Right, x: 210 - 7 - 30, y: 210 - 7 - 10 }));
    let points = [(100, 100), (300, 100)];
    let edge = display_text::try_edge_display_text_location_candidates(&config(), (30, 10), &points, &grid);
    assert_eq!(edge, Some(DisplayTextLocation { alignment: Alignment::Center, x: 110, y: 80 }));
    let small = Grid::new(10, 10);
    assert_eq!(display_text::try_gateway_display_text_location_candidates(&config(), (30, 10), dim, Side::Left, &small), None);
    assert!(grid.box_query_check((173, 193), (30, 10)));
    assert!(!small.box_query_check((173, 193), (30, 10)));
}
