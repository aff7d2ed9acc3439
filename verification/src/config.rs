//! Layout parameters and the x ranges derived from them.
use vstd::prelude::*;
use crate::graph::MAX_NODE_WIDTH;
use crate::ids::LayerId;

verus! {

/// The integral layout parameters. The edge weights of the layer assignment, which are
/// floating-point numbers, are kept by the caller.
#[derive(Debug, Clone, Copy)]
pub struct Config {
    /// Space between the lane border and the nodes and edges inside the lane.
    pub lane_y_padding: usize,
    pub lane_header_width: usize,
    pub lane_x_padding: usize,
    pub pool_header_width: usize,
    pub vertical_space_between_pools: usize,
    /// Space between two pools on the same horizontal line.
    pub pool_x_margin: usize,
    /// Between two of the widest nodes next to each other.
    pub min_horizontal_space_between_nodes: usize,
    pub max_space_between_vertical_edge_segments: usize,
    pub min_space_between_nodes_and_vertical_edge_segments: usize,
    /// For empty lanes, so that they do not collapse into a line.
    pub height_of_empty_lane: usize,
    pub height_of_empty_pool: usize,
    pub dummy_node_y_padding: usize,
    pub regular_node_y_padding: usize,
    pub max_nodes_per_layer: usize,
}

impl Default for Config {
    fn default() -> (r: Config)
        ensures
            r == (Config {
                lane_y_padding: 40,
                lane_header_width: 15,
                lane_x_padding: 15,
                pool_header_width: 30,
                vertical_space_between_pools: 40,
                pool_x_margin: 40,
                min_horizontal_space_between_nodes: 60,
                max_space_between_vertical_edge_segments: 6,
                min_space_between_nodes_and_vertical_edge_segments: 6,
                height_of_empty_lane: 40,
                height_of_empty_pool: 40,
                dummy_node_y_padding: 20,
                regular_node_y_padding: 30,
                max_nodes_per_layer: 3,
            }),
    {
        Config {
            lane_y_padding: 40,
            lane_header_width: 15,
            lane_x_padding: 15,
            pool_header_width: 30,
            vertical_space_between_pools: 40,
            pool_x_margin: 40,
            min_horizontal_space_between_nodes: 60,
            max_space_between_vertical_edge_segments: 6,
            min_space_between_nodes_and_vertical_edge_segments: 6,
            height_of_empty_lane: 40,
            height_of_empty_pool: 40,
            dummy_node_y_padding: 20,
            regular_node_y_padding: 30,
            max_nodes_per_layer: 3,
        }
    }
}

/// An x range reserved for vertical edge segments, with its centre.
#[derive(Debug, Clone, Copy, PartialEq, Eq, Structural)]
pub struct EdgeSegmentSpace {
    pub start_x: usize,
    pub end_x: usize,
    pub center_x: usize,
}

/// Where a range for vertical edge segments lies.
#[derive(Debug, Clone, Copy)]
pub enum EdgeSegmentSpaceLocation {
    /// Left of the first layer; only right loops go there.
    LeftBorder,
    /// Between a layer and the next.
    After(LayerId),
    /// Right of the last layer; only left loops go there.
    AfterLast(LayerId),
}

/// Width of a layer: the widest node plus the minimal space between nodes.
pub open spec fn spec_layer_width(c: Config) -> int {
    c.min_horizontal_space_between_nodes + MAX_NODE_WIDTH
}

/// The start of the x range for vertical edge segments at `location` (before conversion).
pub open spec fn spec_segment_space_start(c: Config, location: EdgeSegmentSpaceLocation) -> int {
    match location {
        EdgeSegmentSpaceLocation::LeftBorder => c.pool_header_width + c.lane_header_width
            + c.min_space_between_nodes_and_vertical_edge_segments,
        EdgeSegmentSpaceLocation::After(LayerId(l)) => c.pool_header_width + c.lane_header_width
            + c.lane_x_padding + MAX_NODE_WIDTH + spec_layer_width(c) * l
            + c.min_space_between_nodes_and_vertical_edge_segments,
        EdgeSegmentSpaceLocation::AfterLast(LayerId(l)) => c.pool_header_width + c.lane_header_width
            + c.lane_x_padding + MAX_NODE_WIDTH + spec_layer_width(c) * l
            + c.min_space_between_nodes_and_vertical_edge_segments,
    }
}

/// The length of the x range for vertical edge segments at `location`.
pub open spec fn spec_segment_space_len(c: Config, location: EdgeSegmentSpaceLocation) -> int {
    match location {
        EdgeSegmentSpaceLocation::After(_) => c.min_horizontal_space_between_nodes
            - 2 * c.min_space_between_nodes_and_vertical_edge_segments,
        _ => c.lane_x_padding - 2 * c.min_space_between_nodes_and_vertical_edge_segments,
    }
}

impl Config {
    /// Room between two layers that is left for vertical edge segments.
    pub fn space_between_layers_for_segments(&self) -> (r: usize)
        requires
            2 * self.max_space_between_vertical_edge_segments <= self.min_horizontal_space_between_nodes,
        ensures
            r == self.min_horizontal_space_between_nodes - 2 * self.max_space_between_vertical_edge_segments,
    {
        self.min_horizontal_space_between_nodes - 2 * self.max_space_between_vertical_edge_segments
    }

    /// Width of a layer.
    pub fn layer_width(&self) -> (r: usize)
        requires
            spec_layer_width(*self) <= usize::MAX,
        ensures
            r == spec_layer_width(*self),
    {
        self.min_horizontal_space_between_nodes + MAX_NODE_WIDTH
    }

    /// The x coordinate of the centre of a layer.
    pub fn layer_center(&self, layer: LayerId) -> (r: usize)
        requires
            self.pool_header_width + self.lane_header_width + self.lane_x_padding + MAX_NODE_WIDTH / 2
                + layer.0 * spec_layer_width(*self) <= usize::MAX,
        ensures
            r == self.pool_header_width + self.lane_header_width + self.lane_x_padding + MAX_NODE_WIDTH / 2
                + layer.0 * spec_layer_width(*self),
    {
        let LayerId(layer_idx) = layer;
        let ghost w = spec_layer_width(*self);
        proof {
            assert(layer_idx >= 1 ==> w <= layer_idx * w) by (nonlinear_arith)
                requires w >= 0;
            assert(layer_idx == 0 ==> layer_idx * w == 0) by (nonlinear_arith);
        }
        let lw = if layer_idx == 0 { 0 } else { self.layer_width() };
        proof {
            assert(layer_idx * lw == layer_idx * w) by (nonlinear_arith)
                requires layer_idx == 0 || lw == w;
        }
        self.pool_header_width + self.lane_header_width + self.lane_x_padding + MAX_NODE_WIDTH / 2 + layer_idx * lw
    }

    /// Total width of a pool with `num_layers` layers.
    pub fn pool_width(&self, num_layers: usize) -> (r: usize)
        requires
            self.pool_header_width + self.lane_header_width + self.lane_x_padding
                + spec_layer_width(*self) * (if num_layers == 0 { 0int } else { num_layers - 1 })
                + MAX_NODE_WIDTH + self.lane_x_padding <= usize::MAX,
        ensures
            r == self.pool_header_width + self.lane_header_width + self.lane_x_padding
                + spec_layer_width(*self) * (if num_layers == 0 { 0int } else { num_layers - 1 })
                + MAX_NODE_WIDTH + self.lane_x_padding,
    {
        let n = if num_layers == 0 { 0 } else { num_layers - 1 };
        let ghost w = spec_layer_width(*self);
        proof {
            assert(n >= 1 ==> w <= w * n) by (nonlinear_arith)
                requires w >= 0;
        }
        let lw = if n == 0 { 0 } else { self.layer_width() };
        proof {
            assert(lw * n == w * n) by (nonlinear_arith)
                requires n == 0 || lw == w;
        }
        self.pool_header_width + self.lane_header_width + self.lane_x_padding + lw * n + MAX_NODE_WIDTH
            + self.lane_x_padding
    }

    /// The x range for vertical edge segments at `location`; its centre is the middle of the range
    /// (rounded down).
    pub fn edge_segment_space(&self, location: EdgeSegmentSpaceLocation) -> (r: EdgeSegmentSpace)
        requires
            spec_segment_space_len(*self, location) >= 0,
            spec_segment_space_start(*self, location) + spec_segment_space_len(*self, location) <= usize::MAX,
            spec_layer_width(*self) <= usize::MAX,
        ensures
            r.start_x == spec_segment_space_start(*self, location),
            r.end_x == spec_segment_space_start(*self, location) + spec_segment_space_len(*self, location),
            r.center_x == spec_segment_space_start(*self, location) + spec_segment_space_len(*self, location) / 2,
    {
        match location {
            EdgeSegmentSpaceLocation::LeftBorder => {
                let start_x = self.pool_header_width + self.lane_header_width
                    + self.min_space_between_nodes_and_vertical_edge_segments;
                let len = self.lane_x_padding - 2 * self.min_space_between_nodes_and_vertical_edge_segments;
                EdgeSegmentSpace { start_x, end_x: start_x + len, center_x: start_x + len / 2 }
            },
            EdgeSegmentSpaceLocation::After(LayerId(layer_idx)) => {
                let lw = self.layer_width();
                proof {
                    vstd::arithmetic::mul::lemma_mul_is_commutative(layer_idx as int, lw as int);
                }
                let start_x = self.pool_header_width + self.lane_header_width + self.lane_x_padding + MAX_NODE_WIDTH
                    + lw * layer_idx + self.min_space_between_nodes_and_vertical_edge_segments;
                let len = self.min_horizontal_space_between_nodes
                    - 2 * self.min_space_between_nodes_and_vertical_edge_segments;
                EdgeSegmentSpace { start_x, end_x: start_x + len, center_x: start_x + len / 2 }
            },
            EdgeSegmentSpaceLocation::AfterLast(LayerId(layer_idx)) => {
                let lw = self.layer_width();
                let start_x = self.pool_header_width + self.lane_header_width + self.lane_x_padding + MAX_NODE_WIDTH
                    + lw * layer_idx + self.min_space_between_nodes_and_vertical_edge_segments;
                let len = self.lane_x_padding - 2 * self.min_space_between_nodes_and_vertical_edge_segments;
                EdgeSegmentSpace { start_x, end_x: start_x + len, center_x: start_x + len / 2 }
            },
        }
    }
}

} // verus!
