//! Verified core of BPMD, a text-to-BPMN diagram tool: the graph vocabulary, the small
//! container types, the identifier matcher, the PE-BPMD parser and the geometric helpers of
//! the layout phases.
pub mod ids;
pub mod vecmap;
pub mod vecset;
pub mod lexer;
pub mod pebpmd;
pub mod bpmn_node;
pub mod config;
pub mod graph;
pub mod collision_grid;
pub mod quad_tree;
pub mod display_text;
pub mod text;
pub mod id_matcher;
pub mod parser;
pub mod edge_routing;
pub mod port_assignment;
pub mod data_edge_routing;
pub mod lane_crossings;
pub mod sort_incoming_and_outgoing;
pub mod validate_graph_correctness;
pub mod lane_neighbours;
pub mod layered_edges;
pub mod constraint;
pub mod layer_walk;
pub mod bend_dummy;
pub mod half_layer;
pub mod dummy_replacement;
pub mod fixup_gateway_ports;
pub mod boundary_events;
pub mod transported_data;
pub mod straight_edges;
pub mod back_edges;
pub mod crossing_common;
pub mod port_plan;
pub mod port_placement;
pub mod gateway_ports;
