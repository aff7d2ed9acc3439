# bpmd

A library for BPMD, a text notation for business process diagrams. It resolves the
names and `@ids` of a diagram to its pools, lanes and nodes, and checks privacy-enhancing
annotations (TEE and MPC blocks). It also holds the integer steps of the layout, which
computes the x, y, width and height of every element, the routes of the edges and where
their labels go. Those steps include validation, back edges, lane ordering, port
assignment with its bend dummies (gateways included), dummy replacement, edge routing
and label placement.

The library is written in Verus. Each function in `src/` has a contract (`requires` /
`ensures`), and Verus proves that the code meets it. The laws that connect several
functions are public proof functions (`lemma_*`).

## Layout

- `src/`: the verified library.
  - `ids`, `vecmap`, `vecset`, `graph`: identifiers, small containers and the diagram graph.
  - `lexer`, `parser`, `pebpmd`, `id_matcher`: reading the notation and resolving names.
  - `collision_grid`, `quad_tree`, `display_text`, `text`: collision queries and label placement.
  - The layout phases: `validate_graph_correctness`, `back_edges`, `crossing_common`,
    `lane_crossings`, `sort_incoming_and_outgoing`, `lane_neighbours`, `layer_walk`,
    `half_layer`, `bend_dummy`, `port_assignment`, `port_plan`, `port_placement`, `gateway_ports`,
    `fixup_gateway_ports`, `boundary_events`, `layered_edges`, `edge_routing`,
    `data_edge_routing`, `straight_edges`, `dummy_replacement`, `transported_data`.
- `app/`: the parts that use floating point or the clock. This covers rasterising a line
  into grid cells, spacing ports evenly along a side (and with it the port assignment of
  nodes that are not gateways, and the pass over all nodes), and the phase timer.
- `tests/`: tests that run the compiled library on concrete diagrams.

Not part of this library: the steps that solve integer linear programs (layer
assignment, crossing reduction, and the x/y assignment around gateways), which use a
floating-point solver. Also outside it are the generation and removal of long-edge
dummies, the placement of labels across the whole diagram (text measurement), and the
driver that runs all layout phases in order.
