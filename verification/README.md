# egui_noodle

A node-graph canvas for egui in which the application owns the model and the
canvas is a view over it: the canvas draws the graph and reports what the
user did as events; the application decides what to apply.

## Layout

- `src/` is the library, verified with Verus.
  - `model/` - the graph (nodes keyed by a monotonic id, wires in connection
    order, topology and layout revisions), the queries over it (upstream and
    downstream cones, the bridges a deletion closes), and the laws that tie
    its operations together (what undoes what, what stays unchanged).
  - `canvas/` - the rules the canvas applies on top of the graph: the
    selection and what a click does to it, what the pointer hovers, the
    events and how the graph applies them (and how a drag is undone), what
    a released wire or node drag and a deletion turn into, which wire a
    dragged node goes into, the draw order, and which nodes slide aside when
    a node is spliced into a wire.
- `app/` is the egui side, in plain Rust over the library: layout, wire
  routing, hit-testing, snapping, painting and input. All of it is
  floating-point geometry or egui state.
- `tests/` runs the library on concrete graphs.
