# m1_visualiser

A structural graph of a MoTeC M1 project, with its renderers, written in Verus.

The library (`src/`) holds the logic, each function with a contract that Verus
proves:

- `model`: the graph model (nodes, edges, value/diff overlays).
- `loader`: the graph a project's symbol table and its functions' read/write
  sets give: symbol nodes, synthesized ancestor groups, clock nodes, and the
  hierarchy, table-axis, schedule and data-flow edges, in a deterministic order.
- `dataflow`: the names a function script's syntax tree resolves, in walk
  order, and the read/write sets folded from their resolutions.
- `eval`: the value and diff overlays, joined onto the graph by node id.
- `dot`, `html`: the Graphviz DOT document and the self-contained HTML viewer.
- `cli`: the command line's decisions (format, overlay mode, sibling config,
  scrubber start).
- `text`: string helpers and the character order the sorting uses.

Quantities that are floating point in the M1 toolchain (rates, tick times,
values, deltas) are carried as the decimal text that `f64`'s `Display` writes.

`app/` is the command-line program around the library: argument parsing, file
I/O, JSON (serde), and the calls into the M1 toolchain crates (`m1-core`,
`m1-typecheck`, `m1-eval`), which parse projects and scripts, resolve names and
run the evaluator. The HTML viewer's shell and the Cytoscape.js library are read
at run time from a `templates/` directory.
