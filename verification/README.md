# nodetool

A node-graph tool: graph files describe node instances, the edges between
their ports and reusable groups; the compiler checks a definition and
resolves its types and port families into a runnable graph; an editor
session edits the definition over a WebSocket protocol; a run drives the
compiled graph.

## Layout

- `src/` — the library, verified with Verus. Every function carries a
  contract; the laws the library keeps stand as public proof functions.
  - `graph`, `document`, `loader`: the definition, its YAML tree, and the
    reading and writing of graph files.
  - `instances`, `edges`, `parameters`, `families`, `cycle`, `compile`:
    compilation, from instance checks to family resolution.
  - `flatten`, `packaging`: groups, flattened for compilation, packaged and
    unpacked in the editor.
  - `session`, `display`, `wiring`, `behaviour`: the editor's session, the
    run's display, the wiring of a run and each node's firing decisions.
  - `http`, `ws`: request heads and WebSocket frames.
  - `fizzbuzz`, `fizzbuzz_nodes`, `utility`: the linked plugins' node types
    and their logic.
- `tests/` — the tests, run against the compiled library.
- `app/` — the program around the library: the command line, file and
  network I/O, the tokio run loop, YAML parsing and the node behaviours
  that compute with floating point.
