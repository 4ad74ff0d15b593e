# waterdrop_terrain_generator

A node-graph terrain generator: nodes (generators, filters, colorizers, exporters) are wired
into a graph, and the graph is evaluated chunk by chunk over a grid, or in one whole-terrain pass
for nodes that need the whole terrain at once.

`src/` is the library, verified with Verus:

- `graph/` — the topology (nodes, sockets, connections, generic socket types, ancestors), the
  graph that drops cached outputs downstream of every edit, the connection check, and the
  per-scope state table of a recursive evaluation (dirty, processing, cached, baked).
- `evaluation/` — the output cache, the evaluation plan (topological order, working sizes with
  kernel padding, where each input comes from, frame plans for whole-terrain passes) and the
  processor that decides, step by step, what runs next.
- `node/` — socket and locality types, errors and their messages, timed feedback messages,
  parameter limits.
- `tiling/` — the chunk grid, centered crops, and the stitching and splitting of chunk tiles.
- `session.rs`, `project.rs` — preview bookkeeping, and the edge lists a saved project stores.
- `nodes/` — what the graph knows of the shipped node types and their named options.

`app/` is the program around it: the bevy app, the tile buffers and world-space frames, the node
implementations (per-texel floating-point work), the task spawning and polling, file and JSON
input and output.
