# yifan_hu_rs

Multilevel spring-electrical graph layout (Yifan Hu's multilevel force-directed
method) for undirected graphs with straight-line edges.

## Layout of the crate

- `src/` — the verified library (Verus):
  - `graph.rs`: adjacency-list graphs (`Graph`, `Node`, `Neighbor`), edge
    insertion that keeps the graph simple and undirected, edge counting,
    walks and distances, and the repeated-sweep diameter estimate.
  - `search.rs`: the breadth-first search as the library runs it (queue
    order, depths, the first farthest vertex), with its invariants.
  - `load.rs`: the edge-list format, read one line at a time (`GraphLoader`):
    tokenising, number parsing, and the exact error messages; and what
    reading a whole input line by line gives (`file_result`).
  - `coarsen.rs`: the coarsening schemes — edge collapse (a heavy-edge
    matching), maximal independent vertex sets, and the hybrid of both —
    with the interpolation pattern from each fine vertex to the coarse ones.
  - `coarse_graph.rs`: which coarse vertices the coarse graph joins.
- `app/` — the command-line program: file reading, floating-point weights,
  the coarse vertex and edge weights, Barnes–Hut repulsion and the force-directed
  placement.
- `tests/` — tests of the library.

## Weights

The library never does arithmetic on weights. Each `f64` weight is stored as
an order key (`u64`) whose integer order is the order of the weights, so the
edge collapse can pick the heaviest edge without floating point. The program
converts in both directions (`app/weights.rs`).

## Input format

The first line that is neither blank nor a comment gives the vertex count;
each later line is an edge `u v [weight]` with zero-based vertex indices.
A line whose first token starts with `#` is a comment. Coordinates are written
as CSV.
