# dagviz

A layered (Sugiyama-style) graph layout library whose combinatorial
core is verified with Verus.

The library assigns ranks to the nodes of a directed graph, breaks cycles,
splits long edges into chains of dummy nodes, orders the nodes within each
rank so that few edges cross, and aligns the nodes for horizontal
placement. The functions under `src/` carry `requires` / `ensures`
contracts that Verus proves, stated over spec functions on the graph's
nodes, edges and labels. The exceptions are the trusted items marked
`#[verifier::external_body]`: one-call wrappers around `indexmap::IndexMap`,
the hashing of node indices for the random initial order, and the clock of
the timer; their contracts are believed, not proved.

## Layout

- `src/graph.rs`, `src/types.rs`, `src/index_map.rs`: the graph (a vector of
  node labels, an insertion-ordered map holding the edge last added between
  two end points, and the earlier parallel edges it stands over), its
  labels, and the trusted wrappers around `indexmap::IndexMap`.
- `src/acyclic.rs`: cycle detection, the depth-first and greedy feedback arc
  sets, and the reversal of their edges and its undoing.
- `src/rank/`: longest-path ranking, feasible and tight trees, the network
  simplex (cut values, low/lim numbering, edge exchange, and the loop of
  rounds up to a given bound), the choice of ranker, strongly connected
  components and topological sorting.
- `src/order/`: layer graphs, initial orders, depth-first subgraph orders,
  sweeps with subgraph constraints, and crossing counts.
- `src/position/`: the integer part of Brandes–Köpf alignment (conflicts,
  vertical alignments).
- `src/layout.rs`, `src/nesting.rs`: edge normalization into dummy chains,
  border segments, edge label proxies, self-loop dummy nodes, nesting graph
  set-up and clean-up, dummy chain parents.
- `app/`: the command-line program. It holds what is not verified: file and
  terminal I/O, serde conversions, floating-point geometry (coordinates,
  barycenters, compaction) and the pipeline that calls the verified steps.
- `tests/`: executable tests of the library.
