# ch_routing

Shortest paths on road graphs with contraction hierarchies, verified with Verus.

- `src/` is the library. Graph files are read from bytes (`fmi`, `text`,
  `level_graph`), written back (`export`), searched with Dijkstra
  (`dijkstra`, `min_queue`, `bitset`), preprocessed into a contraction
  hierarchy and queried (`ch`, with the proofs in `contraction`, `selection`,
  `levels`, `bypass`, `round_law`, `hierarchy` and `climb`), and analysed
  (`components`, `permutation`). Walks and
  distances, in terms of which the contracts are stated, are defined in
  `paths`. Calls into `rayon` and `rand`, and two sorts of the standard
  library, are the only parts taken on trust; they sit in `parallel`, in
  `permutation` and in `level_graph`.
- `tests/` runs the library on small graphs.
- `app/` is the program around it: it reads `graph.fmi`, preprocesses it,
  writes `graph.ch` and a log, and answers the queries of `queries.txt`.
