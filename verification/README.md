# algo_caster

The verified core of an interactive teaching tool for graph algorithms: the graph and
its undo/redo editing history, breadth- and depth-first search, Kahn's and the
depth-first topological sort, Kruskal's spanning forest with its disjoint-set forest,
the run history, the comparison of measured runs, and the editor's playback and
challenge logic. Every function in `src/` is proved by Verus against its contract;
coordinates and weights are carried as the bit patterns of the editor's floats.

Deleting a node on the canvas is recorded as one step together with the renumbering
that closes the gap, so undo gives back the graph from before the deletion
(`law_undo_deletion`). Timestamps are ISO 8601 dates of the Gregorian calendar, in UTC.

- `src/graph`: nodes, edges, the graph and the editing commands with their inverses.
- `src/algorithm`: the algorithms and the snapshots they leave for the animation.
- `src/performance`, `src/storage`: run measurement bookkeeping, benchmark settings,
  save records and the run history.
- `src/ui`, `src/visualization`, `src/text`: editor modes, canvas clicks, pseudocode,
  playback, theme palettes, the dashboard's state, node labels and timestamps.
- `app/`: the egui window, file I/O, JSON, the clock, and the algorithms whose logic
  rests on floating-point distances (Dijkstra, Bellman-Ford, Floyd-Warshall, A*, Prim).
