# jstd

Graphs with typed identifiers, the containers they rest on, control-flow analyses, and
layered and force-directed graph layout. The library under `src/` is verified with Verus:
every public function states what it returns in its contract.

- `registry`, `stable_arena`, `recycling_arena`, `intern`, `num_ref`: containers that hand
  out typed identifiers.
- `graph`: the graph itself, its traversals and its text format.
- `graph::analysis`: dominators, post-dominators, and single-entry single-exit regions.
- `triskel`: layout. Cycles are broken, ranks assigned, long edges segmented, rows ordered
  and blocks aligned here; regions and hammocks are found for composed layouts.

`app/` gives the arranged graphs their coordinates, routes and pictures, which are real
numbers, and holds the command `triskel-png`:

    triskel-png INPUT.dot OUTPUT.png [--sese] [--debug] [--straight] [--scale N]
