# lib — verified core of a pixel simulation

`src/` is verified with Verus; `app/` is the program around it.

- `src/sr.rs` — a store of reference-counted shared values and the `Sr`
  handles to them (create, clone, drop, read, write), with laws on clone/drop.
- `src/grid.rs` — the screen size, grid positions and their one-number index.
- `src/map.rs` — lookups on a map's area of pixel handles (nearby and adjacent
  pixels, indexing by position).
- `src/structure.rs` — rigid pixel structures: finding the root, marking the
  pixels reachable from it, letting the rest break away into new structures.
- `src/priority.rs` — which pixels are simulated, and reaction ratio totals.
- `src/sim.rs` — the main loop's step decision and a frame's change of
  simulation type.
- `app/` — `main`, the floating-point physics (heat, reactions, gravity,
  collisions, masses) and save loading.
