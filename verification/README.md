# engine

The simulation engine of a small tile-based world: a seeded maze of rooms and
corridors, a camp, three destination buildings that link to site sections,
and treats to collect. The engine owns the world state and the rules; a
renderer draws the snapshots it produces.

The library is written in Verus and every function in it is verified.

## Layout

- `src/rng.rs` — the Xoshiro128++ generator, pinned to a mathematical model.
- `src/grid.rs` — row-major wall grids, walks and reachability.
- `src/maze.rs` — binary-space-partition maze generation; the maze keeps a
  solid border, carves every room, keeps rooms apart and is connected.
- `src/routes.rs` — why a connected maze stays connected once the
  destination buildings are made solid.
- `src/placement.rs` — placing wall colliders, the camp, the destinations
  with their buildings, and the treats.
- `src/world.rs` — the entity-component store and its model.
- `src/components.rs`, `src/state.rs` — components and the values exchanged
  with the renderer.
- `src/systems.rs` — movement, treat collection, destination and camp checks.
- `src/lib.rs` — the engine: construction from a seed, the per-frame step
  and the status line, with the invariants the step keeps.
- `tests/` — tests of the library.
- `app/` — the browser bindings: `wasm-bindgen` exports, `serde` conversion,
  and the floating-point pixel positions derived from the grid motion.
