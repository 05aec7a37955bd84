# oif_sim

The verified core of a block-factory puzzle simulation, written in Verus. Every
function in `src/` carries a contract that Verus proves: no trusted items, no
assumptions.

## Layout

- `src/cell.rs`, `src/cellmap.rs`: grid cells, facings, quarter turns, and the
  cell-keyed map and set the rest of the library works on.
- `src/structure*.rs`, `src/factory.rs`, `src/activity.rs`, `src/materials.rs`,
  `src/connectivity.rs`, `src/rebuild.rs`, `src/edit.rs`: the structure table —
  factory connectivity through pusher heads, welded material classes, scene
  anchoring and inactivity, full rebuilds and local edits.
- `src/deform*.rs`: pusher deformation groups (which blocks a pusher drags or
  leaves when it extends or retracts).
- `src/moves.rs`, `src/plan.rs`, `src/history.rs`, `src/influence.rs`,
  `src/occupancy.rs`, `src/suction.rs`: candidate moves, their priority order,
  the execution history, cell claims and suction links.
- `src/rotation.rs`, `src/support.rs`, `src/turn.rs`, `src/motion.rs`: committing
  a quarter turn (and the law that the opposite turn undoes it), recorded gravity
  supports, turn-level decisions and the motion data handed to playback.
- `src/grid.rs`, `src/stamps.rs`, `src/shatter.rs`: giving placed blocks their
  identity and removing blocks, stamp collisions of translating and turning
  structures, and the shattering of fragile materials and stamps before moves
  execute.
- `src/signals.rs`, `src/optics.rs`, `src/pusher.rs`, `src/pending.rs`,
  `src/settings.rs`: signal networks, laser optics, pusher extension state,
  deferred effects and per-block settings.
- `tests/`: executable tests of the library.
- `app/`: conversions to and from `glam` vectors and serde copies of the library
  types.
