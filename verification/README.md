# tma_engine

Affine transforms, iterated function systems (IFS) and recursive branching
networks, with the integer and structural logic verified by Verus.

- `src/` — the verified library.
  - `geometry/network.rs` (+ `network/traversal.rs`): the branching network.
    Nodes and edges carry a payload chosen by the caller; the library keeps the
    tree shape (parents, depths, one edge per non-root node) as an invariant,
    grows it breadth-first (`grow_from_ifs`), lists children and traverses it
    breadth-first, with proofs that the traversal visits each node of a subtree
    exactly once, level by level.
  - `geometry/growth.rs`: how many nodes a growth pass appends and where they hang.
  - `geometry/chaos.rs`: the chaos-game iteration (warm-up, then kept states).
  - `geometry/ifs_weights.rs`: which error a list of IFS weights gets.
  - `render.rs`: palette, bounds and painting of pixels into an `image` buffer.
- `app/` — the floating-point side (`TMA`, `IFS`, flow metrics, projection of
  points onto pixels) and PNG output, built on the library.
- `tests/` — tests of the library.
