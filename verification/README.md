# symbios_ground

The integer core of a procedural terrain engine, verified with Verus.

`src/` is the verified library:

- `grid` — row-major layout of a `width × height` grid (`GridShape`): cell
  positions, edge clamping, axis steps, 2×2 blocks and square or ring-shaped
  neighbourhoods, each stated exactly.
- `seeds` — SplitMix64 and the per-tile seed derivation, with proofs that
  both lose no information (distinct tiles get distinct seeds).
- `tiles` — `TileCache<T>`, the on-demand tile cache of a streamed world:
  tiles are made on first request from their coordinate and derived seed,
  held tiles are never remade, and eviction keeps exactly the tiles within a
  Chebyshev radius. The tiles are held in a `HashMap<u64, _>` keyed by the
  packed coordinate (one-to-one, proved in `seeds`), since vstd models hash
  maps with integer keys; eviction lists the keys and removes the far tiles
  one by one, because `retain` has no specification. The order in which the
  map lists its tiles is not part of the contract.
- `noise` — the seeded, doubled permutation table and mantissas behind
  value noise (drawn with `rand`/`rand_pcg`).
- `diamond` — the Diamond-Square working side (`2^k + 1`) and the exact
  order of its midpoint assignments, level by level.
- `subdivision` — proofs that this order assigns every cell other than the
  four corners exactly once, and that every assignment reads only corners
  and cells assigned before it.
- `voronoi` — Voronoi terracing parameters and the side of its acceleration
  grid.
- `splat` — the RGBA weight-map buffer.

`app/` holds the floating-point terrain code built on that core: the `f32`
heightmap and its sampling, the three generators, thermal and hydraulic
erosion, splat mapping and the tiled world.
