# leo_viz

Verified core of a LEO satellite-constellation visualiser, written in Verus.

`src/` is the library. Every function in it carries a contract that Verus
proves, except one trusted wrapper, `geo::join_path`, whose contract
restates what `std::path::Path::join` does on the inputs it accepts.

- `torus`: ring stepping and the shortest direction around a ring of
  planes or slots, and the two hop-by-hop Manhattan routes on a Walker grid.
- `routing`, `graph`, `bfs`: satellite lookup by grid address, undirected
  link lists and hop counts (breadth-first).
- `grid`: the links of a Walker grid; no walk over them is shorter in hops
  than the Manhattan hop count.
- `lapjv`: least-cost assignment (Jonker-Volgenant), proved optimal.
- `spacecomp`: planning an in-orbit map-reduce job on the grid: mapper pool,
  optimal collector-to-mapper assignment and the reducer.
- `slides`, `raster`, `igrf`, `projection`, `hashing`, `geo`: slide deck
  locations and asset URIs, texture packing and downscaling, coefficient
  indexing, map projection ids, hash bits and the cache directory.
- `cameras`: what a click on a satellite does to the satellite cameras.

`tests/` exercises the library on concrete values. `app/` is the thin
command-line front end: file and network input, JSON parsing, and the
floating-point parts (choosing routes by Euclidean length, great-circle
distances, noise, camera rotations).
