# life_sim_core

The verified core of a headless life simulation: creatures wander a tile
world, find paths, pair up and give birth, while health checks watch the
run. The library is written in Verus; every function in `src/` carries a
contract that Verus proves, except a few small wrappers whose contracts
are trusted: `fresh_rng` and `random_offset` in
`src/entities/wandering.rs` (the `rand` crate's thread generator and
`gen_range`) and `clock_now`, `since_unix_epoch` and `whole_millis` in
`src/debug/health.rs` (the system clock).

Layout:

- `src/geometry.rs`: tiles (`IVec2`), entities and the integer keys used
  to store them in maps.
- `src/pathfinding/`: the cost grid, A* search and routes, the route cache,
  the region map (connected areas), the prioritised request queue, and the
  glue that serves move orders.
- `src/entities/`: movement along paths, wandering, mate matching and
  births, relationships (packs, parents, mates, hunts), the spatial index
  and spatial cells, the spawn configuration, the species' system names.
- `src/debug/health.rs`: the health checker (alerts, stuck creatures,
  population crashes, action loops).
- `src/cached_world.rs`: the in-memory world (chunks by layer), the chunk
  coordinates a request asks for, and the JSON text of the world API.
- `src/errors.rs`, `src/events.rs`: the error type and the simulation events.
- `tests/`: tests run against the compiled library.
- `app/`: the headless driver program: world setup, spawning, the tick loop,
  needs kept as floating-point numbers, configuration files (RON) and JSON
  reports.
