# sim_core

The verified core of a seventeenth-century Atlantic trade and sailing
simulation, written in Verus.

`src/` is the library. Every function in it is verified except a few
trusted wrappers, each a single call into an outside crate or `format!`
with its contract stated in the wrapper (the generator in `sim_rng`, the
neighbour rings in `geo::mesh`, the peso text in `money`):

- `money` — pesos at centavo precision, saturating and exact arithmetic.
- `port`, `policy`, `policy::load` — factions, docking and trade rules,
  per-port overrides and their resolution from the policy file's records.
- `goods`, `cargo`, `market`, `market::recipe` — goods, name lookups,
  port archetypes and their monthly recipes, silver settlements and the
  silver side of direct trades.
- `pop` — monthly demographics of a port's sailor pool.
- `telemetry` — per-port counters.
- `bt`, `ai` — the behaviour-tree interpreter, whose contexts keep a log of
  the calls made on them, a table-driven context, and the ship captain's
  tree.
- `ship`, `combat`, `shiptype`, `shipyard`, `nav` — ship states, crew
  accounting, boarding outcomes, navigation goals.
- `sim_rng` — the deterministic generator (`rand_pcg`): same seed, same
  sequence.
- `coastline`, `coastline_geom`, `map::land`, `geo` — decoding of the
  chart files, the bucket grids over coast segments and land triangles,
  the land raster and its nearest-sea search, the geodesic globe's
  topology, neighbour rings and lookup grid.
- `navmesh`, `portroutes`, `spatial` — waypoint sampling, graph pruning,
  predecessor walks, the ships' spatial index.

`app/` holds what stays outside the verifier: file I/O, the RON policy
file, and floating-point code (chart geometry, route lengths and
searches, the price curve and the auction clearer, boarding odds, cargo
tonnage, random draws as floats), calling the library for the decisions
above.

`tests/` exercises the library from outside.
