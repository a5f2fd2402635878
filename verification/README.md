# benilla_world

The discrete core of a World of Warcraft client's world layer, verified with Verus: the terrain
residency window and the streamer's release and request decisions, the shared placement registry
and its ownership handoff, the doodad hull welds and the static-merge blobs, the portal flood
over a WMO's group graph and the per-group visibility and interior-fog predicates, the weather
state machine, the water-foam record pool, the census counts and keyed tallies, and the view settings read from the environment.

- `src/` is the verified library. Every function carries a contract over mathematical models
  (`Seq`, `Map`, `int`); the laws that span functions are public proof functions.
- `tests/` exercises the library on concrete values.
- `app/` is the host side: environment switches, the floating-point rules between world
  positions and the library's grid, the portal geometry the flood asks about, and the per-frame
  drivers that perform the spawning and despawning the library decides on.
