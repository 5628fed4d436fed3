# asteroid_colonies_logic

The game logic of a colony-building game on a tiled asteroid, written in Verus: the library's
functions carry `requires` / `ensures` contracts that the verifier proves.

- `src/` is the verified library: generational entity sets (`entity`), chunked tile maps
  (`tile`), directions and conveyors, inventories and recipes, buildings and their tick
  (`building`, `building_tick`, `crew_cabin`), construction sites, crews, transports and
  path search (`transport`, `heap`), pushing and pulling items over conveyors (`push_pull`),
  power, global tasks, the player's orders, conveyor planning, restoring a saved colony
  (`restore`) and the xorshift generator that draws the game's random numbers (`rng`). `fnv`
  hashing of tiles is the one call into an outside crate (`hash`).
- `tests/` exercises the library through its public interface.
- `app/` is plain Rust around it: random numbers as floats, the starting terrain, the
  floating point part of a tick, and the byte encoding of chunk digests.
