# wfc

Wave function collapse on a rectangular grid, with the rules of a small multiplayer
"backrooms" game built on it, verified with Verus.

- `src/map.rs`: `Map2D`, a grid stored row by row, with its indexing laws.
- `src/tile.rs`: the `Tile` trait a kind of tile implements (weight, all kinds, allowed
  neighbours per side).
- `src/probability.rs`: cells (waves or settled tiles), collapsing, propagation of the
  neighbour constraints, undoing a step, and the consistency laws of generation.
- `src/rules.rs`: the tile rules declared by `weight`/`constraint` attributes, and those
  read from a map drawn in the Tiled editor.
- `src/random.rs`: the calls into `rand` the generator makes, with their contracts.
- `src/pathfinding.rs`: A* over walkable cells through the `pathfinding` crate.
- `src/game.rs`: the game's level pieces, spawn search, menu and lobby decisions.
- `app/`: a command-line program that reads a Tiled JSON file, generates a level, finds
  the spawn point and encodes the level as the players would send it; it also holds the
  floating-point movement and camera code.
