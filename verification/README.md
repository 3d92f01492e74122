# navig18xx

Route finding, revenue and tile upgrades for 18xx train games, with the
logic verified by Verus.

- `src/` is the verified library: hexes and tiles as the path search reads
  them, the search for paths from a company's tokens, joining paths,
  combinations and permutations, train revenue and the best pairing of
  trains to routes, maximum flows and token placement when a tile is
  upgraded, company tokens, the 1867 game data, and the key bindings and
  modes of the user interface as state machines.
- `tests/` exercises the library on small hand-built maps and tiles.
- `app/` holds what the library does not: reading and writing JSON
  descriptions of tiles, cities and tokens with serde.
