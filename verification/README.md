# station

The logic of a multiplayer space-station game, written in Verus and proved against its
contracts.

- `src/` is the verified library: text accents (`accents`), map files in the TGM format
  (`tgm`), tile maps, directions and adjacency (`maps`), the bookkeeping of networked
  state and what clients are told to spawn (`networking`), orders and tasks (`utils`),
  grid containers (`items`), job selection (`job`), bone hierarchies (`body`), chat
  messages (`communication`) and the server configuration (`config`).
- `app/` is a small command-line front end: it reads accent files (RON), the server
  configuration (TOML) and map files from disk and hands them to the library.
- `tests/` runs the library on concrete values.
