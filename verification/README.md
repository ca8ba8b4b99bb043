# Flat Hypercube

A terminal simulator for `n^d` hypercube puzzles, with its model verified by
Verus.

- `src/` is the verified library:
  - `turns.rs`, `geometry.rs`: turns, their inverses and normal form, and
    what a turn does to sticker positions and colours;
  - `stickers.rs`: the map from sticker positions to colours;
  - `puzzle.rs`: building a solved puzzle, checking it is solved, single and
    batched turns, scrambling, and the laws of undoing turns;
  - `cycles.rs`, `enumeration.rs`: permutation cycles for batched turns and
    the enumeration of sticker positions;
  - `prefs.rs`: key names and colours of the preference file, and the rules
    that keep its keys apart;
  - `commands.rs`, `terminal_ui.rs`: the slash-command line, the output
    panel and the screen layout;
  - `text.rs`: string operations of `std` behind contracts.
- `tests/` runs the library on concrete values.
- `app/` holds what touches the terminal and files: drawing with crossterm,
  key events, and the serde forms of the preference file and saved puzzles.
