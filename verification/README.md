# rustdu

An interactive terminal disk usage analyzer whose core is verified with
Verus.

- `src/` is the verified library:
  - `scanner.rs`: the size of a directory tree (depth limit, ignored names,
    saturating sums, the size cache, progress messages) and the listing of
    one directory, largest first, whole or one top-level entry at a time;
  - `sorting.rs`: the three stable orders of a listing (size, name,
    modification time), proved in order, a permutation and stable;
  - `app/`: the browser's state, what is visible (hidden files, filter,
    `--top`), and the key-driven state machine (`handlers.rs`), with the
    properties that hold across key presses (`properties.rs`);
  - `config.rs`, `ui.rs`, `text.rs`, `paths.rs`: settings, size colours
    and units, popup geometry, character-level helpers, parent paths.
- `app/` is the program around it: command line, terminal, reading the file
  system into the tree the scanner works on, deleting, writing reports, the
  settings file.
- `tests/` exercises the library on concrete trees and key sequences.
