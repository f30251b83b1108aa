# cow_core

Curse of War, a real-time strategy game on a hex grid, with its game logic
verified by Verus.

- `src/` is the library, verified but for the calls into `rand` and
  `getopts`, whose contracts are trusted: the map and its
  generation (`grid`), the flag overlays (`flags`), the computer players
  (`ai`), one simulation step (`sim`, with the population's
  `migration`), the game state and its actions
  (`state`), the cursor and key handling (`ui`, `event`, `app`), the
  command line (`args` reads it with `getopts`, `cli` decides what it
  asks for), the interface texts (`i18n`) and the screen geometry
  (`render`). `rng` wraps the `rand` generator; `wide` holds the 256-bit
  arithmetic that the computer players' integer comparisons need.
- `tests/` runs the library on concrete games.
- `app/` is the terminal program: the environment, the output of the
  command line, the `crossterm` event loop, drawing with `ratatui`, and
  the floating-point ranking of starting locations.
