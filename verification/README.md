# tesseract

Minesweeper on a four-dimensional grid. The field is drawn as a grid of
two-dimensional grids; every tile touches up to 80 others.

The library (`src/`) is verified with Verus:

- `grid` — the mathematics of the field: sizes, coordinates, the flat
  position of a tile, neighbourhoods, and their laws.
- `minesweeper` — the game: coordinates, tiles, the minefield with its
  counters, flagging, the reveal cascade and the zero region, starting a
  game; `minesweeper::laws` holds properties that span several moves.
- `game` — the first version of the game, with its own tiles and cascade.
- `session` — what the game window decides between frames: screens,
  clicks on tiles, the developer tools.
- `colors` — the table that colours the number on a tile.
- `icons` — the names of the tile pictures and their styles.

`app/` is the eframe window around the library: drawing, fonts, pictures
and the main menu. It hands every mouse event to `session::AppState`.
