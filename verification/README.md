# rustsweeper

A minesweeper game. The library under `src/` holds the game's logic, verified
with Verus; `app/` is the Bevy program that draws the board and feeds it
clicks and key presses.

- `tile_states`: the state of one tile, revealing it, flags, its colour.
- `grid`: the board as a grid of columns, counts over it, mine counts around a tile.
- `board`: the board type and its accessors.
- `init`: building tiles from the states of their columns (which may differ
  in length), laying mines at random outside the safe corner, setting up a game.
- `pointer_handling`: what a click does, the reveal cascade, flags, hovering.
- `reset`: recounting the mines around every tile of a grid of any shape, and
  starting a new game.
- `game`: the game state, the win check and the tiles to uncover at the end.
