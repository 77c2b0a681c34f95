# tank_trouble

The rules of a two-player tank maze game, with proofs of their contracts,
and the game itself on top of them.

- `src/maze.rs`: the maze model (a grid of cells with a wall below and a wall
  right of each cell), open steps between cells, walks and connectivity.
- `src/regions.rs`: breadth-first search for the connected regions, their
  sizes, the first largest region, and the tanks' starting squares in it.
- `src/board.rs`: the random board, the feeds of horizontal and vertical
  walls to draw, and how the drawn walls match the maze.
- `src/render.rs`: the text picture of a maze.
- `src/tanks.rs`: ammunition, colours at the start of a round, and controls.
- `src/round.rs`: the end of a round and its restart.
- `src/rng.rs`: the random numbers drawn from `rand`.
- `app/main.rs`: the bevy game: windows, sprites, timers, and the
  floating-point geometry (movement, hit tests, bounces and wall collision),
  calling the library for the maze, the starting squares, the walls to draw,
  ammunition, controls and the end of a round.
