# maze

A terminal maze game. The library (`src/`) carves a maze by randomized
depth-first search, places a start and an end point on its borders, solves it
by backtracking (trying first the neighbours closest to the end point) and
moves a player through it; every function carries a contract checked by Verus.
`app/main.rs` is the terminal front end: it reads keys with crossterm, draws
with colored, and plays the solver's recorded frames as an animation.

Layout of `src/`:

- `cell.rs`: cells, keys, menu entries, move results.
- `grid.rs`: the model of a maze as rows of cells, and counting empty nodes.
- `builder.rs`: the fresh grid; clearing visit marks.
- `random.rs`: the two calls into `rand`.
- `picker.rs`, `generator.rs`, `game.rs`: picking the start cell, carving
  (`carve_in_orders` runs the depth-first search for given orders of
  directions, `maze_generator` draws them at random), and the whole
  generation (exactly one open wall fewer than nodes, no cycle);
  `laws.rs`: that carving a fresh grid reaches and joins every node, that a
  move is undone by the opposite move and keeps the number of players;
  `exit.rs`: that the solver reaches the end point of every maze carved
  from a fresh grid of any width and height.
- `setup.rs`: placing start and end points.
- `solver.rs`, `reach.rs`, `solve.rs`: ranking moves, the walks the search can
  take, and the backtracking search with its animation frames.
- `player.rs`, `menu.rs`, `render.rs`, `scan.rs`, `checks.rs`: playing, the
  menu, what each cell looks like, finding cells, and tests a front end makes
  before it calls in.
