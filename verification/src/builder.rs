//! Building the fresh grid, and clearing the marks that carving leaves.
use vstd::prelude::*;
use crate::cell::{Cell, NodeState, WallState};
use crate::grid::{grid, in_grid, in_rect, same_shape, set_cell, well_formed, grid_width};

verus! {

/// The cell at `(y, x)` of a fresh grid: walls on every even row and every
/// even column, empty nodes elsewhere.
pub open spec fn fresh_cell(y: int, x: int) -> Cell {
    if x == 0 || x % 2 == 0 || y == 0 || y % 2 == 0 {
        Cell::Wall(WallState::Closed)
    } else {
        Cell::Node(NodeState::Empty)
    }
}

/// `g` is the fresh grid of `width` by `height` nodes.
pub open spec fn is_fresh_grid(g: Seq<Seq<Cell>>, width: int, height: int) -> bool {
    &&& g.len() == 2 * height + 1
    &&& forall|y: int| 0 <= y < g.len() ==> #[trigger] g[y].len() == 2 * width + 1
    &&& forall|y: int, x: int| in_grid(g, y, x) ==> #[trigger] g[y][x] == fresh_cell(y, x)
}

/// The fresh grid of `width` by `height` nodes.
pub open spec fn fresh_grid(width: int, height: int) -> Seq<Seq<Cell>> {
    Seq::new((2 * height + 1) as nat, |r: int| Seq::new((2 * width + 1) as nat, |c: int| fresh_cell(r, c)))
}

/// The grid with its visit marks cleared.
pub open spec fn cleaned(g: Seq<Seq<Cell>>) -> Seq<Seq<Cell>> {
    Seq::new(g.len(), |r: int| Seq::new(g[r].len(), |c: int| cleaned_cell(g, r, c)))
}

/// Builds a grid of `width` by `height` nodes, each node closed in by walls.
pub fn initial_maze_grid_maker(width: usize, height: usize) -> (maze: Vec<Vec<Cell>>)
    requires
        width + width + 1 <= usize::MAX,
        height + height + 1 <= usize::MAX,
    ensures
        is_fresh_grid(grid(&maze), width as int, height as int),
{
    let width: usize = width + width + 1;
    let height: usize = height + height + 1;
    let mut maze: Vec<Vec<Cell>> = Vec::new();
    for y in 0..height
        invariant
            maze@.len() == y,
            forall|r: int| 0 <= r < y ==> #[trigger] maze@[r]@.len() == width,
            forall|r: int, c: int|
                0 <= r < y && 0 <= c < width ==> #[trigger] maze@[r]@[c] == fresh_cell(r, c),
    {
        let mut row: Vec<Cell> = Vec::new();
        for x in 0..width
            invariant
                row@.len() == x,
                forall|c: int| 0 <= c < x ==> #[trigger] row@[c] == fresh_cell(y as int, c),
        {
            if x == 0 || x % 2 == 0 || y == 0 || y % 2 == 0 {
                row.push(Cell::Wall(WallState::Closed));
            } else {
                row.push(Cell::Node(NodeState::Empty));
            }
        }
        maze.push(row);
    }
    maze
}

/// The cell at `(y, x)` once the visit marks are cleared.
pub open spec fn cleaned_cell(g: Seq<Seq<Cell>>, y: int, x: int) -> Cell {
    if in_rect(g, y, x) && g[y][x] == Cell::Node(NodeState::Visited) {
        Cell::Node(NodeState::Empty)
    } else {
        g[y][x]
    }
}

/// Turns every visited node of the scanned rectangle back into an empty node.
pub fn clean_up_maze_after_algorith(maze: Vec<Vec<Cell>>) -> (res: Vec<Vec<Cell>>)
    requires
        well_formed(grid(&maze)),
    ensures
        same_shape(grid(&res), grid(&maze)),
        forall|y: int, x: int|
            in_grid(grid(&maze), y, x) ==> #[trigger] grid(&res)[y][x] == cleaned_cell(
                grid(&maze),
                y,
                x,
            ),
{
    let mut maze = maze;
    let ghost g0 = grid(&maze);
    let height: usize = maze.len();
    let width: usize = maze[0].len();

    for y in 0..height
        invariant
            height == g0.len(),
            width == grid_width(g0),
            well_formed(g0),
            same_shape(grid(&maze), g0),
            forall|r: int, c: int|
                in_grid(g0, r, c) ==> #[trigger] grid(&maze)[r][c] == if r < y {
                    cleaned_cell(g0, r, c)
                } else {
                    g0[r][c]
                },
    {
        for x in 0..width
            invariant
                height == g0.len(),
                width == grid_width(g0),
                well_formed(g0),
                0 <= y < height,
                same_shape(grid(&maze), g0),
                forall|r: int, c: int|
                    in_grid(g0, r, c) ==> #[trigger] grid(&maze)[r][c] == if r < y || (r == y
                        && c < x) {
                        cleaned_cell(g0, r, c)
                    } else {
                        g0[r][c]
                    },
        {
            assert(g0[y as int].len() >= width);
            assert(grid(&maze)[y as int] == maze@[y as int]@);
            if maze[y][x] == Cell::Node(NodeState::Visited) {
                set_cell(&mut maze, y, x, Cell::Node(NodeState::Empty));
            }
        }
    }
    maze
}

} // verus!
