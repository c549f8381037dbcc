//! Placing the start point, the end point and a character on the maze.
use vstd::prelude::*;
use crate::cell::{Cell, Character, NodeState, WallState};
use crate::grid::{grid, grid_width, in_grid, same_shape, set_cell, well_formed};
use crate::random::random_in_range;

verus! {

/// The row of the `s`-th odd row, counting from 1.
pub open spec fn odd_row(s: int) -> int {
    2 * s - 1
}

/// The start point goes at the left end of the `s`-th odd row: there is
/// such a row, the scanned width is not zero, and its leftmost cell is a
/// closed wall.
pub open spec fn start_fits(g: Seq<Seq<Cell>>, s: int) -> bool {
    &&& 1 <= s
    &&& odd_row(s) < g.len()
    &&& grid_width(g) >= 1
    &&& g[odd_row(s)][0] == Cell::Wall(WallState::Closed)
}

/// The end point goes at the right end of the `e`-th odd row: there is such
/// a row and the scanned width has room besides the left border.
pub open spec fn end_fits(g: Seq<Seq<Cell>>, e: int) -> bool {
    1 <= e && odd_row(e) < g.len() && grid_width(g) >= 2
}

/// The cell at `(r, c)` once the start point (with `ch` beside it) is placed
/// at the left of the `s`-th odd row, and the end point at the right of the
/// `e`-th.
pub open spec fn placed_cell(g: Seq<Seq<Cell>>, s: int, e: int, ch: Character, r: int, c: int) -> Cell {
    if end_fits(g, e) && r == odd_row(e) && c == grid_width(g) - 1 {
        Cell::Node(NodeState::EndPoint)
    } else if start_fits(g, s) && r == odd_row(s) && c == 0 {
        Cell::Node(NodeState::StartPoint)
    } else if start_fits(g, s) && r == odd_row(s) && c == 1 {
        Cell::Character(ch)
    } else {
        g[r][c]
    }
}

/// The cell at `(r, c)` while the scan stands at `(y, x)`.
pub open spec fn scanned_cell(
    g: Seq<Seq<Cell>>,
    s: int,
    e: int,
    ch: Character,
    y: int,
    x: int,
    r: int,
    c: int,
) -> Cell {
    if r < y || (r == y && c < x) {
        placed_cell(g, s, e, ch, r, c)
    } else if r == y && x >= 1 && c == 1 && start_fits(g, s) && r == odd_row(s) {
        Cell::Character(ch)
    } else {
        g[r][c]
    }
}

/// Scans the left and right border of the maze: the `start`-th odd row gets
/// the start point on its left border (where that cell is a closed wall)
/// with `character` beside it, and the `end`-th odd row gets the end point
/// on its right border.
pub fn place_start_and_end(maze: Vec<Vec<Cell>>, start: usize, end: usize, character: Character) -> (res: Vec<Vec<Cell>>)
    requires
        well_formed(grid(&maze)),
        start_fits(grid(&maze), start as int) ==> grid(&maze)[odd_row(start as int)].len() >= 2,
    ensures
        same_shape(grid(&res), grid(&maze)),
        forall|r: int, c: int|
            in_grid(grid(&maze), r, c) ==> #[trigger] grid(&res)[r][c] == placed_cell(
                grid(&maze),
                start as int,
                end as int,
                character,
                r,
                c,
            ),
{
    let ghost g = grid(&maze);
    let ghost s = start as int;
    let ghost e = end as int;
    let mut maze = maze;
    let mut count_last_row: usize = 1;
    let mut count_first_row: usize = 1;
    let height: usize = maze.len();
    assert(maze@[0]@ == g[0]);
    let width: usize = maze[0].len();

    for y in 0..height
        invariant
            well_formed(g),
            height == g.len(),
            width == grid_width(g),
            start_fits(g, s) ==> g[odd_row(s)].len() >= 2,
            s == start,
            e == end,
            same_shape(grid(&maze), g),
            count_first_row == if width >= 1 { 1 + y as int / 2 } else { 1 },
            count_last_row == if width >= 2 { 1 + y as int / 2 } else { 1 },
            forall|r: int, c: int|
                in_grid(g, r, c) ==> #[trigger] grid(&maze)[r][c] == scanned_cell(
                    g,
                    s,
                    e,
                    character,
                    y as int,
                    0,
                    r,
                    c,
                ),
    {
        assert(g[y as int].len() >= width);
        for x in 0..width
            invariant
                well_formed(g),
                height == g.len(),
                width == grid_width(g),
                start_fits(g, s) ==> g[odd_row(s)].len() >= 2,
                s == start,
                e == end,
                0 <= y < height,
                g[y as int].len() >= width,
                same_shape(grid(&maze), g),
                count_first_row == if width == 0 {
                    1
                } else if x == 0 {
                    1 + y as int / 2
                } else {
                    1 + (y as int + 1) / 2
                },
                count_last_row == if width >= 2 && x == width {
                    1 + (y as int + 1) / 2
                } else if width >= 2 {
                    1 + y as int / 2
                } else {
                    1
                },
                forall|r: int, c: int|
                    in_grid(g, r, c) ==> #[trigger] grid(&maze)[r][c] == scanned_cell(
                        g,
                        s,
                        e,
                        character,
                        y as int,
                        x as int,
                        r,
                        c,
                    ),
        {
            let ghost before = grid(&maze);
            assert(maze@[y as int]@ == before[y as int]);
            if x == 0 && (y != 0 && y != maze.len()) {
                if y % 2 != 0 {
                    if maze[y][x] == Cell::Wall(WallState::Closed) {
                        if count_first_row == start {
                            assert(start_fits(g, s));
                            set_cell(&mut maze, y, x, Cell::Node(NodeState::StartPoint));
                            set_cell(&mut maze, y, x + 1, Cell::Character(character));
                        }
                    }
                    count_first_row += 1;
                }
            } else if x == width - 1 && (y != 0 && y != maze.len()) {
                if y % 2 != 0 {
                    if count_last_row == end {
                        set_cell(&mut maze, y, x, Cell::Node(NodeState::EndPoint));
                    }
                    count_last_row += 1;
                }
            }
            let ghost after = grid(&maze);
            assert forall|r: int, c: int| in_grid(g, r, c) implies #[trigger] after[r][c] == scanned_cell(
                g,
                s,
                e,
                character,
                y as int,
                x as int + 1,
                r,
                c,
            ) by {
                assert(before[r][c] == scanned_cell(g, s, e, character, y as int, x as int, r, c));
            }
        }
        let ghost row_end = grid(&maze);
        assert forall|r: int, c: int| in_grid(g, r, c) implies #[trigger] row_end[r][c] == scanned_cell(
            g,
            s,
            e,
            character,
            y as int + 1,
            0,
            r,
            c,
        ) by {
            assert(row_end[r][c] == scanned_cell(g, s, e, character, y as int, width as int, r, c));
            if r == y && c >= width {
                assert(!(end_fits(g, e) && r == odd_row(e) && c == grid_width(g) - 1));
            }
        }
    }
    maze
}

/// The maze of `place_start_and_end` for `start` and `end`.
pub open spec fn set_up_as(
    g: Seq<Seq<Cell>>,
    res: Seq<Seq<Cell>>,
    start: int,
    end: int,
    ch: Character,
) -> bool {
    &&& same_shape(res, g)
    &&& forall|r: int, c: int|
        in_grid(g, r, c) ==> #[trigger] res[r][c] == placed_cell(g, start, end, ch, r, c)
}

/// Picks two different numbers from `1` to `original_height` at random and
/// places the start point (with `character` beside it) and the end point
/// for them, as `place_start_and_end` does.
pub fn set_up_maze_for_solve(maze: Vec<Vec<Cell>>, original_height: usize, character: Character) -> (res: Vec<Vec<Cell>>)
    requires
        well_formed(grid(&maze)),
        original_height >= 2,
        forall|s: int|
            1 <= s <= original_height && #[trigger] start_fits(grid(&maze), s) ==> grid(&maze)[odd_row(s)].len() >= 2,
    ensures
        exists|s: int, e: int|
            1 <= s <= original_height && 1 <= e <= original_height && s != e && #[trigger] set_up_as(
                grid(&maze),
                grid(&res),
                s,
                e,
                character,
            ),
{
    let ghost g = grid(&maze);
    let random_starting_node_number = random_in_range(1, original_height);
    let drawn = random_in_range(1, original_height - 1);
    let random_ending_node_number = if drawn >= random_starting_node_number {
        drawn + 1
    } else {
        drawn
    };
    assert(start_fits(g, random_starting_node_number as int) ==> g[odd_row(random_starting_node_number as int)].len() >= 2);
    let res = place_start_and_end(maze, random_starting_node_number, random_ending_node_number, character);
    assert(set_up_as(g, grid(&res), random_starting_node_number as int, random_ending_node_number as int, character));
    res
}

} // verus!
