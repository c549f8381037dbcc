//! Tests that a front end makes before it calls into the library, on mazes
//! that it did not get from the library itself.
use vstd::prelude::*;
use crate::cell::{Cell, Character, KeyInput, NodeState, WallState};
use crate::grid::{framed, grid, grid_width, in_rect, is_empty_node, put, well_formed};
use crate::player::{empty, move_in_bounds, player, restart_in_bounds, start_seen};
use crate::scan::{first_position, first_position_of, is_first_of};
use crate::setup::{odd_row, start_fits};

verus! {

/// The maze has rows, none shorter than the first.
pub fn is_well_formed(maze: &Vec<Vec<Cell>>) -> (r: bool)
    ensures
        r == well_formed(grid(maze)),
{
    let ghost g = grid(maze);
    let height = maze.len();
    if height == 0 {
        return false;
    }
    assert(maze@[0]@ == g[0]);
    let width = maze[0].len();
    for y in 0..height
        invariant
            g == grid(maze),
            height == g.len(),
            height > 0,
            width == g[0].len(),
            forall|r: int| 0 <= r < y ==> #[trigger] g[r].len() >= width,
    {
        assert(maze@[y as int]@ == g[y as int]);
        if maze[y].len() < width {
            return false;
        }
    }
    true
}

/// `set_up_maze_for_solve` may be called with `original_height`: the maze
/// is well formed, there are two rows to pick from, and every row that can
/// take the start point has room for the character beside it.
pub fn set_up_fits(maze: &Vec<Vec<Cell>>, original_height: usize) -> (r: bool)
    ensures
        r == (well_formed(grid(maze)) && original_height >= 2 && forall|s: int|
            1 <= s <= original_height && #[trigger] start_fits(grid(maze), s) ==> grid(maze)[odd_row(
                s,
            )].len() >= 2),
{
    let ghost g = grid(maze);
    if !is_well_formed(maze) || original_height < 2 {
        return false;
    }
    let height = maze.len();
    assert(maze@[0]@ == g[0]);
    let width = maze[0].len();
    for y in 0..height
        invariant
            g == grid(maze),
            well_formed(g),
            original_height >= 2,
            height == g.len(),
            width == grid_width(g),
            forall|s: int|
                1 <= s <= original_height && odd_row(s) < y && #[trigger] start_fits(g, s) ==> g[odd_row(
                    s,
                )].len() >= 2,
    {
        assert(maze@[y as int]@ == g[y as int]);
        if y % 2 == 1 && (y - 1) / 2 < original_height && width >= 1 && maze[y].len() >= 1 {
            if maze[y][0] == Cell::Wall(WallState::Closed) && maze[y].len() < 2 {
                proof {
                    let s = (y as int + 1) / 2;
                    assert(odd_row(s) == y);
                    assert(start_fits(g, s));
                }
                return false;
            }
        }
        assert forall|s: int|
            1 <= s <= original_height && odd_row(s) < y + 1 && #[trigger] start_fits(g, s) implies g[odd_row(
                s,
            )].len() >= 2 by {
            if odd_row(s) == y {
                assert(g[y as int].len() >= width);
            }
        }
    }
    true
}

/// The maze has rows, none shorter than the first, and no empty node on the
/// border of the scanned rectangle.
pub fn is_framed(maze: &Vec<Vec<Cell>>) -> (r: bool)
    ensures
        r == framed(grid(maze)),
{
    let ghost g = grid(maze);
    let height = maze.len();
    if height == 0 {
        return false;
    }
    assert(maze@[0]@ == g[0]);
    let width = maze[0].len();
    for y in 0..height
        invariant
            g == grid(maze),
            height == g.len(),
            height > 0,
            width == g[0].len(),
            forall|r: int| 0 <= r < y ==> #[trigger] g[r].len() >= width,
    {
        assert(maze@[y as int]@ == g[y as int]);
        if maze[y].len() < width {
            return false;
        }
    }
    assert(well_formed(g));
    for y in 0..height
        invariant
            g == grid(maze),
            well_formed(g),
            height == g.len(),
            width == grid_width(g),
            forall|a: int, b: int|
                in_rect(g, a, b) && a < y && is_empty_node(#[trigger] g[a][b]) ==> 1 <= a < g.len()
                    - 1 && 1 <= b < grid_width(g) - 1,
    {
        assert(g[y as int].len() >= width);
        assert(maze@[y as int]@ == g[y as int]);
        for x in 0..width
            invariant
                g == grid(maze),
                well_formed(g),
                height == g.len(),
                width == grid_width(g),
                0 <= y < height,
                g[y as int].len() >= width,
                maze@[y as int]@ == g[y as int],
                forall|a: int, b: int|
                    in_rect(g, a, b) && (a < y || (a == y && b < x)) && is_empty_node(
                        #[trigger] g[a][b],
                    ) ==> 1 <= a < g.len() - 1 && 1 <= b < grid_width(g) - 1,
        {
            if maze[y][x] == Cell::Node(NodeState::Empty) {
                if !(1 <= y && y + 1 < height && 1 <= x && x + 1 < width) {
                    return false;
                }
            }
        }
    }
    true
}

/// The restart scan, with the player at `(py, px)` taken away, writes only
/// inside the rows it writes to.
fn restart_fits(maze: &Vec<Vec<Cell>>, py: usize, px: usize) -> (r: bool)
    requires
        well_formed(grid(maze)),
        in_rect(grid(maze), py as int, px as int),
    ensures
        r == restart_in_bounds(grid(maze), py as int, px as int),
{
    let ghost g = grid(maze);
    let ghost g2 = put(g, py as int, px as int, empty());
    let height = maze.len();
    assert(maze@[0]@ == g[0]);
    let width = maze[0].len();
    assert(g[py as int].len() >= width);
    assert(g2[0].len() == g[0].len());
    for y in 0..height
        invariant
            g == grid(maze),
            g2 == put(g, py as int, px as int, empty()),
            well_formed(g),
            height == g.len(),
            width == grid_width(g),
            width == grid_width(g2),
            in_rect(g, py as int, px as int),
            forall|rr: int, cc: int|
                0 <= rr < y && #[trigger] start_seen(g2, rr, cc) ==> cc + 1 < g[rr].len(),
    {
        assert(g[y as int].len() >= width);
        assert(maze@[y as int]@ == g[y as int]);
        let mut seen_before = false;
        for x in 0..width
            invariant
                g == grid(maze),
                g2 == put(g, py as int, px as int, empty()),
                well_formed(g),
                height == g.len(),
                width == grid_width(g),
                width == grid_width(g2),
                in_rect(g, py as int, px as int),
                0 <= y < height,
                g[y as int].len() >= width,
                maze@[y as int]@ == g[y as int],
                seen_before == start_seen(g2, y as int, x as int - 1),
                forall|rr: int, cc: int|
                    (0 <= rr < y || (rr == y && cc < x)) && #[trigger] start_seen(g2, rr, cc) ==> cc
                        + 1 < g[rr].len(),
        {
            let cell = if y == py && x == px {
                Cell::Node(NodeState::Empty)
            } else {
                maze[y][x]
            };
            assert(cell == g2[y as int][x as int]);
            let seen = cell == Cell::Node(NodeState::StartPoint) && !seen_before;
            assert(seen == start_seen(g2, y as int, x as int));
            if seen && x + 1 >= maze[y].len() {
                return false;
            }
            seen_before = seen;
        }
        assert forall|cc: int| #[trigger] start_seen(g2, y as int, cc) implies cc + 1 < g[y as int].len() by {
            if cc >= width {
                assert(!start_seen(g2, y as int, cc));
            }
        }
    }
    true
}

/// The key press `key` on the maze stays inside it, as `move_player` asks.
pub fn move_stays_inside(maze: &Vec<Vec<Cell>>, key: KeyInput) -> (r: bool)
    requires
        well_formed(grid(maze)),
    ensures
        r == move_in_bounds(grid(maze), key),
{
    let ghost g = grid(maze);
    assert(maze@[0]@ == g[0]);
    let width = maze[0].len();
    match first_position_of(maze, Cell::Character(Character::Player)) {
        None => true,
        Some((y, x)) => {
            assert(maze@[y as int]@ == g[y as int]);
            assert(is_first_of(g, player(), y as int, x as int));
            let right_ok = match key {
                KeyInput::Right | KeyInput::Char('d') => (width >= 2 && x < width - 2) || x < maze[y].len()
                    - 1,
                _ => true,
            };
            let restart_ok = match key {
                KeyInput::Char('r') => restart_fits(maze, y, x),
                _ => true,
            };
            right_ok && restart_ok
        },
    }
}

} // verus!
