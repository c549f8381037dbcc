//! Moving the player through the maze, one key press at a time.
use vstd::prelude::*;
use crate::cell::{Cell, Character, KeyInput, MoveResult, NodeState, WallState};
use crate::grid::{grid, grid_width, in_grid, put, same_shape, set_cell, well_formed};
use crate::scan::{first_position, first_position_of};

verus! {

pub open spec fn player() -> Cell {
    Cell::Character(Character::Player)
}

pub open spec fn empty() -> Cell {
    Cell::Node(NodeState::Empty)
}

pub open spec fn closed() -> Cell {
    Cell::Wall(WallState::Closed)
}

pub open spec fn is_up(k: KeyInput) -> bool {
    k == KeyInput::Up || k == KeyInput::Char('w')
}

pub open spec fn is_down(k: KeyInput) -> bool {
    k == KeyInput::Down || k == KeyInput::Char('s')
}

pub open spec fn is_left(k: KeyInput) -> bool {
    k == KeyInput::Left || k == KeyInput::Char('a')
}

pub open spec fn is_right(k: KeyInput) -> bool {
    k == KeyInput::Right || k == KeyInput::Char('d')
}

/// The cell `(r, c)`, `c` inside the scanned width, holds a start point when
/// the restart scan reaches it: it did in `g` and the scan did not just put
/// the player on it.
pub open spec fn start_seen(g: Seq<Seq<Cell>>, r: int, c: int) -> bool
    decreases c + 1,
{
    if c < 0 {
        false
    } else {
        &&& 0 <= r < g.len()
        &&& 0 <= c < grid_width(g)
        &&& c < g[r].len()
        &&& g[r][c] == Cell::Node(NodeState::StartPoint)
        &&& !start_seen(g, r, c - 1)
    }
}

/// The cell `(r, c)` after the restart scan: the player right of every start
/// point the scan meets.
pub open spec fn restarted_cell(g: Seq<Seq<Cell>>, r: int, c: int) -> Cell {
    if start_seen(g, r, c - 1) {
        player()
    } else {
        g[r][c]
    }
}

/// The grid after the restart scan.
pub open spec fn restarted(g: Seq<Seq<Cell>>) -> Seq<Seq<Cell>> {
    Seq::new(g.len(), |r: int| Seq::new(g[r].len(), |c: int| restarted_cell(g, r, c)))
}

/// The player at `(y, x)` steps to `(ny, nx)`.
pub open spec fn stepped(g: Seq<Seq<Cell>>, y: int, x: int, ny: int, nx: int) -> Seq<Seq<Cell>> {
    put(put(g, y, x, empty()), ny, nx, player())
}

/// The maze and the answer after the key press `k`, for the first player
/// of the maze in row-major order.
pub open spec fn after_move(g: Seq<Seq<Cell>>, k: KeyInput) -> (Seq<Seq<Cell>>, MoveResult) {
    match first_position(g, player()) {
        None => (g, MoveResult::Invalid),
        Some(p) => {
            let (y, x) = p;
            let h = g.len() as int;
            let w = grid_width(g);
            if is_up(k) {
                if y - 2 > 0 && g[y - 2][x] == empty() && g[y - 1][x] != closed() {
                    (stepped(g, y, x, y - 2, x), MoveResult::Move)
                } else {
                    (g, MoveResult::Invalid)
                }
            } else if is_down(k) {
                if y + 2 <= h - 1 && g[y + 2][x] == empty() && g[y + 1][x] != closed() {
                    (stepped(g, y, x, y + 2, x), MoveResult::Move)
                } else {
                    (g, MoveResult::Invalid)
                }
            } else if is_left(k) {
                if x >= 2 && g[y][x - 2] == empty() && g[y][x - 1] != closed() {
                    (stepped(g, y, x, y, x - 2), MoveResult::Move)
                } else {
                    (g, MoveResult::Invalid)
                }
            } else if is_right(k) {
                if x + 2 < w {
                    if g[y][x + 2] == empty() && g[y][x + 1] != closed() {
                        (stepped(g, y, x, y, x + 2), MoveResult::Move)
                    } else {
                        (g, MoveResult::Invalid)
                    }
                } else if g[y][x + 1] == Cell::Node(NodeState::EndPoint) {
                    (g, MoveResult::Finished)
                } else {
                    (g, MoveResult::Invalid)
                }
            } else if k == KeyInput::Char('r') {
                (restarted(put(g, y, x, empty())), MoveResult::Restart)
            } else if k == KeyInput::Esc {
                (g, MoveResult::Kill)
            } else {
                (g, MoveResult::Invalid)
            }
        },
    }
}

/// With the player at `(py, px)` taken away, the restart scan writes only
/// inside the rows it writes to.
pub open spec fn restart_in_bounds(g: Seq<Seq<Cell>>, py: int, px: int) -> bool {
    forall|r: int, c: int|
        0 <= r < g.len() && #[trigger] start_seen(put(g, py, px, empty()), r, c) ==> c + 1 < g[r].len()
}

/// The key press `k` reads and writes only cells of the maze: a right move
/// at the right border looks at the cell beyond, and a restart writes right
/// of every start point it meets.
pub open spec fn move_in_bounds(g: Seq<Seq<Cell>>, k: KeyInput) -> bool {
    match first_position(g, player()) {
        None => true,
        Some(p) => {
            &&& is_right(k) && p.1 + 2 >= grid_width(g) ==> p.1 + 1 < g[p.0].len()
            &&& k == KeyInput::Char('r') ==> restart_in_bounds(g, p.0, p.1)
        },
    }
}

/// Restart scan: puts the player right of every start point of the
/// scanned rectangle, in row-major order.
fn restart_scan(maze: &mut Vec<Vec<Cell>>)
    requires
        well_formed(grid(old(maze))),
        forall|r: int, c: int|
            0 <= r < grid(old(maze)).len() && #[trigger] start_seen(grid(old(maze)), r, c) ==> c + 1
                < grid(old(maze))[r].len(),
    ensures
        grid(final(maze)) == restarted(grid(old(maze))),
{
    let ghost g = grid(maze);
    let height: usize = maze.len();
    assert(maze@[0]@ == g[0]);
    let width: usize = maze[0].len();
    for y in 0..height
        invariant
            well_formed(g),
            height == g.len(),
            width == grid_width(g),
            forall|r: int, c: int| 0 <= r < g.len() && #[trigger] start_seen(g, r, c) ==> c + 1 < g[r].len(),
            same_shape(grid(maze), g),
            forall|a: int, b: int|
                in_grid(g, a, b) ==> #[trigger] grid(maze)[a][b] == if a < y {
                    restarted_cell(g, a, b)
                } else {
                    g[a][b]
                },
    {
        assert(g[y as int].len() >= width);
        for x in 0..width
            invariant
                well_formed(g),
                height == g.len(),
                width == grid_width(g),
                forall|r: int, c: int| 0 <= r < g.len() && #[trigger] start_seen(g, r, c) ==> c + 1 < g[r].len(),
                0 <= y < height,
                g[y as int].len() >= width,
                same_shape(grid(maze), g),
                forall|a: int, b: int|
                    in_grid(g, a, b) ==> #[trigger] grid(maze)[a][b] == if a < y || (a == y && b
                        <= x) {
                        restarted_cell(g, a, b)
                    } else {
                        g[a][b]
                    },
        {
            let ghost before = grid(maze);
            assert(maze@[y as int]@ == before[y as int]);
            assert(before[y as int][x as int] == restarted_cell(g, y as int, x as int));
            if maze[y][x] == Cell::Node(NodeState::StartPoint) {
                assert(start_seen(g, y as int, x as int));
                set_cell(maze, y, x + 1, Cell::Character(Character::Player));
            } else {
                assert(!start_seen(g, y as int, x as int));
            }
            let ghost after = grid(maze);
            assert forall|a: int, b: int| in_grid(g, a, b) implies #[trigger] after[a][b] == if a < y
                || (a == y && b <= x + 1) {
                restarted_cell(g, a, b)
            } else {
                g[a][b]
            } by {
                assert(before[a][b] == if a < y || (a == y && b <= x) {
                    restarted_cell(g, a, b)
                } else {
                    g[a][b]
                });
            }
        }
        let ghost row_end = grid(maze);
        assert forall|a: int, b: int| in_grid(g, a, b) implies #[trigger] row_end[a][b] == if a < y + 1 {
            restarted_cell(g, a, b)
        } else {
            g[a][b]
        } by {
            assert(row_end[a][b] == if a < y || (a == y && b <= width) {
                restarted_cell(g, a, b)
            } else {
                g[a][b]
            });
            if a == y && b > width {
                assert(!start_seen(g, a, b - 1));
            }
        }
    }
    let ghost fin = grid(maze);
    assert forall|r: int| 0 <= r < fin.len() implies #[trigger] fin[r] == restarted(g)[r] by {
        assert(fin[r] =~= restarted(g)[r]);
    }
    assert(fin =~= restarted(g));
}

/// Answers the key press `direction` for the first player of the maze in
/// row-major order: steps two cells up, down, left or right onto an empty
/// node through a wall that is not closed; reports `Finished` for a right
/// move at the right border next to the end point; on `r` puts the player
/// back beside the start point; on Esc asks to quit. Every other press, and
/// a maze without a player, gives `Invalid` and leaves the maze as it was.
pub fn move_player(direction: KeyInput, maze: Vec<Vec<Cell>>) -> (res: (Vec<Vec<Cell>>, MoveResult))
    requires
        well_formed(grid(&maze)),
        move_in_bounds(grid(&maze), direction),
    ensures
        (grid(&res.0), res.1) == after_move(grid(&maze), direction),
{
    let ghost g = grid(&maze);
    let mut maze = maze;
    let height = maze.len();
    assert(maze@[0]@ == g[0]);
    let width = maze[0].len();
    match first_position_of(&maze, Cell::Character(Character::Player)) {
        None => (maze, MoveResult::Invalid),
        Some((y, x)) => {
            assert(g[y as int].len() >= width);
            assert(maze@[y as int]@ == g[y as int]);
            match direction {
                KeyInput::Up | KeyInput::Char('w') => {
                    if y > 2 {
                        assert(maze@[y as int - 2]@ == g[y as int - 2]);
                        assert(maze@[y as int - 1]@ == g[y as int - 1]);
                        assert(g[y as int - 2].len() >= width);
                        assert(g[y as int - 1].len() >= width);
                        if maze[y - 2][x] == Cell::Node(NodeState::Empty) && maze[y - 1][x]
                            != Cell::Wall(WallState::Closed) {
                            set_cell(&mut maze, y, x, Cell::Node(NodeState::Empty));
                            set_cell(&mut maze, y - 2, x, Cell::Character(Character::Player));
                            return (maze, MoveResult::Move);
                        }
                    }
                    (maze, MoveResult::Invalid)
                },
                KeyInput::Down | KeyInput::Char('s') => {
                    if height >= 3 && y <= height - 3 {
                        assert(maze@[y as int + 2]@ == g[y as int + 2]);
                        assert(maze@[y as int + 1]@ == g[y as int + 1]);
                        assert(g[y as int + 2].len() >= width);
                        assert(g[y as int + 1].len() >= width);
                        if maze[y + 2][x] == Cell::Node(NodeState::Empty) && maze[y + 1][x]
                            != Cell::Wall(WallState::Closed) {
                            set_cell(&mut maze, y, x, Cell::Node(NodeState::Empty));
                            set_cell(&mut maze, y + 2, x, Cell::Character(Character::Player));
                            return (maze, MoveResult::Move);
                        }
                    }
                    (maze, MoveResult::Invalid)
                },
                KeyInput::Left | KeyInput::Char('a') => {
                    if x >= 2 && maze[y][x - 2] == Cell::Node(NodeState::Empty) && maze[y][x - 1]
                        != Cell::Wall(WallState::Closed) {
                        set_cell(&mut maze, y, x, Cell::Node(NodeState::Empty));
                        set_cell(&mut maze, y, x - 2, Cell::Character(Character::Player));
                        return (maze, MoveResult::Move);
                    }
                    (maze, MoveResult::Invalid)
                },
                KeyInput::Right | KeyInput::Char('d') => {
                    if width >= 2 && x < width - 2 {
                        if maze[y][x + 2] == Cell::Node(NodeState::Empty) && maze[y][x + 1]
                            != Cell::Wall(WallState::Closed) {
                            set_cell(&mut maze, y, x, Cell::Node(NodeState::Empty));
                            set_cell(&mut maze, y, x + 2, Cell::Character(Character::Player));
                            return (maze, MoveResult::Move);
                        }
                    } else if maze[y][x + 1] == Cell::Node(NodeState::EndPoint) {
                        return (maze, MoveResult::Finished);
                    }
                    (maze, MoveResult::Invalid)
                },
                KeyInput::Char('r') => {
                    set_cell(&mut maze, y, x, Cell::Node(NodeState::Empty));
                    restart_scan(&mut maze);
                    (maze, MoveResult::Restart)
                },
                KeyInput::Esc => { (maze, MoveResult::Kill) },
                _ => (maze, MoveResult::Invalid),
            }
        },
    }
}

} // verus!
