//! Solving the maze: backtracking from the computer's cell, trying the
//! neighbours closest to the end point first.
use vstd::prelude::*;
use crate::cell::{Cell, NodeState, WallState};
use crate::generator::{midpoint, neighbor, step};
use crate::grid::{grid, grid_width, in_grid, in_rect, is_empty_node, well_formed};
use crate::scan::{last_position, last_position_of};

verus! {

pub open spec fn closed_flag(c: Cell) -> nat {
    if c == Cell::Wall(WallState::Closed) { 1 } else { 0 }
}

/// Closed walls right, left, below and above `(y, x)`.
pub open spec fn walls_around(g: Seq<Seq<Cell>>, y: int, x: int) -> nat {
    closed_flag(g[y][x + 1]) + closed_flag(g[y][x - 1]) + closed_flag(g[y + 1][x]) + closed_flag(
        g[y - 1][x],
    )
}

/// Counts the closed walls right of, left of, below and above `(y, x)`.
pub fn amount_of_walls_next_to_any_given_cell(x: usize, y: usize, maze: &Vec<Vec<Cell>>) -> (count:
    usize)
    requires
        1 <= y,
        in_grid(grid(maze), y as int + 1, x as int),
        in_grid(grid(maze), y as int - 1, x as int),
        1 <= x,
        in_grid(grid(maze), y as int, x as int + 1),
    ensures
        count == walls_around(grid(maze), y as int, x as int),
{
    let ghost g = grid(maze);
    assert(maze@[y as int]@ == g[y as int]);
    assert(maze@[y as int + 1]@ == g[y as int + 1]);
    assert(maze@[y as int - 1]@ == g[y as int - 1]);
    let _row_len = maze[y].len();
    let _height = maze.len();
    let mut count: usize = 0;

    if maze[y][x + 1] == Cell::Wall(WallState::Closed) {
        count += 1;
    }
    if maze[y][x - 1] == Cell::Wall(WallState::Closed) {
        count += 1;
    }
    if maze[y + 1][x] == Cell::Wall(WallState::Closed) {
        count += 1;
    }
    if maze[y - 1][x] == Cell::Wall(WallState::Closed) {
        count += 1;
    }
    count
}

/// From `(y, x)` the search may move in direction `d`: the cell two away is
/// an empty node of the rectangle and the wall between is not closed.
pub open spec fn passable(g: Seq<Seq<Cell>>, y: int, x: int, d: int) -> bool {
    let (ny, nx) = step(y, x, d);
    &&& in_rect(g, ny, nx)
    &&& is_empty_node(g[ny][nx])
    &&& g[(y + ny) / 2][(x + nx) / 2] != Cell::Wall(WallState::Closed)
}

/// The closed walls around `(y, x)` can be counted: the rows above and
/// below exist and the row has cells left and right of it.
pub open spec fn interior(g: Seq<Seq<Cell>>, y: int, x: int) -> bool {
    1 <= y < g.len() - 1 && 1 <= x && x + 1 < g[y].len()
}

/// Around every neighbour the search may move to from `(y, x)`, the closed
/// walls can be counted.
pub open spec fn moves_inside(g: Seq<Seq<Cell>>, y: int, x: int) -> bool {
    forall|d: int| 0 <= d < 4 && #[trigger] passable(g, y, x, d) ==> interior(g, step(y, x, d).0, step(y, x, d).1)
}

/// The search tries direction `d` from `(y, x)`: it is passable and the cell
/// there is no dead end (fewer than three closed walls around it).
pub open spec fn is_candidate(g: Seq<Seq<Cell>>, y: int, x: int, d: int) -> bool {
    &&& passable(g, y, x, d)
    &&& walls_around(g, step(y, x, d).0, step(y, x, d).1) < 3
}

pub open spec fn abs_int(v: int) -> int {
    if v < 0 { -v } else { v }
}

/// Manhattan distance from `(ny, nx)` to the last end point of the maze.
pub open spec fn score(g: Seq<Seq<Cell>>, ny: int, nx: int) -> int {
    let e = last_position(g, Cell::Node(NodeState::EndPoint));
    abs_int(e.1 - nx) + abs_int(e.0 - ny)
}

/// The search tries direction `d1` before `d2`: a smaller score first, and
/// on equal scores the order up, down, left, right.
pub open spec fn tried_before(g: Seq<Seq<Cell>>, y: int, x: int, d1: int, d2: int) -> bool {
    let s1 = score(g, step(y, x, d1).0, step(y, x, d1).1);
    let s2 = score(g, step(y, x, d2).0, step(y, x, d2).1);
    s1 < s2 || (s1 == s2 && d1 < d2)
}

/// `r` lists, as `(column, row)`, the neighbours in the directions `ds`,
/// which are exactly the candidate directions of `(y, x)` in the order the
/// search tries them.
pub open spec fn ranked_moves(
    g: Seq<Seq<Cell>>,
    y: int,
    x: int,
    r: Seq<(usize, usize)>,
    ds: Seq<int>,
) -> bool {
    &&& r.len() == ds.len()
    &&& forall|i: int|
        0 <= i < ds.len() ==> 0 <= #[trigger] ds[i] < 4 && is_candidate(g, y, x, ds[i]) && (
        r[i].1 as int,
        r[i].0 as int,
    ) == step(y, x, ds[i])
    &&& forall|i: int, j: int|
        0 <= i < j < ds.len() ==> tried_before(g, y, x, #[trigger] ds[i], #[trigger] ds[j])
    &&& forall|d: int| 0 <= d < 4 && #[trigger] is_candidate(g, y, x, d) ==> ds.contains(d)
}

pub fn abs_diff(a: usize, b: usize) -> (r: usize)
    ensures
        r == abs_int(a - b),
{
    if a >= b {
        a - b
    } else {
        b - a
    }
}

/// The neighbours two cells away from `(y, x)` that the search may try, as
/// `(column, row)`, ordered by their distance to the end point, and by the
/// order up, down, left, right on equal distances.
///
/// `(y, x)` must be a cell of the maze: the solver asks only about the cell
/// it stands on. Just outside the maze the wall between `(y, x)` and a
/// neighbour inside it lies outside too, and reading it would panic; the
/// positions farther out, which have no neighbour inside, are left out with
/// them.
pub fn calculate_heuristic_score_for_position(x: usize, y: usize, maze: &Vec<Vec<Cell>>) -> (r: Vec<
    (usize, usize),
>)
    requires
        well_formed(grid(maze)),
        in_grid(grid(maze), y as int, x as int),
        moves_inside(grid(maze), y as int, x as int),
    ensures
        exists|ds: Seq<int>| ranked_moves(grid(maze), y as int, x as int, r@, ds),
{
    let ghost g = grid(maze);
    let height: usize = maze.len();
    assert(maze@[0]@ == g[0]);
    let width: usize = maze[0].len();
    let (ending_position_y, ending_position_x) = last_position_of(
        maze,
        Cell::Node(NodeState::EndPoint),
    );
    let mut neighbors: Vec<(usize, usize)> = Vec::new();
    let mut keys: Vec<u128> = Vec::new();
    let ghost mut ds: Seq<int> = Seq::empty();
    let mut d: u8 = 0;
    while d < 4
        invariant
            g == grid(maze),
            well_formed(g),
            in_grid(g, y as int, x as int),
            moves_inside(g, y as int, x as int),
            height == g.len(),
            width == grid_width(g),
            (ending_position_y as int, ending_position_x as int) == last_position(
                g,
                Cell::Node(NodeState::EndPoint),
            ),
            0 <= d <= 4,
            neighbors@.len() == ds.len(),
            keys@.len() == ds.len(),
            forall|i: int|
                0 <= i < ds.len() ==> 0 <= #[trigger] ds[i] < d && is_candidate(
                    g,
                    y as int,
                    x as int,
                    ds[i],
                ) && (neighbors@[i].1 as int, neighbors@[i].0 as int) == step(
                    y as int,
                    x as int,
                    ds[i],
                ) && keys@[i] as int == score(g, step(y as int, x as int, ds[i]).0, step(y as int, x as int, ds[i]).1),
            forall|i: int, j: int|
                0 <= i < j < ds.len() ==> tried_before(
                    g,
                    y as int,
                    x as int,
                    #[trigger] ds[i],
                    #[trigger] ds[j],
                ),
            forall|e: int|
                0 <= e < d && #[trigger] is_candidate(g, y as int, x as int, e) ==> ds.contains(e),
        decreases 4 - d,
    {
        let ghost dd = d as int;
        match neighbor(y, x, d, height, width) {
            None => {
                assert(!is_candidate(g, y as int, x as int, dd));
            },
            Some((neighbor_y, neighbor_x)) => {
                assert(g[neighbor_y as int].len() >= width);
                assert(maze@[neighbor_y as int]@ == g[neighbor_y as int]);
                if maze[neighbor_y][neighbor_x] == Cell::Node(NodeState::Empty) {
                    let middle_x = midpoint(x, neighbor_x);
                    let middle_y = midpoint(y, neighbor_y);
                    assert(maze@[middle_y as int]@ == g[middle_y as int]);
                    assert(g[middle_y as int].len() >= width);
                    if maze[middle_y][middle_x] != Cell::Wall(WallState::Closed) {
                        assert(passable(g, y as int, x as int, dd));
                        assert(interior(g, neighbor_y as int, neighbor_x as int));
                        assert(g[neighbor_y as int + 1].len() >= width);
                        assert(g[neighbor_y as int - 1].len() >= width);
                        let amount = amount_of_walls_next_to_any_given_cell(
                            neighbor_x,
                            neighbor_y,
                            maze,
                        );
                        let heuristic: u128 = abs_diff(ending_position_x, neighbor_x) as u128
                            + abs_diff(ending_position_y, neighbor_y) as u128;
                        if amount < 3 {
                            assert(is_candidate(g, y as int, x as int, dd));
                            let mut p: usize = 0;
                            while p < keys.len() && keys[p] <= heuristic
                                invariant
                                    0 <= p <= keys@.len(),
                                    forall|i: int| 0 <= i < p ==> #[trigger] keys@[i] <= heuristic,
                                decreases keys@.len() - p,
                            {
                                p += 1;
                            }
                            let ghost old_ds = ds;
                            let ghost old_keys = keys@;
                            let ghost old_neighbors = neighbors@;
                            neighbors.insert(p, (neighbor_x, neighbor_y));
                            keys.insert(p, heuristic);
                            proof {
                                ds = ds.insert(p as int, dd);
                                old_ds.insert_ensures(p as int, dd);
                                old_keys.insert_ensures(p as int, heuristic);
                                old_neighbors.insert_ensures(p as int, (neighbor_x, neighbor_y));
                                assert forall|i: int|
                                    0 <= i < ds.len() implies 0 <= #[trigger] ds[i] < d + 1
                                        && is_candidate(g, y as int, x as int, ds[i]) && (
                                        neighbors@[i].1 as int,
                                        neighbors@[i].0 as int,
                                    ) == step(y as int, x as int, ds[i]) && keys@[i] as int
                                        == score(
                                        g,
                                        step(y as int, x as int, ds[i]).0,
                                        step(y as int, x as int, ds[i]).1,
                                    ) by {
                                    if i > p {
                                        assert(ds[i] == old_ds[i - 1]);
                                    }
                                }
                                // keys of the old entries are sorted; those from p on exceed the new key
                                assert forall|i: int| p <= i < old_keys.len() implies #[trigger] old_keys[i]
                                    > heuristic by {
                                    if i > p {
                                        assert(tried_before(g, y as int, x as int, old_ds[p as int], old_ds[i]));
                                    }
                                }
                                assert forall|i: int, j: int|
                                    0 <= i < j < ds.len() implies tried_before(
                                    g,
                                    y as int,
                                    x as int,
                                    #[trigger] ds[i],
                                    #[trigger] ds[j],
                                ) by {
                                    if j < p {
                                    } else if j == p {
                                        assert(old_keys[i] <= heuristic);
                                    } else if i < p {
                                        assert(tried_before(g, y as int, x as int, old_ds[i], old_ds[j - 1]));
                                    } else if i == p {
                                        assert(old_keys[j - 1] > heuristic);
                                    } else {
                                        assert(tried_before(g, y as int, x as int, old_ds[i - 1], old_ds[j - 1]));
                                    }
                                }
                                assert forall|e: int|
                                    0 <= e < d + 1 && #[trigger] is_candidate(g, y as int, x as int, e)
                                        implies ds.contains(e) by {
                                    if e == dd {
                                        assert(ds[p as int] == dd);
                                    } else {
                                        assert(old_ds.contains(e));
                                        let k = choose|k: int| 0 <= k < old_ds.len() && old_ds[k] == e;
                                        if k < p {
                                            assert(ds[k] == e);
                                        } else {
                                            assert(ds[k + 1] == e);
                                        }
                                    }
                                }
                            }
                        } else {
                            assert(!is_candidate(g, y as int, x as int, dd));
                        }
                    } else {
                        assert(!passable(g, y as int, x as int, dd));
                    }
                } else {
                    assert(!passable(g, y as int, x as int, dd));
                }
            },
        }
        d += 1;
    }
    assert(ranked_moves(g, y as int, x as int, neighbors@, ds));
    neighbors
}

} // verus!
