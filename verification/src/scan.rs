//! Finding a cell by scanning the maze in row-major order.
use vstd::prelude::*;
use crate::cell::Cell;
use crate::grid::{grid, grid_width, in_rect, well_formed};

verus! {

/// `(a, b)` comes after `(y, x)` in row-major order.
pub open spec fn comes_after(a: int, b: int, y: int, x: int) -> bool {
    a > y || (a == y && b > x)
}

/// `(y, x)` holds `target`, and no later cell of the rectangle does.
pub open spec fn is_last_of(g: Seq<Seq<Cell>>, target: Cell, y: int, x: int) -> bool {
    &&& in_rect(g, y, x)
    &&& g[y][x] == target
    &&& forall|a: int, b: int|
        in_rect(g, a, b) && comes_after(a, b, y, x) ==> #[trigger] g[a][b] != target
}

/// The last cell of the rectangle in row-major order that holds `target`,
/// as `(row, column)`; `(0, 0)` where none does.
pub open spec fn last_position(g: Seq<Seq<Cell>>, target: Cell) -> (int, int) {
    if exists|p: (int, int)| is_last_of(g, target, p.0, p.1) {
        choose|p: (int, int)| is_last_of(g, target, p.0, p.1)
    } else {
        (0, 0)
    }
}

pub proof fn lemma_last_unique(g: Seq<Seq<Cell>>, target: Cell, p: (int, int), q: (int, int))
    requires
        is_last_of(g, target, p.0, p.1),
        is_last_of(g, target, q.0, q.1),
    ensures
        p == q,
{
    if comes_after(q.0, q.1, p.0, p.1) {
        assert(g[q.0][q.1] != target);
    } else if comes_after(p.0, p.1, q.0, q.1) {
        assert(g[p.0][p.1] != target);
    }
}

pub proof fn lemma_last_position(g: Seq<Seq<Cell>>, target: Cell, p: (int, int))
    requires
        is_last_of(g, target, p.0, p.1),
    ensures
        last_position(g, target) == p,
{
    let q = choose|q: (int, int)| is_last_of(g, target, q.0, q.1);
    lemma_last_unique(g, target, p, q);
}

/// The last cell of the maze, in row-major order over the rows and the
/// columns of the first row, that holds `target`, as `(row, column)`;
/// `(0, 0)` where none does.
pub fn last_position_of(maze: &Vec<Vec<Cell>>, target: Cell) -> (r: (usize, usize))
    requires
        well_formed(grid(maze)),
    ensures
        (r.0 as int, r.1 as int) == last_position(grid(maze), target),
{
    let ghost g = grid(maze);
    let height: usize = maze.len();
    assert(maze@[0]@ == g[0]);
    let width: usize = maze[0].len();
    let mut found = false;
    let mut ry: usize = 0;
    let mut rx: usize = 0;
    for y in 0..height
        invariant
            g == grid(maze),
            well_formed(g),
            height == g.len(),
            width == grid_width(g),
            found ==> in_rect(g, ry as int, rx as int) && ry < y && g[ry as int][rx as int]
                == target,
            forall|a: int, b: int|
                in_rect(g, a, b) && a < y && (!found || comes_after(a, b, ry as int, rx as int))
                    ==> #[trigger] g[a][b] != target,
            !found ==> ry == 0 && rx == 0,
    {
        assert(g[y as int].len() >= width);
        assert(maze@[y as int]@ == g[y as int]);
        for x in 0..width
            invariant
                g == grid(maze),
                well_formed(g),
                height == g.len(),
                width == grid_width(g),
                0 <= y < height,
                g[y as int].len() >= width,
                maze@[y as int]@ == g[y as int],
                found ==> in_rect(g, ry as int, rx as int) && (ry < y || (ry == y && rx < x))
                    && g[ry as int][rx as int] == target,
                forall|a: int, b: int|
                    in_rect(g, a, b) && (a < y || (a == y && b < x)) && (!found || comes_after(
                        a,
                        b,
                        ry as int,
                        rx as int,
                    )) ==> #[trigger] g[a][b] != target,
                !found ==> ry == 0 && rx == 0,
        {
            if maze[y][x] == target {
                found = true;
                ry = y;
                rx = x;
            }
        }
    }
    proof {
        if found {
            assert(is_last_of(g, target, ry as int, rx as int));
            lemma_last_position(g, target, (ry as int, rx as int));
        } else {
            assert forall|p: (int, int)| !is_last_of(g, target, p.0, p.1) by {
                if is_last_of(g, target, p.0, p.1) {
                    assert(g[p.0][p.1] != target);
                }
            }
        }
    }
    (ry, rx)
}

/// `(a, b)` comes before `(y, x)` in row-major order.
pub open spec fn comes_before(a: int, b: int, y: int, x: int) -> bool {
    a < y || (a == y && b < x)
}

/// `(y, x)` holds `target`, and no earlier cell of the rectangle does.
pub open spec fn is_first_of(g: Seq<Seq<Cell>>, target: Cell, y: int, x: int) -> bool {
    &&& in_rect(g, y, x)
    &&& g[y][x] == target
    &&& forall|a: int, b: int|
        in_rect(g, a, b) && comes_before(a, b, y, x) ==> #[trigger] g[a][b] != target
}

/// The first cell of the rectangle in row-major order that holds `target`,
/// as `(row, column)`, if any does.
pub open spec fn first_position(g: Seq<Seq<Cell>>, target: Cell) -> Option<(int, int)> {
    if exists|p: (int, int)| is_first_of(g, target, p.0, p.1) {
        Some(choose|p: (int, int)| is_first_of(g, target, p.0, p.1))
    } else {
        None
    }
}

pub proof fn lemma_first_position(g: Seq<Seq<Cell>>, target: Cell, p: (int, int))
    requires
        is_first_of(g, target, p.0, p.1),
    ensures
        first_position(g, target) == Some(p),
{
    let q = choose|q: (int, int)| is_first_of(g, target, q.0, q.1);
    if comes_before(q.0, q.1, p.0, p.1) {
        assert(g[q.0][q.1] != target);
    } else if comes_before(p.0, p.1, q.0, q.1) {
        assert(g[p.0][p.1] != target);
    }
}

/// The first cell of the maze, in row-major order over the rows and the
/// columns of the first row, that holds `target`, as `(row, column)`.
pub fn first_position_of(maze: &Vec<Vec<Cell>>, target: Cell) -> (r: Option<(usize, usize)>)
    requires
        well_formed(grid(maze)),
    ensures
        r matches Some(p) ==> first_position(grid(maze), target) == Some((p.0 as int, p.1 as int)),
        r is None ==> first_position(grid(maze), target) is None,
{
    let ghost g = grid(maze);
    let height: usize = maze.len();
    assert(maze@[0]@ == g[0]);
    let width: usize = maze[0].len();
    for y in 0..height
        invariant
            g == grid(maze),
            well_formed(g),
            height == g.len(),
            width == grid_width(g),
            forall|a: int, b: int| in_rect(g, a, b) && a < y ==> #[trigger] g[a][b] != target,
    {
        assert(g[y as int].len() >= width);
        assert(maze@[y as int]@ == g[y as int]);
        for x in 0..width
            invariant
                g == grid(maze),
                well_formed(g),
                height == g.len(),
                width == grid_width(g),
                0 <= y < height,
                g[y as int].len() >= width,
                maze@[y as int]@ == g[y as int],
                forall|a: int, b: int|
                    in_rect(g, a, b) && comes_before(a, b, y as int, x as int) ==> #[trigger] g[a][b]
                        != target,
        {
            if maze[y][x] == target {
                proof {
                    lemma_first_position(g, target, (y as int, x as int));
                }
                return Some((y, x));
            }
        }
    }
    proof {
        assert forall|p: (int, int)| !is_first_of(g, target, p.0, p.1) by {
            if is_first_of(g, target, p.0, p.1) {
                assert(g[p.0][p.1] != target);
            }
        }
    }
    None
}

} // verus!
