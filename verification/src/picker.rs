//! Picking the node where carving starts.
use vstd::prelude::*;
use crate::cell::{Cell, NodeState};
use crate::grid::{empty_flag, grid, grid_width, in_rect, is_empty_node, row_empties, well_formed};
use crate::random::random_in_range;

verus! {

/// Empty nodes of the scanned rectangle in the rows before `y`.
pub open spec fn rows_empties(g: Seq<Seq<Cell>>, y: int) -> nat
    decreases y,
{
    if y <= 0 {
        0
    } else {
        rows_empties(g, y - 1) + row_empties(g[y - 1].take(grid_width(g)))
    }
}

/// Empty nodes of the scanned rectangle.
pub open spec fn rect_empties(g: Seq<Seq<Cell>>) -> nat {
    rows_empties(g, g.len() as int)
}

/// Empty nodes before `(y, x)` in row-major order.
pub open spec fn empties_before(g: Seq<Seq<Cell>>, y: int, x: int) -> nat {
    rows_empties(g, y) + row_empties(g[y].take(x))
}

/// `(y, x)` is the `k`-th empty node in row-major order, counting from 1.
pub open spec fn is_kth_empty(g: Seq<Seq<Cell>>, k: int, y: int, x: int) -> bool {
    &&& in_rect(g, y, x)
    &&& is_empty_node(g[y][x])
    &&& empties_before(g, y, x) + 1 == k
}

/// `p` is the cell that the pick for `k` gives: the `k`-th empty node where
/// there is one, else `(0, 0)`.
pub open spec fn picked_cell(g: Seq<Seq<Cell>>, k: int, p: (usize, usize)) -> bool {
    &&& 1 <= k <= rect_empties(g) ==> is_kth_empty(g, k, p.0 as int, p.1 as int)
    &&& !(1 <= k <= rect_empties(g)) ==> p == (0usize, 0usize)
}

pub proof fn lemma_take_step(r: Seq<Cell>, x: int)
    requires
        0 <= x < r.len(),
    ensures
        row_empties(r.take(x + 1)) == row_empties(r.take(x)) + empty_flag(r[x]),
{
    assert(r.take(x + 1).drop_last() =~= r.take(x));
}

pub proof fn lemma_take_monotone(r: Seq<Cell>, a: int, b: int)
    requires
        0 <= a <= b <= r.len(),
    ensures
        row_empties(r.take(a)) <= row_empties(r.take(b)),
    decreases b - a,
{
    if a < b {
        lemma_take_step(r, b - 1);
        lemma_take_monotone(r, a, b - 1);
    }
}

pub proof fn lemma_rows_monotone(g: Seq<Seq<Cell>>, a: int, b: int)
    requires
        0 <= a <= b,
    ensures
        rows_empties(g, a) <= rows_empties(g, b),
    decreases b - a,
{
    if a < b {
        lemma_rows_monotone(g, a, b - 1);
    }
}

/// The `k`-th empty node counts within the rectangle's empty nodes.
pub proof fn lemma_kth_bound(g: Seq<Seq<Cell>>, y: int, x: int)
    requires
        well_formed(g),
        in_rect(g, y, x),
        is_empty_node(g[y][x]),
    ensures
        empties_before(g, y, x) + 1 <= rect_empties(g),
{
    let w = grid_width(g);
    assert(g[y].len() >= w);
    lemma_take_step(g[y], x);
    lemma_take_monotone(g[y], x + 1, w);
    assert(g[y].take(w).take(w) =~= g[y].take(w));
    assert(rows_empties(g, y + 1) == rows_empties(g, y) + row_empties(g[y].take(w)));
    lemma_rows_monotone(g, y + 1, g.len() as int);
}

/// The `k`-th empty node of the maze in row-major order (counting from 1),
/// as `(row, column)`; `(0, 0)` where there are fewer than `k`.
pub fn nth_empty_cell(maze: &Vec<Vec<Cell>>, k: usize) -> (p: (usize, usize))
    requires
        well_formed(grid(maze)),
    ensures
        picked_cell(grid(maze), k as int, p),
{
    let ghost g = grid(maze);
    if k == 0 {
        return (0, 0);
    }
    let mut count: usize = 1;
    let height: usize = maze.len();
    assert(maze@[0]@ == g[0]);
    let width: usize = maze[0].len();
    for y in 0..height
        invariant
            g == grid(maze),
            well_formed(g),
            height == g.len(),
            width == grid_width(g),
            1 <= k,
            count == rows_empties(g, y as int) + 1,
            count <= k,
    {
        assert(g[y as int].len() >= width);
        assert(maze@[y as int]@ == g[y as int]);
        for x in 0..width
            invariant
                g == grid(maze),
                well_formed(g),
                height == g.len(),
                width == grid_width(g),
                0 <= y < height,
                g[y as int].len() >= width,
                maze@[y as int]@ == g[y as int],
                1 <= k,
                count == rows_empties(g, y as int) + row_empties(g[y as int].take(x as int)) + 1,
                count <= k,
        {
            proof {
                lemma_take_step(g[y as int], x as int);
            }
            if maze[y][x] == Cell::Node(NodeState::Empty) {
                if count == k {
                    proof {
                        lemma_kth_bound(g, y as int, x as int);
                    }
                    return (y, x);
                }
                count += 1;
            }
        }
        assert(g[y as int].take(width as int) =~= g[y as int].take(grid_width(g)));
    }
    (0, 0)
}

/// Picks at random a number `k` from `1` to `original_width` squared, and
/// returns the `k`-th empty node of the maze, or `(0, 0)` where there are
/// fewer than `k`.
pub fn random_cell_picker(maze: &Vec<Vec<Cell>>, original_width: usize) -> (p: (usize, usize))
    requires
        well_formed(grid(maze)),
        1 <= original_width,
        original_width * original_width <= usize::MAX,
    ensures
        exists|k: int|
            1 <= k <= original_width * original_width && #[trigger] picked_cell(grid(maze), k, p),
{
    let cells = original_width * original_width;
    assert(1 <= cells) by (nonlinear_arith)
        requires
            1 <= original_width,
            cells == original_width * original_width,
    ;
    let random_node_number = random_in_range(1, cells);
    let p = nth_empty_cell(maze, random_node_number);
    assert(picked_cell(grid(maze), random_node_number as int, p));
    p
}

} // verus!
