//! The mathematical model of a maze: a sequence of rows of cells.
use vstd::prelude::*;
use crate::cell::{Cell, NodeState, WallState};

verus! {

/// The maze as rows of cells.
pub open spec fn grid(m: &Vec<Vec<Cell>>) -> Seq<Seq<Cell>> {
    m@.map_values(|r: Vec<Cell>| r@)
}

/// The width the game works with: the length of the first row.
pub open spec fn grid_width(g: Seq<Seq<Cell>>) -> int {
    g[0].len() as int
}

/// At least one row, and no row shorter than the first.
pub open spec fn well_formed(g: Seq<Seq<Cell>>) -> bool {
    &&& g.len() > 0
    &&& forall|r: int| 0 <= r < g.len() ==> #[trigger] g[r].len() >= g[0].len()
}

/// Two grids with the same number of rows and the same row lengths.
pub open spec fn same_shape(a: Seq<Seq<Cell>>, b: Seq<Seq<Cell>>) -> bool {
    &&& a.len() == b.len()
    &&& forall|r: int| 0 <= r < a.len() ==> #[trigger] a[r].len() == b[r].len()
}

/// `(y, x)` lies inside the grid.
pub open spec fn in_grid(g: Seq<Seq<Cell>>, y: int, x: int) -> bool {
    0 <= y < g.len() && 0 <= x < g[y].len()
}

/// `(y, x)` lies inside the rectangle that the game scans: the rows, and the
/// columns of the first row.
pub open spec fn in_rect(g: Seq<Seq<Cell>>, y: int, x: int) -> bool {
    0 <= y < g.len() && 0 <= x < grid_width(g)
}

/// `a` and `b` lie two cells apart in a row or in a column.
pub open spec fn two_apart(a: (int, int), b: (int, int)) -> bool {
    ||| b.0 == a.0 && (b.1 == a.1 + 2 || b.1 == a.1 - 2)
    ||| b.1 == a.1 && (b.0 == a.0 + 2 || b.0 == a.0 - 2)
}

/// The grid with cell `(y, x)` replaced by `c`.
pub open spec fn put(g: Seq<Seq<Cell>>, y: int, x: int, c: Cell) -> Seq<Seq<Cell>> {
    g.update(y, g[y].update(x, c))
}

pub open spec fn is_empty_node(c: Cell) -> bool {
    c == Cell::Node(NodeState::Empty)
}

pub open spec fn empty_flag(c: Cell) -> nat {
    if is_empty_node(c) { 1 } else { 0 }
}

/// Number of empty nodes in a row.
pub open spec fn row_empties(r: Seq<Cell>) -> nat
    decreases r.len(),
{
    if r.len() == 0 {
        0
    } else {
        row_empties(r.drop_last()) + empty_flag(r.last())
    }
}

/// Number of empty nodes in the grid.
pub open spec fn grid_empties(g: Seq<Seq<Cell>>) -> nat
    decreases g.len(),
{
    if g.len() == 0 {
        0
    } else {
        grid_empties(g.drop_last()) + row_empties(g.last())
    }
}

pub open spec fn cell_flag(c: Cell, t: Cell) -> nat {
    if c == t { 1 } else { 0 }
}

/// Number of cells of a row that hold `t`.
pub open spec fn row_tally(r: Seq<Cell>, t: Cell) -> nat
    decreases r.len(),
{
    if r.len() == 0 {
        0
    } else {
        row_tally(r.drop_last(), t) + cell_flag(r.last(), t)
    }
}

/// Number of cells of the grid that hold `t`.
pub open spec fn grid_tally(g: Seq<Seq<Cell>>, t: Cell) -> nat
    decreases g.len(),
{
    if g.len() == 0 {
        0
    } else {
        grid_tally(g.drop_last(), t) + row_tally(g.last(), t)
    }
}

/// Number of open walls in the grid.
pub open spec fn open_walls(g: Seq<Seq<Cell>>) -> nat {
    grid_tally(g, Cell::Wall(WallState::Open))
}

/// No cell on the border of the scanned rectangle is an empty node.
pub open spec fn framed(g: Seq<Seq<Cell>>) -> bool {
    &&& well_formed(g)
    &&& forall|y: int, x: int|
        in_rect(g, y, x) && is_empty_node(#[trigger] g[y][x]) ==> 1 <= y < g.len() - 1 && 1 <= x
            < grid_width(g) - 1
}

pub proof fn lemma_row_update(r: Seq<Cell>, i: int, c: Cell)
    requires
        0 <= i < r.len(),
    ensures
        row_empties(r.update(i, c)) + empty_flag(r[i]) == row_empties(r) + empty_flag(c),
    decreases r.len(),
{
    let u = r.update(i, c);
    if i == r.len() - 1 {
        assert(u.drop_last() =~= r.drop_last());
    } else {
        assert(u.drop_last() =~= r.drop_last().update(i, c));
        lemma_row_update(r.drop_last(), i, c);
    }
}

pub proof fn lemma_grid_update(g: Seq<Seq<Cell>>, y: int, x: int, c: Cell)
    requires
        in_grid(g, y, x),
    ensures
        grid_empties(put(g, y, x, c)) + empty_flag(g[y][x]) == grid_empties(g) + empty_flag(c),
    decreases g.len(),
{
    let u = put(g, y, x, c);
    lemma_row_update(g[y], x, c);
    if y == g.len() - 1 {
        assert(u.drop_last() =~= g.drop_last());
    } else {
        assert(u.drop_last() =~= put(g.drop_last(), y, x, c));
        lemma_grid_update(g.drop_last(), y, x, c);
    }
}

pub proof fn lemma_row_tally_update(r: Seq<Cell>, i: int, c: Cell, t: Cell)
    requires
        0 <= i < r.len(),
    ensures
        row_tally(r.update(i, c), t) + cell_flag(r[i], t) == row_tally(r, t) + cell_flag(c, t),
    decreases r.len(),
{
    let u = r.update(i, c);
    if i == r.len() - 1 {
        assert(u.drop_last() =~= r.drop_last());
    } else {
        assert(u.drop_last() =~= r.drop_last().update(i, c));
        lemma_row_tally_update(r.drop_last(), i, c, t);
    }
}

pub proof fn lemma_grid_tally_update(g: Seq<Seq<Cell>>, y: int, x: int, c: Cell, t: Cell)
    requires
        in_grid(g, y, x),
    ensures
        grid_tally(put(g, y, x, c), t) + cell_flag(g[y][x], t) == grid_tally(g, t) + cell_flag(c, t),
    decreases g.len(),
{
    let u = put(g, y, x, c);
    lemma_row_tally_update(g[y], x, c, t);
    if y == g.len() - 1 {
        assert(u.drop_last() =~= g.drop_last());
    } else {
        assert(u.drop_last() =~= put(g.drop_last(), y, x, c));
        lemma_grid_tally_update(g.drop_last(), y, x, c, t);
    }
}

pub proof fn lemma_row_tally_same(a: Seq<Cell>, b: Seq<Cell>, t: Cell)
    requires
        a.len() == b.len(),
        forall|i: int| 0 <= i < a.len() ==> (#[trigger] a[i] == t) == (b[i] == t),
    ensures
        row_tally(a, t) == row_tally(b, t),
    decreases a.len(),
{
    if a.len() > 0 {
        lemma_row_tally_same(a.drop_last(), b.drop_last(), t);
    }
}

/// Two grids of one shape that hold `t` in the same places count it alike.
pub proof fn lemma_grid_tally_same(a: Seq<Seq<Cell>>, b: Seq<Seq<Cell>>, t: Cell)
    requires
        same_shape(a, b),
        forall|r: int, c: int| in_grid(a, r, c) ==> (#[trigger] a[r][c] == t) == (b[r][c] == t),
    ensures
        grid_tally(a, t) == grid_tally(b, t),
    decreases a.len(),
{
    if a.len() > 0 {
        let n = a.len() - 1;
        assert forall|i: int| 0 <= i < a[n].len() implies (#[trigger] a[n][i] == t) == (b[n][i] == t) by {
            assert(in_grid(a, n, i));
        }
        lemma_row_tally_same(a[n], b[n], t);
        assert forall|r: int, c: int| in_grid(a.drop_last(), r, c) implies (
        #[trigger] a.drop_last()[r][c] == t) == (b.drop_last()[r][c] == t) by {
            assert(in_grid(a, r, c));
        }
        lemma_grid_tally_same(a.drop_last(), b.drop_last(), t);
    }
}

pub proof fn lemma_row_tally_zero(a: Seq<Cell>, t: Cell)
    requires
        forall|i: int| 0 <= i < a.len() ==> #[trigger] a[i] != t,
    ensures
        row_tally(a, t) == 0,
    decreases a.len(),
{
    if a.len() > 0 {
        lemma_row_tally_zero(a.drop_last(), t);
    }
}

/// A grid that nowhere holds `t` counts none of it.
pub proof fn lemma_grid_tally_zero(g: Seq<Seq<Cell>>, t: Cell)
    requires
        forall|r: int, c: int| in_grid(g, r, c) ==> #[trigger] g[r][c] != t,
    ensures
        grid_tally(g, t) == 0,
    decreases g.len(),
{
    if g.len() > 0 {
        let n = g.len() - 1;
        assert forall|i: int| 0 <= i < g[n].len() implies #[trigger] g[n][i] != t by {
            assert(in_grid(g, n, i));
        }
        lemma_row_tally_zero(g[n], t);
        assert forall|r: int, c: int| in_grid(g.drop_last(), r, c) implies #[trigger] g.drop_last()[r][c]
            != t by {
            assert(in_grid(g, r, c));
        }
        lemma_grid_tally_zero(g.drop_last(), t);
    }
}

pub proof fn lemma_row_no_empties(r: Seq<Cell>)
    requires
        forall|i: int| 0 <= i < r.len() ==> !is_empty_node(#[trigger] r[i]),
    ensures
        row_empties(r) == 0,
    decreases r.len(),
{
    if r.len() > 0 {
        lemma_row_no_empties(r.drop_last());
    }
}

/// A grid without empty nodes counts none.
pub proof fn lemma_no_empties(g: Seq<Seq<Cell>>)
    requires
        forall|r: int, c: int| in_grid(g, r, c) ==> !is_empty_node(#[trigger] g[r][c]),
    ensures
        grid_empties(g) == 0,
    decreases g.len(),
{
    if g.len() > 0 {
        let n = g.len() - 1;
        assert forall|i: int| 0 <= i < g[n].len() implies !is_empty_node(#[trigger] g[n][i]) by {
            assert(in_grid(g, n, i));
        }
        lemma_row_no_empties(g[n]);
        assert forall|r: int, c: int| in_grid(g.drop_last(), r, c) implies !is_empty_node(
            #[trigger] g.drop_last()[r][c],
        ) by {
            assert(in_grid(g, r, c));
        }
        lemma_no_empties(g.drop_last());
    }
}

/// Writes `c` at `(y, x)`.
pub fn set_cell(maze: &mut Vec<Vec<Cell>>, y: usize, x: usize, c: Cell)
    requires
        in_grid(grid(old(maze)), y as int, x as int),
    ensures
        grid(final(maze)) == put(grid(old(maze)), y as int, x as int, c),
        grid_empties(grid(final(maze))) + empty_flag(grid(old(maze))[y as int][x as int])
            == grid_empties(grid(old(maze))) + empty_flag(c),
        open_walls(grid(final(maze))) + cell_flag(
            grid(old(maze))[y as int][x as int],
            Cell::Wall(WallState::Open),
        ) == open_walls(grid(old(maze))) + cell_flag(c, Cell::Wall(WallState::Open)),
{
    proof {
        lemma_grid_update(grid(maze), y as int, x as int, c);
        lemma_grid_tally_update(grid(maze), y as int, x as int, c, Cell::Wall(WallState::Open));
    }
    maze[y][x] = c;
    assert(grid(maze) =~= put(grid(old(maze)), y as int, x as int, c));
}

} // verus!
