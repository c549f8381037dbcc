//! Carving a whole maze: the fresh grid, the start node, the search and the
//! cleanup; and what the carved maze is.
use vstd::prelude::*;
use crate::builder::{
    clean_up_maze_after_algorith, cleaned, cleaned_cell, fresh_cell, fresh_grid, initial_maze_grid_maker,
    is_fresh_grid,
};
use crate::cell::{Cell, NodeState, WallState};
use crate::generator::{
    between_cells, carve_result, carved, changes_ok, count_ready, is_order, cross_cells, linked, maze_generator, open_step,
    opened, opened_down, opens_kept, passage, same_class, tree_order, wall_class, wall_ready, walls_ready,
};
use crate::exit::lemma_passage_nodes;
use crate::grid::{
    empty_flag, grid, grid_empties, grid_width, in_grid, is_empty_node, lemma_grid_tally_same,
    lemma_grid_tally_zero, lemma_no_empties, open_walls, row_empties, same_shape, two_apart, well_formed,
};
use crate::laws::{is_node_at, lemma_carving_spans_fresh_grid, lemma_linked_reverse, lemma_linked_trans, node_of};
use crate::picker::{is_kth_empty, lemma_take_step, picked_cell, random_cell_picker, rect_empties, rows_empties};
use crate::generator::{lemma_linked_persists, lemma_passage_persists};

verus! {

proof fn lemma_fresh_row_count(g: Seq<Seq<Cell>>, w: int, h: int, r: int, n: int)
    requires
        is_fresh_grid(g, w, h),
        0 <= r < 2 * h + 1,
        0 <= n <= 2 * w + 1,
    ensures
        row_empties(g[r].take(n)) == if r % 2 == 1 { n / 2 } else { 0 },
    decreases n,
{
    if n > 0 {
        lemma_fresh_row_count(g, w, h, r, n - 1);
        lemma_take_step(g[r], n - 1);
        assert(in_grid(g, r, n - 1));
        assert(g[r][n - 1] == fresh_cell(r, n - 1));
    } else {
        assert(g[r].take(0) =~= Seq::<Cell>::empty());
    }
}

proof fn lemma_fresh_rows_count(g: Seq<Seq<Cell>>, w: int, h: int, n: int)
    requires
        is_fresh_grid(g, w, h),
        w >= 1,
        h >= 1,
        0 <= n <= 2 * h + 1,
    ensures
        rows_empties(g, n) == (n / 2) * w,
    decreases n,
{
    if n > 0 {
        lemma_fresh_rows_count(g, w, h, n - 1);
        assert(grid_width(g) == 2 * w + 1);
        lemma_fresh_row_count(g, w, h, n - 1, 2 * w + 1);
        assert(rows_empties(g, n) == rows_empties(g, n - 1) + row_empties(
            g[n - 1].take(grid_width(g)),
        ));
        assert((2 * w + 1) / 2 == w);
        if (n - 1) % 2 == 1 {
            assert(n / 2 == (n - 1) / 2 + 1);
            assert((n / 2) * w == ((n - 1) / 2) * w + w) by (nonlinear_arith)
                requires
                    n / 2 == (n - 1) / 2 + 1,
            ;
        } else {
            assert(n / 2 == (n - 1) / 2);
        }
    } else {
        assert((0int / 2) * w == 0) by (nonlinear_arith);
    }
}

/// Counted row by row, the empty nodes of a grid whose rows all have the
/// first row's length are those of its scanned rectangle.
proof fn lemma_empties_by_rows(g: Seq<Seq<Cell>>, n: int)
    requires
        g.len() > 0,
        0 <= n <= g.len(),
        forall|r: int| 0 <= r < g.len() ==> #[trigger] g[r].len() == grid_width(g),
    ensures
        grid_empties(g.take(n)) == rows_empties(g, n),
    decreases n,
{
    if n > 0 {
        lemma_empties_by_rows(g, n - 1);
        assert(g.take(n).drop_last() =~= g.take(n - 1));
        assert(g[n - 1].take(grid_width(g)) =~= g[n - 1]);
    }
}

/// A fresh grid of `w` by `h` nodes has `w * h` empty nodes and no open wall.
proof fn lemma_fresh_counts(g0: Seq<Seq<Cell>>, w: int, h: int)
    requires
        w >= 1,
        h >= 1,
        is_fresh_grid(g0, w, h),
    ensures
        grid_empties(g0) == w * h,
        open_walls(g0) == 0,
{
    assert forall|r: int| 0 <= r < g0.len() implies #[trigger] g0[r].len() == grid_width(g0) by {}
    lemma_empties_by_rows(g0, g0.len() as int);
    assert(g0.take(g0.len() as int) =~= g0);
    lemma_fresh_rows_count(g0, w, h, 2 * h + 1);
    assert((2 * h + 1) / 2 == h);
    assert(h * w == w * h) by (nonlinear_arith);
    lemma_grid_tally_zero(g0, Cell::Wall(WallState::Open));
}

/// A fresh grid is ready for an exact count from any of its nodes.
proof fn lemma_fresh_ready(g0: Seq<Seq<Cell>>, w: int, h: int, y: int, x: int)
    requires
        is_fresh_grid(g0, w, h),
        node_of(w, h, y, x),
    ensures
        count_ready(g0, y, x),
{
    reveal(walls_ready);
    assert(in_grid(g0, y, x));
    assert(g0[y][x] == fresh_cell(y, x));
    assert forall|a: int, b: int| in_grid(g0, a, b) && wall_class(a, b, y, x) implies #[trigger] wall_ready(
        g0,
        a,
        b,
        y,
        x,
    ) by {
        assert(g0[a][b] == fresh_cell(a, b));
    }
}

/// After carving a fresh grid no empty node is left.
proof fn lemma_carved_fresh_empties(g0: Seq<Seq<Cell>>, g1: Seq<Seq<Cell>>, w: int, h: int, y: int, x: int)
    requires
        is_fresh_grid(g0, w, h),
        node_of(w, h, y, x),
        carved(g0, g1, y, x),
        forall|r: int, c: int| node_of(w, h, r, c) ==> #[trigger] g1[r][c] == Cell::Node(NodeState::Visited),
    ensures
        grid_empties(g1) == 0,
{
    assert forall|r: int, c: int| in_grid(g1, r, c) implies !is_empty_node(#[trigger] g1[r][c]) by {
        assert(in_grid(g0, r, c));
        assert(g0[r][c] == fresh_cell(r, c));
        if is_node_at(r, c) {
            assert(node_of(w, h, r, c));
        } else if g1[r][c] != g0[r][c] {
            assert(!same_class(r, c, y, x));
        }
    }
    lemma_no_empties(g1);
}

/// The wall cells of a carved fresh grid: closed, or open off the border.
proof fn lemma_carved_fresh_walls(g0: Seq<Seq<Cell>>, g1: Seq<Seq<Cell>>, w: int, h: int, y: int, x: int)
    requires
        is_fresh_grid(g0, w, h),
        node_of(w, h, y, x),
        same_shape(g1, g0),
        changes_ok(g0, g1, y, x),
    ensures
        forall|r: int, c: int|
            in_grid(g1, r, c) && !is_node_at(r, c) ==> #[trigger] g1[r][c] == Cell::Wall(WallState::Closed)
                || (g1[r][c] == Cell::Wall(WallState::Open) && 0 < r < 2 * h && 0 < c < 2 * w && (r % 2
                == 1 || c % 2 == 1)),
{
    assert forall|r: int, c: int|
        in_grid(g1, r, c) && !is_node_at(r, c) implies #[trigger] g1[r][c] == Cell::Wall(WallState::Closed)
            || (g1[r][c] == Cell::Wall(WallState::Open) && 0 < r < 2 * h && 0 < c < 2 * w && (r % 2 == 1
            || c % 2 == 1)) by {
        assert(in_grid(g0, r, c));
        assert(g0[r][c] == fresh_cell(r, c));
        if g1[r][c] != g0[r][c] {
            assert(!same_class(r, c, y, x));
            assert(wall_class(r, c, y, x));
            assert(between_cells(g0, r, c, y, x));
            if (r - y) % 2 == 0 {
                assert(r % 2 == 1);
                assert(cross_cells(r, c, y, x) == ((r, c - 1), (r, c + 1)));
                assert(in_grid(g0, r, c - 1) && in_grid(g0, r, c + 1));
            } else {
                assert(c % 2 == 1);
                assert(cross_cells(r, c, y, x) == ((r - 1, c), (r + 1, c)));
                assert(in_grid(g0, r - 1, c) && in_grid(g0, r + 1, c));
            }
        }
    }
}

/// Carving a fresh grid of `w` by `h` nodes from one of its nodes opens
/// exactly `w * h - 1` walls, none on the border of the grid, and leaves
/// every other wall cell and every corner closed.
pub proof fn lemma_carving_fresh_grid_count(
    g0: Seq<Seq<Cell>>,
    g1: Seq<Seq<Cell>>,
    w: int,
    h: int,
    y: int,
    x: int,
)
    requires
        w >= 1,
        h >= 1,
        is_fresh_grid(g0, w, h),
        node_of(w, h, y, x),
        carved(g0, g1, y, x),
    ensures
        open_walls(g1) + 1 == w * h,
        forall|r: int, c: int|
            in_grid(g1, r, c) && !is_node_at(r, c) ==> #[trigger] g1[r][c] == Cell::Wall(WallState::Closed)
                || (g1[r][c] == Cell::Wall(WallState::Open) && 0 < r < 2 * h && 0 < c < 2 * w && (r % 2
                == 1 || c % 2 == 1)),
{
    lemma_carving_spans_fresh_grid(g0, g1, w, h, y, x);
    lemma_fresh_ready(g0, w, h, y, x);
    lemma_fresh_counts(g0, w, h);
    assert(in_grid(g0, y, x));
    assert(g0[y][x] == fresh_cell(y, x));
    assert(empty_flag(g0[y][x]) == 1);
    assert forall|r: int, c: int| node_of(w, h, r, c) implies #[trigger] g1[r][c] == Cell::Node(NodeState::Visited) by {}
    lemma_carved_fresh_empties(g0, g1, w, h, y, x);
    lemma_carved_fresh_walls(g0, g1, w, h, y, x);
}

/// `c` is a cycle of nodes through open walls: a walk from a node back to
/// it through at least three different cells, none of them twice.
pub open spec fn is_cycle(g: Seq<Seq<Cell>>, c: Seq<(int, int)>) -> bool {
    &&& c.len() >= 4
    &&& passage(g, c)
    &&& is_node_at(c[0].0, c[0].1)
    &&& c[0] == c.last()
    &&& forall|i: int, j: int| 0 <= i < j < c.len() - 1 ==> #[trigger] c[i] != #[trigger] c[j]
}

/// Some cell of `c` before index `n` comes last in the order `t`.
proof fn lemma_latest(t: spec_fn((int, int)) -> int, c: Seq<(int, int)>, n: int) -> (m: int)
    requires
        1 <= n <= c.len(),
    ensures
        0 <= m < n,
        forall|i: int| 0 <= i < n ==> t(#[trigger] c[i]) <= t(c[m]),
    decreases n,
{
    if n == 1 {
        0
    } else {
        let k = lemma_latest(t, c, n - 1);
        if t(c[n - 1]) > t(c[k]) {
            n - 1
        } else {
            k
        }
    }
}

/// Between two nodes two apart, the wall cell has them on either side.
proof fn lemma_mid_cross(a: (int, int), b: (int, int), y: int, x: int)
    requires
        is_node_at(a.0, a.1),
        is_node_at(y, x),
        two_apart(a, b),
    ensures
        wall_class((a.0 + b.0) / 2, (a.1 + b.1) / 2, y, x),
        ({
            let cc = cross_cells((a.0 + b.0) / 2, (a.1 + b.1) / 2, y, x);
            (cc.0 == a && cc.1 == b) || (cc.0 == b && cc.1 == a)
        }),
{
}

/// Carving a fresh grid leaves no cycle of nodes through open walls: with
/// every node joined to every other, there is one way only between two
/// nodes.
pub proof fn lemma_carving_fresh_grid_acyclic(
    g0: Seq<Seq<Cell>>,
    g1: Seq<Seq<Cell>>,
    w: int,
    h: int,
    y: int,
    x: int,
    c: Seq<(int, int)>,
)
    requires
        is_fresh_grid(g0, w, h),
        node_of(w, h, y, x),
        carved(g0, g1, y, x),
    ensures
        !is_cycle(g1, c),
{
    if is_cycle(g1, c) {
        let t = choose|t: spec_fn((int, int)) -> int| tree_order(g0, g1, y, x, t);
        let l = c.len() - 1;
        assert forall|i: int| 0 <= i < c.len() implies is_node_at(#[trigger] c[i].0, c[i].1) by {
            lemma_passage_nodes(g1, c, i);
        }
        let m = lemma_latest(t, c, l);
        let pi = if m == 0 { l - 1 } else { m - 1 };
        let bi = if m + 1 == l { 0 } else { m + 1 };
        let a = c[pi];
        let b = c[bi];
        let n = c[m];
        assert(c[pi + 1] == n);
        assert(c[m + 1] == b);
        assert(a != b && a != n && b != n);
        assert(open_step(g1, c[pi], c[pi + 1]));
        assert(open_step(g1, c[m], c[m + 1]));
        lemma_mid_cross(a, n, y, x);
        lemma_mid_cross(n, b, y, x);
        let w1 = ((a.0 + n.0) / 2, (a.1 + n.1) / 2);
        let w2 = ((n.0 + b.0) / 2, (n.1 + b.1) / 2);
        assert(g0[w1.0][w1.1] == fresh_cell(w1.0, w1.1));
        assert(g0[w2.0][w2.1] == fresh_cell(w2.0, w2.1));
        assert(opened(g0, g1, w1));
        assert(opened(g0, g1, w2));
        assert(t(a) <= t(n) && t(b) <= t(n));
        assert(opened_down(g0, g1, y, x, t, w1, n));
        assert(opened_down(g0, g1, y, x, t, w2, n));
        assert(w1 == w2);
    }
}

/// The cell `(r, c)` of a maze of `w` by `h` nodes is a wall between two
/// nodes, off the border, that is open.
pub open spec fn open_inner_wall(g: Seq<Seq<Cell>>, w: int, h: int, r: int, c: int) -> bool {
    &&& g[r][c] == Cell::Wall(WallState::Open)
    &&& 0 < r < 2 * h && 0 < c < 2 * w
    &&& !is_node_at(r, c)
    &&& r % 2 == 1 || c % 2 == 1
}

/// A carved maze of `w` by `h` nodes: each cell is as in the fresh grid, or
/// is an open wall between two nodes; exactly `w * h - 1` walls are open, so
/// the maze differs from the fresh grid in that many cells; a walk through
/// open walls joins any two nodes; and no cycle of nodes runs through open
/// walls, so that walk is the only one.
pub open spec fn is_carved_maze(g: Seq<Seq<Cell>>, w: int, h: int) -> bool {
    &&& g.len() == 2 * h + 1
    &&& forall|r: int| 0 <= r < g.len() ==> #[trigger] g[r].len() == 2 * w + 1
    &&& forall|r: int, c: int|
        in_grid(g, r, c) ==> #[trigger] g[r][c] == fresh_cell(r, c) || open_inner_wall(g, w, h, r, c)
    &&& forall|r1: int, c1: int, r2: int, c2: int|
        node_of(w, h, r1, c1) && node_of(w, h, r2, c2) ==> #[trigger] linked(g, (r1, c1), (r2, c2))
    &&& open_walls(g) + 1 == w * h
    &&& forall|c: Seq<(int, int)>| !#[trigger] is_cycle(g, c)
}

/// The cells of a carved fresh grid once the visit marks are cleared.
proof fn lemma_cleaned_cells(g0: Seq<Seq<Cell>>, g1: Seq<Seq<Cell>>, g2: Seq<Seq<Cell>>, w: int, h: int)
    requires
        w >= 1,
        h >= 1,
        is_fresh_grid(g0, w, h),
        same_shape(g1, g0),
        forall|r: int, c: int| node_of(w, h, r, c) ==> #[trigger] g1[r][c] == Cell::Node(NodeState::Visited),
        forall|r: int, c: int|
            in_grid(g1, r, c) && !is_node_at(r, c) ==> #[trigger] g1[r][c] == Cell::Wall(WallState::Closed)
                || (g1[r][c] == Cell::Wall(WallState::Open) && 0 < r < 2 * h && 0 < c < 2 * w && (r % 2
                == 1 || c % 2 == 1)),
        same_shape(g2, g1),
        forall|r: int, c: int| in_grid(g1, r, c) ==> #[trigger] g2[r][c] == cleaned_cell(g1, r, c),
    ensures
        forall|r: int, c: int|
            in_grid(g2, r, c) ==> #[trigger] g2[r][c] == fresh_cell(r, c) || open_inner_wall(g2, w, h, r, c),
        opens_kept(g1, g2),
{
    assert(grid_width(g1) == 2 * w + 1);
    assert forall|r: int, c: int| in_grid(g2, r, c) implies #[trigger] g2[r][c] == fresh_cell(r, c)
        || open_inner_wall(g2, w, h, r, c) by {
        assert(in_grid(g1, r, c));
        assert(in_grid(g0, r, c));
        assert(g2[r][c] == cleaned_cell(g1, r, c));
        if is_node_at(r, c) {
            assert(node_of(w, h, r, c));
            assert(g1[r][c] == Cell::Node(NodeState::Visited));
        } else {
            assert(g1[r][c] == Cell::Wall(WallState::Closed) || g1[r][c] == Cell::Wall(WallState::Open));
        }
    }
    assert forall|a: int, b: int| in_grid(g1, a, b) && g1[a][b] == Cell::Wall(WallState::Open) implies #[trigger] g2[a][b] == Cell::Wall(WallState::Open) by {
        assert(g2[a][b] == cleaned_cell(g1, a, b));
    }
}

/// Any two nodes linked to a common start are linked to each other, and
/// stay so while open walls stay open.
proof fn lemma_nodes_linked(
    g1: Seq<Seq<Cell>>,
    g2: Seq<Seq<Cell>>,
    w: int,
    h: int,
    st: (int, int),
)
    requires
        forall|r: int, c: int| node_of(w, h, r, c) ==> #[trigger] linked(g1, st, (r, c)),
        same_shape(g2, g1),
        opens_kept(g1, g2),
    ensures
        forall|r1: int, c1: int, r2: int, c2: int|
            node_of(w, h, r1, c1) && node_of(w, h, r2, c2) ==> #[trigger] linked(g2, (r1, c1), (r2, c2)),
{
    assert forall|r1: int, c1: int, r2: int, c2: int|
        node_of(w, h, r1, c1) && node_of(w, h, r2, c2) implies #[trigger] linked(g2, (r1, c1), (r2, c2)) by {
        assert(linked(g1, st, (r1, c1)));
        assert(linked(g1, st, (r2, c2)));
        lemma_linked_reverse(g1, st, (r1, c1));
        lemma_linked_trans(g1, (r1, c1), st, (r2, c2));
        lemma_linked_persists(g1, g2, (r1, c1), (r2, c2));
    }
}

/// Carving a fresh grid of `w` by `h` nodes from one of its nodes and then
/// clearing the visit marks gives a carved maze of `w` by `h` nodes.
pub proof fn lemma_carved_fresh_grid_maze(
    g0: Seq<Seq<Cell>>,
    g1: Seq<Seq<Cell>>,
    g2: Seq<Seq<Cell>>,
    w: int,
    h: int,
    y: int,
    x: int,
)
    requires
        w >= 1,
        h >= 1,
        is_fresh_grid(g0, w, h),
        node_of(w, h, y, x),
        carved(g0, g1, y, x),
        g2 == cleaned(g1),
    ensures
        is_carved_maze(g2, w, h),
{
    lemma_carving_spans_fresh_grid(g0, g1, w, h, y, x);
    lemma_carving_fresh_grid_count(g0, g1, w, h, y, x);
    let st = (y, x);
    assert forall|r: int, c: int| node_of(w, h, r, c) implies #[trigger] g1[r][c] == Cell::Node(NodeState::Visited) by {}
    assert forall|r: int, c: int| node_of(w, h, r, c) implies #[trigger] linked(g1, st, (r, c)) by {
        assert(g1[r][c] == Cell::Node(NodeState::Visited));
    }
    assert(same_shape(g2, g1));
    assert forall|r: int, c: int| in_grid(g1, r, c) implies #[trigger] g2[r][c] == cleaned_cell(g1, r, c) by {}
    lemma_cleaned_cells(g0, g1, g2, w, h);
    lemma_nodes_linked(g1, g2, w, h, st);
    assert forall|r: int, c: int| in_grid(g1, r, c) implies (#[trigger] g1[r][c] == Cell::Wall(
        WallState::Open,
    )) == (g2[r][c] == Cell::Wall(WallState::Open)) by {
        assert(g2[r][c] == cleaned_cell(g1, r, c));
    }
    lemma_grid_tally_same(g1, g2, Cell::Wall(WallState::Open));
    assert forall|r: int, c: int| in_grid(g2, r, c) && g2[r][c] == Cell::Wall(WallState::Open) implies #[trigger] g1[r][c]
        == Cell::Wall(WallState::Open) by {
        assert(g2[r][c] == cleaned_cell(g1, r, c));
    }
    assert(opens_kept(g2, g1));
    assert forall|c: Seq<(int, int)>| !#[trigger] is_cycle(g2, c) by {
        if is_cycle(g2, c) {
            lemma_passage_persists(g2, g1, c);
            assert(is_cycle(g1, c));
            lemma_carving_fresh_grid_acyclic(g0, g1, w, h, y, x, c);
        }
    }
    assert forall|r: int| 0 <= r < g2.len() implies #[trigger] g2[r].len() == 2 * w + 1 by {
        assert(g1[r].len() == g0[r].len());
    }
}

/// Builds the grid of `size` by `size` nodes, picks a cell at random with
/// `random_cell_picker`, carves from it with `maze_generator` (taking the
/// picked row as the column and the picked column as the row) and clears
/// the visit marks: the maze is that search's, for some picked node and some
/// drawn orders of directions.
pub fn generate_maze(size: usize) -> (maze: Vec<Vec<Cell>>)
    requires
        1 <= size,
        size + size + 1 <= usize::MAX,
        size * size < usize::MAX,
    ensures
        is_carved_maze(grid(&maze), size as int, size as int),
        exists|k: int, r: int, c: int|
            1 <= k <= size * size && #[trigger] is_kth_empty(fresh_grid(size as int, size as int), k, r, c)
                && exists|os: Seq<Seq<u8>>|
                (forall|j: int| 0 <= j < os.len() ==> #[trigger] is_order(os[j])) && grid(&maze)
                    == cleaned(#[trigger] carve_result(fresh_grid(size as int, size as int), c, r, os, 0).0),
{
    let mut maze = initial_maze_grid_maker(size, size);
    let ghost g0 = grid(&maze);
    let ghost s = size as int;
    assert(well_formed(g0)) by {
        assert(g0[0].len() == 2 * s + 1);
    }
    assert(g0 == fresh_grid(s, s)) by {
        assert forall|r: int| 0 <= r < g0.len() implies #[trigger] g0[r] == fresh_grid(s, s)[r] by {
            assert forall|c: int| 0 <= c < g0[r].len() implies #[trigger] g0[r][c] == fresh_grid(s, s)[r][c] by {
                assert(in_grid(g0, r, c));
            }
            assert(g0[r] =~= fresh_grid(s, s)[r]);
        }
        assert(g0 =~= fresh_grid(s, s));
    }
    let (row, column) = random_cell_picker(&maze, size);
    let ghost k = choose|k: int| 1 <= k <= s * s && #[trigger] picked_cell(g0, k, (row, column));
    proof {
        lemma_fresh_rows_count(g0, s, s, 2 * s + 1);
        assert((2 * s + 1) / 2 == s);
        assert(rect_empties(g0) == s * s);
        assert(is_kth_empty(g0, k, row as int, column as int));
        assert(g0[row as int][column as int] == fresh_cell(row as int, column as int));
        assert(node_of(s, s, column as int, row as int));
        lemma_fresh_counts(g0, s, s);
    }
    maze_generator(row, column, &mut maze);
    let ghost g1 = grid(&maze);
    let ghost os = choose|os: Seq<Seq<u8>>|
        (forall|j: int| 0 <= j < os.len() ==> #[trigger] is_order(os[j])) && g1 == carve_result(
            g0,
            column as int,
            row as int,
            os,
            0,
        ).0;
    proof {
        assert(well_formed(g1)) by {
            assert forall|r: int| 0 <= r < g1.len() implies #[trigger] g1[r].len() >= g1[0].len() by {
                assert(g1[r].len() == g0[r].len());
                assert(g1[0].len() == g0[0].len());
            }
        }
    }
    let maze = clean_up_maze_after_algorith(maze);
    proof {
        let g2 = grid(&maze);
        assert(g2 == cleaned(g1)) by {
            assert forall|r: int| 0 <= r < g2.len() implies #[trigger] g2[r] == cleaned(g1)[r] by {
                assert forall|c: int| 0 <= c < g2[r].len() implies #[trigger] g2[r][c] == cleaned(g1)[r][c] by {
                    assert(in_grid(g1, r, c));
                }
                assert(g2[r] =~= cleaned(g1)[r]);
            }
            assert(g2 =~= cleaned(g1));
        }
        lemma_carved_fresh_grid_maze(g0, g1, g2, s, s, column as int, row as int);
        assert(is_kth_empty(fresh_grid(s, s), k, row as int, column as int));
        assert(g2 == cleaned(carve_result(fresh_grid(s, s), column as int, row as int, os, 0).0));
    }
    maze
}

} // verus!
