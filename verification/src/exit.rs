//! Why the solver reaches the end point of every maze the game carves and
//! sets up: a walk without repeated cells leads there, and the search may
//! take each of its steps.
use vstd::prelude::*;
use crate::builder::{cleaned, fresh_cell, is_fresh_grid};
use crate::cell::{Cell, Character, NodeState, WallState};
use crate::game::{is_carved_maze, lemma_carved_fresh_grid_maze, open_inner_wall};
use crate::generator::{carved, linked, open_step, passage, step};
use crate::grid::{framed, grid_width, in_grid, in_rect, is_empty_node};
use crate::laws::{is_node_at, node_of};
use crate::reach::{can_reach_end, cand_step, mid, search_walk};
use crate::setup::{odd_row, placed_cell, set_up_as};
use crate::solver::{is_candidate, passable, walls_around};

verus! {

/// No cell occurs twice in `p`.
pub open spec fn no_repeats(p: Seq<(int, int)>) -> bool {
    forall|i: int, j: int| 0 <= i < j < p.len() ==> #[trigger] p[i] != #[trigger] p[j]
}

/// Cutting out the loops of a walk through open walls leaves one with no
/// cell twice, between the same two cells.
pub proof fn lemma_simple_passage(g: Seq<Seq<Cell>>, p: Seq<(int, int)>) -> (q: Seq<(int, int)>)
    requires
        passage(g, p),
    ensures
        passage(g, q),
        no_repeats(q),
        q[0] == p[0],
        q.last() == p.last(),
    decreases p.len(),
{
    if no_repeats(p) {
        p
    } else {
        let (i, j) = choose|i: int, j: int| 0 <= i < j < p.len() && p[i] == p[j];
        let r = p.take(i + 1) + p.skip(j + 1);
        assert(r.len() == p.len() - (j - i));
        assert forall|k: int| 0 <= k < r.len() implies #[trigger] r[k] == if k <= i {
            p[k]
        } else {
            p[k + j - i]
        } by {}
        assert forall|k: int| 0 <= k < r.len() implies crate::grid::in_grid(g, #[trigger] r[k].0, r[k].1) by {
            if k <= i {
                assert(r[k] == p[k]);
            } else {
                assert(r[k] == p[k + j - i]);
            }
        }
        assert forall|k: int| 0 <= k < r.len() - 1 implies #[trigger] open_step(g, r[k], r[k + 1]) by {
            if k < i {
                assert(r[k] == p[k] && r[k + 1] == p[k + 1]);
            } else {
                let m = k + j - i;
                assert(r[k] == p[m]);
                assert(r[k + 1] == p[m + 1]);
                assert(open_step(g, p[m], p[m + 1]));
            }
        }
        assert(r[0] == p[0]);
        assert(r.last() == p.last()) by {
            let n = r.len() - 1;
            if n <= i {
                assert(j == p.len() - 1);
                assert(r.last() == p[i]);
            } else {
                assert(r[n] == p[n + j - i]);
            }
        }
        lemma_simple_passage(g, r)
    }
}

/// Every cell of a walk through open walls from a node is a node.
pub proof fn lemma_passage_nodes(g: Seq<Seq<Cell>>, p: Seq<(int, int)>, k: int)
    requires
        passage(g, p),
        is_node_at(p[0].0, p[0].1),
        0 <= k < p.len(),
    ensures
        is_node_at(p[k].0, p[k].1),
    decreases k,
{
    if k > 0 {
        lemma_passage_nodes(g, p, k - 1);
        let j = k - 1;
        assert(open_step(g, p[j], p[j + 1]));
    }
}

/// The cells of a carved maze once the start and end points are set up for
/// the computer at rows `st` and `e`.
pub open spec fn set_up_carved(g: Seq<Seq<Cell>>, g2: Seq<Seq<Cell>>, w: int, h: int, st: int, e: int) -> bool {
    &&& w >= 1
    &&& h >= 1
    &&& 1 <= st <= h
    &&& 1 <= e <= h
    &&& is_carved_maze(g, w, h)
    &&& set_up_as(g, g2, st, e, Character::Computer)
}

/// In a set-up carved maze, a node other than the computer's is an empty
/// node, and an open wall of the carved maze stays open, off the border.
proof fn lemma_set_up_cell(g: Seq<Seq<Cell>>, g2: Seq<Seq<Cell>>, w: int, h: int, st: int, e: int, r: int, c: int)
    requires
        set_up_carved(g, g2, w, h, st, e),
        in_grid(g, r, c),
    ensures
        is_node_at(r, c) && (r, c) != (odd_row(st), 1int) ==> g2[r][c] == Cell::Node(NodeState::Empty),
        g[r][c] == Cell::Wall(WallState::Open) ==> g2[r][c] == Cell::Wall(WallState::Open) && 0 < c < 2
            * w && !is_node_at(r, c),
        r == odd_row(e) && c == 2 * w ==> g2[r][c] == Cell::Node(NodeState::EndPoint),
{
    assert(g2[r][c] == placed_cell(g, st, e, Character::Computer, r, c));
    assert(g[r][c] == fresh_cell(r, c) || open_inner_wall(g, w, h, r, c));
    assert(in_grid(g, odd_row(st), 0));
    assert(g[odd_row(st)][0] == fresh_cell(odd_row(st), 0) || open_inner_wall(g, w, h, odd_row(st), 0));
}

/// One step of the walk is a move the search takes from `q[k]`, and its wall
/// is not the end point.
proof fn lemma_walk_step(
    g: Seq<Seq<Cell>>,
    g2: Seq<Seq<Cell>>,
    w: int,
    h: int,
    st: int,
    e: int,
    q: Seq<(int, int)>,
    k: int,
)
    requires
        set_up_carved(g, g2, w, h, st, e),
        passage(g, q),
        no_repeats(q),
        q[0] == (odd_row(st), 1int),
        q.last() == (odd_row(e), 2 * w - 1),
        forall|i: int| 0 <= i < q.len() ==> is_node_at(#[trigger] q[i].0, q[i].1),
        0 <= k < q.len() - 1,
    ensures
        cand_step(g2, q[k], q[k + 1]),
        mid(q[k], q[k + 1]) != (q.last().0, q.last().1 + 1),
{
    let a = q[k];
    let n = q[k + 1];
    assert(open_step(g, a, n));
    assert(in_grid(g, n.0, n.1));
    assert(in_grid(g, a.0, a.1));
    assert(is_node_at(n.0, n.1));
    assert(q[0] != n);
    let m1 = mid(a, n);
    lemma_set_up_cell(g, g2, w, h, st, e, n.0, n.1);
    lemma_set_up_cell(g, g2, w, h, st, e, m1.0, m1.1);
    assert(g2[n.0][n.1] == Cell::Node(NodeState::Empty));
    assert(g2[m1.0][m1.1] == Cell::Wall(WallState::Open));
    let d: int = if n == (a.0 - 2, a.1) {
        0
    } else if n == (a.0 + 2, a.1) {
        1
    } else if n == (a.0, a.1 - 2) {
        2
    } else {
        3
    };
    assert(step(a.0, a.1, d) == n);
    assert(g2.len() == g.len());
    assert(g2[0].len() == g[0].len());
    assert(g[0].len() == 2 * w + 1);
    assert(g2[n.0].len() == g[n.0].len());
    assert(g[n.0].len() == 2 * w + 1);
    assert(passable(g2, a.0, a.1, d));
    assert(1 <= n.0 <= 2 * h - 1 && 1 <= n.1 <= 2 * w - 1);
    assert(g2[n.0 - 1].len() == 2 * w + 1 && g2[n.0 + 1].len() == 2 * w + 1) by {
        assert(g2[n.0 - 1].len() == g[n.0 - 1].len());
        assert(g2[n.0 + 1].len() == g[n.0 + 1].len());
    }
    if k + 1 < q.len() - 1 {
        let j = k + 1;
        let b = q[j + 1];
        assert(open_step(g, q[j], q[j + 1]));
        assert(b != a);
        let m2 = mid(n, b);
        lemma_set_up_cell(g, g2, w, h, st, e, m2.0, m2.1);
        assert(g2[m2.0][m2.1] == Cell::Wall(WallState::Open));
        assert(m2 != m1);
    } else {
        assert(n == q.last());
        lemma_set_up_cell(g, g2, w, h, st, e, n.0, n.1 + 1);
        assert(g2[n.0][n.1 + 1] == Cell::Node(NodeState::EndPoint));
    }
    assert(walls_around(g2, n.0, n.1) < 3);
    assert(is_candidate(g2, a.0, a.1, d));
}

/// A carved maze set up for the computer is one the solver accepts: no
/// empty node on its border.
proof fn lemma_set_up_framed(g: Seq<Seq<Cell>>, g2: Seq<Seq<Cell>>, w: int, h: int, st: int, e: int)
    requires
        set_up_carved(g, g2, w, h, st, e),
    ensures
        framed(g2),
{
    assert(g2[0].len() == g[0].len());
    assert forall|r: int| 0 <= r < g2.len() implies #[trigger] g2[r].len() >= g2[0].len() by {
        assert(g2[r].len() == g[r].len());
    }
    assert forall|y: int, x: int| in_rect(g2, y, x) && is_empty_node(#[trigger] g2[y][x]) implies 1 <= y
        < g2.len() - 1 && 1 <= x < grid_width(g2) - 1 by {
        assert(g[y].len() == 2 * w + 1);
        assert(in_grid(g, y, x));
        assert(g2[y][x] == placed_cell(g, st, e, Character::Computer, y, x));
        assert(g[y][x] == fresh_cell(y, x) || open_inner_wall(g, w, h, y, x));
    }
}

/// The solver reaches the end point of every maze of `w` by `h` nodes
/// carved from a fresh grid and set up for the computer with rows `st` and
/// `e` out of `h`: from the computer's node, beside the start point,
/// the search has a walk to the node beside the end point, and the maze is
/// one `solve_maze` accepts. Its contract then says it returns `true`.
pub proof fn lemma_generated_maze_solvable(g: Seq<Seq<Cell>>, g2: Seq<Seq<Cell>>, w: int, h: int, st: int, e: int)
    requires
        set_up_carved(g, g2, w, h, st, e),
        st != e,
    ensures
        framed(g2),
        in_grid(g2, odd_row(st), 2),
        can_reach_end(g2, odd_row(st), 1),
{
    lemma_set_up_framed(g, g2, w, h, st, e);
    let start = (odd_row(st), 1int);
    let endn = (odd_row(e), 2 * w - 1);
    assert(node_of(w, h, start.0, start.1));
    assert(node_of(w, h, endn.0, endn.1));
    assert(linked(g, start, endn));
    let p = choose|p: Seq<(int, int)>| passage(g, p) && p[0] == start && p.last() == endn;
    let q = lemma_simple_passage(g, p);
    assert forall|i: int| 0 <= i < q.len() implies is_node_at(#[trigger] q[i].0, q[i].1) by {
        lemma_passage_nodes(g, q, i);
    }
    assert forall|k: int| 0 <= k < q.len() - 1 implies #[trigger] cand_step(g2, q[k], q[k + 1]) by {
        lemma_walk_step(g, g2, w, h, st, e, q, k);
    }
    assert forall|k: int| 0 <= k < q.len() - 1 implies #[trigger] mid(q[k], q[k + 1]) != (
    q.last().0, q.last().1 + 1) by {
        lemma_walk_step(g, g2, w, h, st, e, q, k);
    }
    assert(in_grid(g, endn.0, endn.1 + 1));
    lemma_set_up_cell(g, g2, w, h, st, e, endn.0, endn.1 + 1);
    assert(g2[endn.0].len() == g[endn.0].len());
    assert(g2[start.0].len() == g[start.0].len());
    assert(search_walk(g2, q));
}

/// From a fresh grid of `w` by `h` nodes, carving from any of its nodes,
/// clearing the visit marks and setting up the computer at rows `st` and `e`
/// (two different rows out of `h`) gives a maze `solve_maze` accepts and
/// solves: the search from the computer's node has a walk to the end point.
pub proof fn lemma_carved_maze_solvable(
    g0: Seq<Seq<Cell>>,
    g1: Seq<Seq<Cell>>,
    g2: Seq<Seq<Cell>>,
    g3: Seq<Seq<Cell>>,
    w: int,
    h: int,
    y: int,
    x: int,
    st: int,
    e: int,
)
    requires
        w >= 1,
        h >= 1,
        is_fresh_grid(g0, w, h),
        node_of(w, h, y, x),
        carved(g0, g1, y, x),
        g2 == cleaned(g1),
        1 <= st <= h,
        1 <= e <= h,
        st != e,
        set_up_as(g2, g3, st, e, Character::Computer),
    ensures
        framed(g3),
        in_grid(g3, odd_row(st), 2),
        can_reach_end(g3, odd_row(st), 1),
{
    lemma_carved_fresh_grid_maze(g0, g1, g2, w, h, y, x);
    lemma_generated_maze_solvable(g2, g3, w, h, st, e);
}

} // verus!
