//! What carving a fresh grid achieves: every node is reached, and a walk
//! through open walls joins any two nodes; and what a key press keeps.
use vstd::prelude::*;
use crate::builder::{fresh_cell, is_fresh_grid};
use crate::cell::{Cell, NodeState, WallState};
use crate::generator::{
    carved, linked, not_open_node, open_step, passage, same_class, settled, visits_closed,
    wall_class,
};
use crate::cell::{Character, KeyInput, MoveResult};
use crate::grid::{
    cell_flag, grid_tally, grid_width, in_grid, in_rect, lemma_grid_tally_update, put, same_shape,
    well_formed,
};
use crate::player::{after_move, closed, empty, is_down, is_left, is_right, is_up, player, stepped};
use crate::scan::{comes_before, first_position, is_first_of, lemma_first_position};

verus! {

/// `(r, c)` is a node of a fresh grid: odd row and odd column.
pub open spec fn is_node_at(r: int, c: int) -> bool {
    r % 2 == 1 && c % 2 == 1
}

/// `(r, c)` is a node of the fresh grid of `w` by `h` nodes.
pub open spec fn node_of(w: int, h: int, r: int, c: int) -> bool {
    0 <= r < 2 * h + 1 && 0 <= c < 2 * w + 1 && is_node_at(r, c)
}

/// Every cell of `(y, x)`'s class that changed became a visited node.
pub open spec fn class_changes_visit(g0: Seq<Seq<Cell>>, g1: Seq<Seq<Cell>>, y: int, x: int) -> bool {
    forall|a: int, b: int|
        in_grid(g0, a, b) && same_class(a, b, y, x) && #[trigger] g1[a][b] != g0[a][b] ==> g1[a][b]
            == Cell::Node(NodeState::Visited)
}

/// Every node of the fresh grid `g0` that the search from `(y, x)` left
/// visited in `g1` has its neighbouring nodes visited too.
proof fn lemma_node_neighbour_visited(
    g0: Seq<Seq<Cell>>,
    g1: Seq<Seq<Cell>>,
    w: int,
    h: int,
    y: int,
    x: int,
    r: int,
    c: int,
    r2: int,
    c2: int,
)
    requires
        is_fresh_grid(g0, w, h),
        node_of(w, h, y, x),
        same_shape(g1, g0),
        class_changes_visit(g0, g1, y, x),
        visits_closed(g0, g1),
        node_of(w, h, r, c),
        g1[r][c] == Cell::Node(NodeState::Visited),
        node_of(w, h, r2, c2),
        (r2 == r && (c2 == c + 2 || c2 == c - 2)) || (c2 == c && (r2 == r + 2 || r2 == r - 2)),
    ensures
        g1[r2][c2] == Cell::Node(NodeState::Visited),
{
    assert(in_grid(g0, r, c));
    assert(g0[r][c] == fresh_cell(r, c));
    assert(settled(g1, r, c));
    assert(g1[0].len() == g0[0].len());
    assert(in_rect(g1, r2, c2));
    assert(not_open_node(g1, r2, c2));
    assert(in_grid(g0, r2, c2));
    assert(g0[r2][c2] == fresh_cell(r2, c2));
    assert(same_class(r2, c2, y, x));
    assert(!wall_class(r2, c2, y, x));
}

proof fn lemma_walk_row(
    g0: Seq<Seq<Cell>>,
    g1: Seq<Seq<Cell>>,
    w: int,
    h: int,
    y: int,
    x: int,
    r: int,
    c0: int,
    c: int,
)
    requires
        is_fresh_grid(g0, w, h),
        node_of(w, h, y, x),
        same_shape(g1, g0),
        class_changes_visit(g0, g1, y, x),
        visits_closed(g0, g1),
        node_of(w, h, r, c0),
        node_of(w, h, r, c),
        g1[r][c0] == Cell::Node(NodeState::Visited),
    ensures
        g1[r][c] == Cell::Node(NodeState::Visited),
    decreases if c >= c0 { c - c0 } else { c0 - c },
{
    if c > c0 {
        lemma_walk_row(g0, g1, w, h, y, x, r, c0, c - 2);
        lemma_node_neighbour_visited(g0, g1, w, h, y, x, r, c - 2, r, c);
    } else if c < c0 {
        lemma_walk_row(g0, g1, w, h, y, x, r, c0, c + 2);
        lemma_node_neighbour_visited(g0, g1, w, h, y, x, r, c + 2, r, c);
    }
}

proof fn lemma_walk_column(
    g0: Seq<Seq<Cell>>,
    g1: Seq<Seq<Cell>>,
    w: int,
    h: int,
    y: int,
    x: int,
    r0: int,
    r: int,
    c: int,
)
    requires
        is_fresh_grid(g0, w, h),
        node_of(w, h, y, x),
        same_shape(g1, g0),
        class_changes_visit(g0, g1, y, x),
        visits_closed(g0, g1),
        node_of(w, h, r0, c),
        node_of(w, h, r, c),
        g1[r0][c] == Cell::Node(NodeState::Visited),
    ensures
        g1[r][c] == Cell::Node(NodeState::Visited),
    decreases if r >= r0 { r - r0 } else { r0 - r },
{
    if r > r0 {
        lemma_walk_column(g0, g1, w, h, y, x, r0, r - 2, c);
        lemma_node_neighbour_visited(g0, g1, w, h, y, x, r - 2, c, r, c);
    } else if r < r0 {
        lemma_walk_column(g0, g1, w, h, y, x, r0, r + 2, c);
        lemma_node_neighbour_visited(g0, g1, w, h, y, x, r + 2, c, r, c);
    }
}

/// Carving a fresh grid from one of its nodes visits every node, and leaves
/// a walk through open walls from the start to each of them.
pub proof fn lemma_carving_spans_fresh_grid(
    g0: Seq<Seq<Cell>>,
    g1: Seq<Seq<Cell>>,
    w: int,
    h: int,
    y: int,
    x: int,
)
    requires
        is_fresh_grid(g0, w, h),
        node_of(w, h, y, x),
        carved(g0, g1, y, x),
    ensures
        forall|r: int, c: int|
            node_of(w, h, r, c) ==> #[trigger] g1[r][c] == Cell::Node(NodeState::Visited) && linked(
                g1,
                (y, x),
                (r, c),
            ),
{
    assert(in_grid(g0, y, x));
    assert(g0[y][x] == fresh_cell(y, x));
    assert(g1[y][x] == Cell::Node(NodeState::Visited));
    assert(class_changes_visit(g0, g1, y, x)) by {
        assert forall|a: int, b: int|
            in_grid(g0, a, b) && same_class(a, b, y, x) && #[trigger] g1[a][b] != g0[a][b] implies g1[a][b]
                == Cell::Node(NodeState::Visited) by {
            assert(!wall_class(a, b, y, x));
        }
    }
    assert forall|r: int, c: int| node_of(w, h, r, c) implies #[trigger] g1[r][c] == Cell::Node(
        NodeState::Visited,
    ) && linked(g1, (y, x), (r, c)) by {
        lemma_walk_row(g0, g1, w, h, y, x, y, x, c);
        lemma_walk_column(g0, g1, w, h, y, x, y, r, c);
        assert(in_grid(g0, r, c));
        assert(g0[r][c] == fresh_cell(r, c));
    }
}

/// A walk through open walls can be taken backwards.
pub proof fn lemma_linked_reverse(g: Seq<Seq<Cell>>, a: (int, int), b: (int, int))
    requires
        linked(g, a, b),
    ensures
        linked(g, b, a),
{
    let p = choose|p: Seq<(int, int)>| passage(g, p) && p[0] == a && p.last() == b;
    let q = p.reverse();
    let n = p.len();
    assert forall|k: int| 0 <= k < q.len() implies in_grid(g, #[trigger] q[k].0, q[k].1) by {
        assert(q[k] == p[n - 1 - k]);
    }
    assert forall|k: int| 0 <= k < q.len() - 1 implies #[trigger] open_step(g, q[k], q[k + 1]) by {
        let j = n - 2 - k;
        assert(q[k] == p[j + 1]);
        assert(q[k + 1] == p[j]);
        assert(open_step(g, p[j], p[j + 1]));
        assert((p[j].0 + p[j + 1].0) / 2 == (p[j + 1].0 + p[j].0) / 2);
    }
    assert(passage(g, q) && q[0] == b && q.last() == a);
}

/// Walks through open walls join end to end.
pub proof fn lemma_linked_trans(g: Seq<Seq<Cell>>, a: (int, int), b: (int, int), c: (int, int))
    requires
        linked(g, a, b),
        linked(g, b, c),
    ensures
        linked(g, a, c),
{
    let p = choose|p: Seq<(int, int)>| passage(g, p) && p[0] == a && p.last() == b;
    let q = choose|q: Seq<(int, int)>| passage(g, q) && q[0] == b && q.last() == c;
    let r = p + q.drop_first();
    let n = p.len();
    assert forall|k: int| 0 <= k < r.len() implies in_grid(g, #[trigger] r[k].0, r[k].1) by {
        if k >= n {
            assert(r[k] == q[k - n + 1]);
        }
    }
    assert forall|k: int| 0 <= k < r.len() - 1 implies #[trigger] open_step(g, r[k], r[k + 1]) by {
        if k < n - 1 {
            assert(open_step(g, p[k], p[k + 1]));
        } else {
            let j = k - n + 1;
            assert(r[k] == q[j]);
            assert(r[k + 1] == q[j + 1]);
            assert(open_step(g, q[j], q[j + 1]));
        }
    }
    if q.len() == 1 {
        assert(r =~= p);
    } else {
        assert(r.last() == q.last());
    }
    assert(passage(g, r) && r[0] == a && r.last() == c);
}

/// `(y, x)` holds the only player of the scanned rectangle.
pub open spec fn sole_player(g: Seq<Seq<Cell>>, y: int, x: int) -> bool {
    &&& in_rect(g, y, x)
    &&& g[y][x] == player()
    &&& forall|a: int, b: int| in_rect(g, a, b) && !(a == y && b == x) ==> #[trigger] g[a][b] != player()
}

/// The arrow key for the opposite direction of a move key.
pub open spec fn reverse_key(k: KeyInput) -> KeyInput {
    if is_up(k) {
        KeyInput::Down
    } else if is_down(k) {
        KeyInput::Up
    } else if is_left(k) {
        KeyInput::Right
    } else {
        KeyInput::Left
    }
}

proof fn lemma_sole_first(g: Seq<Seq<Cell>>, y: int, x: int)
    requires
        sole_player(g, y, x),
    ensures
        first_position(g, player()) == Some((y, x)),
{
    assert(is_first_of(g, player(), y, x));
    lemma_first_position(g, player(), (y, x));
}

/// A move leaves the only player at its target.
proof fn lemma_step_keeps_sole(g: Seq<Seq<Cell>>, y: int, x: int, ny: int, nx: int)
    requires
        well_formed(g),
        sole_player(g, y, x),
        in_rect(g, ny, nx),
        !(ny == y && nx == x),
    ensures
        sole_player(stepped(g, y, x, ny, nx), ny, nx),
        well_formed(stepped(g, y, x, ny, nx)),
        grid_width(stepped(g, y, x, ny, nx)) == grid_width(g),
{
    let g2 = stepped(g, y, x, ny, nx);
    assert(g[ny].len() >= g[0].len());
    assert(g[y].len() >= g[0].len());
    assert(g2[0].len() == g[0].len());
    assert forall|r: int| 0 <= r < g2.len() implies #[trigger] g2[r].len() >= g2[0].len() by {
        assert(g[r].len() >= g[0].len());
    }
    assert forall|a: int, b: int| in_rect(g2, a, b) && !(a == ny && b == nx) implies #[trigger] g2[a][b]
        != player() by {
        assert(g[a].len() >= g[0].len());
        if !(a == y && b == x) {
            assert(g2[a][b] == g[a][b]);
        }
    }
}

/// In a maze with a single player, every move is undone by the move in the
/// opposite direction, except a move down from the top row: a move up must
/// end below row 0.
pub proof fn lemma_move_undone(g: Seq<Seq<Cell>>, k: KeyInput, y: int, x: int)
    requires
        well_formed(g),
        sole_player(g, y, x),
        after_move(g, k).1 == MoveResult::Move,
        !(is_down(k) && y == 0),
    ensures
        after_move(after_move(g, k).0, reverse_key(k)) == (g, MoveResult::Move),
{
    lemma_sole_first(g, y, x);
    let g2 = after_move(g, k).0;
    assert(g[y].len() >= g[0].len());
    let (ny, nx) = if is_up(k) {
        (y - 2, x)
    } else if is_down(k) {
        (y + 2, x)
    } else if is_left(k) {
        (y, x - 2)
    } else {
        (y, x + 2)
    };
    assert(g2 == stepped(g, y, x, ny, nx));
    assert(g[ny].len() >= g[0].len());
    lemma_step_keeps_sole(g, y, x, ny, nx);
    lemma_sole_first(g2, ny, nx);
    let mid = ((y + ny) / 2, (x + nx) / 2);
    assert(g[mid.0].len() >= g[0].len());
    assert(g2[mid.0][mid.1] == g[mid.0][mid.1]);
    assert(g2[y][x] == empty());
    let back = stepped(g2, ny, nx, y, x);
    assert forall|r: int| 0 <= r < back.len() implies #[trigger] back[r] == g[r] by {
        assert(back[r] =~= g[r]);
    }
    assert(back =~= g);
}

/// The player at `(y, x)` stepping to `(ny, nx)`, an empty node, leaves the
/// number of players as it was.
proof fn lemma_step_keeps_count(g: Seq<Seq<Cell>>, y: int, x: int, ny: int, nx: int)
    requires
        in_grid(g, y, x),
        in_grid(g, ny, nx),
        g[y][x] == player(),
        g[ny][nx] == empty(),
    ensures
        grid_tally(stepped(g, y, x, ny, nx), player()) == grid_tally(g, player()),
{
    let g1 = put(g, y, x, empty());
    lemma_grid_tally_update(g, y, x, empty(), player());
    assert(in_grid(g1, ny, nx));
    assert(g1[ny][nx] == empty());
    lemma_grid_tally_update(g1, ny, nx, player(), player());
    assert(cell_flag(player(), player()) == 1);
    assert(cell_flag(empty(), player()) == 0);
}

/// A key press that does not restart the game keeps the number of players:
/// a move takes the player off one cell and puts it on another.
pub proof fn lemma_move_keeps_players(g: Seq<Seq<Cell>>, k: KeyInput)
    requires
        well_formed(g),
        after_move(g, k).1 != MoveResult::Restart,
    ensures
        grid_tally(after_move(g, k).0, player()) == grid_tally(g, player()),
{
    if exists|p: (int, int)| is_first_of(g, player(), p.0, p.1) {
        let p = choose|p: (int, int)| is_first_of(g, player(), p.0, p.1);
        assert(first_position(g, player()) == Some(p));
        let (y, x) = p;
        assert(g[y].len() >= g[0].len());
        let h = g.len() as int;
        let w = grid_width(g);
        if is_up(k) {
            if y - 2 > 0 && g[y - 2][x] == empty() && g[y - 1][x] != closed() {
                assert(g[y - 2].len() >= g[0].len());
                lemma_step_keeps_count(g, y, x, y - 2, x);
            }
        } else if is_down(k) {
            if y + 2 <= h - 1 && g[y + 2][x] == empty() && g[y + 1][x] != closed() {
                assert(g[y + 2].len() >= g[0].len());
                lemma_step_keeps_count(g, y, x, y + 2, x);
            }
        } else if is_left(k) {
            if x >= 2 && g[y][x - 2] == empty() && g[y][x - 1] != closed() {
                lemma_step_keeps_count(g, y, x, y, x - 2);
            }
        } else if is_right(k) {
            if x + 2 < w && g[y][x + 2] == empty() && g[y][x + 1] != closed() {
                lemma_step_keeps_count(g, y, x, y, x + 2);
            }
        }
    }
}

} // verus!
