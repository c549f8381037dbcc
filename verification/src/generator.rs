//! Carving the maze: a randomized depth-first search from one node.
use vstd::prelude::*;
use crate::cell::{Cell, NodeState, WallState};
use crate::grid::{
    empty_flag, grid, grid_empties, grid_width, in_grid, in_rect, is_empty_node, lemma_grid_update,
    lemma_grid_tally_update, open_walls, row_empties, put, same_shape, set_cell, two_apart, well_formed,
};
use crate::random::shuffle_in_place;
use crate::picker::lemma_take_step;

verus! {

/// The cell two steps from `(y, x)` in direction `d`: up, down, left, right.
pub open spec fn step(y: int, x: int, d: int) -> (int, int) {
    if d == 0 {
        (y - 2, x)
    } else if d == 1 {
        (y + 2, x)
    } else if d == 2 {
        (y, x - 2)
    } else {
        (y, x + 2)
    }
}

/// The neighbour of `(y, x)` in direction `d`, where it lies in the
/// `height` by `width` rectangle.
pub fn neighbor(y: usize, x: usize, d: u8, height: usize, width: usize) -> (r: Option<
    (usize, usize),
>)
    requires
        d < 4,
    ensures
        r matches Some(p) ==> (p.0 as int, p.1 as int) == step(y as int, x as int, d as int)
            && p.0 < height && p.1 < width,
        r is None ==> !(0 <= step(y as int, x as int, d as int).0 < height && 0 <= step(
            y as int,
            x as int,
            d as int,
        ).1 < width),
{
    if d == 0 {
        if y >= 2 && y - 2 < height && x < width {
            Some((y - 2, x))
        } else {
            None
        }
    } else if d == 1 {
        if height >= 2 && y < height - 2 && x < width {
            Some((y + 2, x))
        } else {
            None
        }
    } else if d == 2 {
        if x >= 2 && x - 2 < width && y < height {
            Some((y, x - 2))
        } else {
            None
        }
    } else {
        if width >= 2 && x < width - 2 && y < height {
            Some((y, x + 2))
        } else {
            None
        }
    }
}

/// The cell halfway between `a` and `b`, which lie two apart or coincide.
pub fn midpoint(a: usize, b: usize) -> (m: usize)
    requires
        a == b || a + 2 == b || b + 2 == a,
    ensures
        m == (a + b) / 2,
{
    if a == b {
        a
    } else if a < b {
        a + 1
    } else {
        a - 1
    }
}

/// The cell at `(a, b)` is outside the scanned rectangle or not an empty node.
pub open spec fn not_open_node(g: Seq<Seq<Cell>>, a: int, b: int) -> bool {
    in_rect(g, a, b) ==> !is_empty_node(g[a][b])
}

/// The neighbour of `(y, x)` in direction `d` is no empty node.
pub open spec fn dir_settled(g: Seq<Seq<Cell>>, y: int, x: int, d: int) -> bool {
    not_open_node(g, step(y, x, d).0, step(y, x, d).1)
}

/// No neighbour of `(y, x)` is an empty node: the search has nothing left
/// to carve from there.
pub open spec fn settled(g: Seq<Seq<Cell>>, y: int, x: int) -> bool {
    &&& not_open_node(g, y - 2, x)
    &&& not_open_node(g, y + 2, x)
    &&& not_open_node(g, y, x - 2)
    &&& not_open_node(g, y, x + 2)
}

/// Both coordinates have the parity of `(y, x)`'s.
pub open spec fn same_class(a: int, b: int, y: int, x: int) -> bool {
    (a - y) % 2 == 0 && (b - x) % 2 == 0
}

/// Exactly one coordinate has the parity of `(y, x)`'s.
pub open spec fn wall_class(a: int, b: int, y: int, x: int) -> bool {
    ((a - y) % 2 == 0) != ((b - x) % 2 == 0)
}

/// What the start cell holds once the search has begun there.
pub open spec fn entered(c: Cell) -> Cell {
    if c == Cell::Node(NodeState::StartPoint) || c == Cell::Node(NodeState::EndPoint) {
        c
    } else {
        Cell::Node(NodeState::Visited)
    }
}

/// The two cells on either side of the wall cell `(a, b)`, for walls between
/// cells of `(y, x)`'s class: in its row where its row has `y`'s parity,
/// else in its column.
pub open spec fn cross_cells(a: int, b: int, y: int, x: int) -> ((int, int), (int, int)) {
    if (a - y) % 2 == 0 {
        ((a, b - 1), (a, b + 1))
    } else {
        ((a - 1, b), (a + 1, b))
    }
}

/// Both cells on either side of the wall cell `(a, b)` lie in the grid.
pub open spec fn between_cells(g: Seq<Seq<Cell>>, a: int, b: int, y: int, x: int) -> bool {
    &&& in_grid(g, cross_cells(a, b, y, x).0.0, cross_cells(a, b, y, x).0.1)
    &&& in_grid(g, cross_cells(a, b, y, x).1.0, cross_cells(a, b, y, x).1.1)
}

/// Every changed cell became a visited node of `(y, x)`'s class, or an open
/// wall between two such cells of the grid.
pub open spec fn changes_ok(g0: Seq<Seq<Cell>>, g1: Seq<Seq<Cell>>, y: int, x: int) -> bool {
    forall|a: int, b: int|
        in_grid(g0, a, b) && #[trigger] g1[a][b] != g0[a][b] ==> (same_class(a, b, y, x) && g1[a][b]
            == Cell::Node(NodeState::Visited)) || (wall_class(a, b, y, x) && g1[a][b] == Cell::Wall(
            WallState::Open,
        ) && between_cells(g0, a, b, y, x))
}

/// No cell became an empty node.
pub open spec fn no_new_empty(g0: Seq<Seq<Cell>>, g1: Seq<Seq<Cell>>) -> bool {
    forall|a: int, b: int|
        in_grid(g0, a, b) && is_empty_node(#[trigger] g1[a][b]) ==> is_empty_node(g0[a][b])
}

/// A cell became visited only where the search started or on an empty node.
pub open spec fn visits_ok(g0: Seq<Seq<Cell>>, g1: Seq<Seq<Cell>>, y: int, x: int) -> bool {
    forall|a: int, b: int|
        in_grid(g0, a, b) && #[trigger] g1[a][b] == Cell::Node(NodeState::Visited) && g0[a][b]
            != Cell::Node(NodeState::Visited) ==> (a == y && b == x) || is_empty_node(g0[a][b])
}

/// Every empty node that the search visited has no empty neighbour left.
pub open spec fn visits_closed(g0: Seq<Seq<Cell>>, g1: Seq<Seq<Cell>>) -> bool {
    forall|a: int, b: int|
        in_grid(g0, a, b) && is_empty_node(g0[a][b]) && #[trigger] g1[a][b] == Cell::Node(
            NodeState::Visited,
        ) ==> settled(g1, a, b)
}

/// Every empty node that the search visited, but its start, has no empty
/// neighbour left.
pub open spec fn visits_closed_but(g0: Seq<Seq<Cell>>, g1: Seq<Seq<Cell>>, y: int, x: int) -> bool {
    forall|a: int, b: int|
        in_grid(g0, a, b) && !(a == y && b == x) && is_empty_node(g0[a][b]) && #[trigger] g1[a][b]
            == Cell::Node(NodeState::Visited) ==> settled(g1, a, b)
}

/// A step from `a` to `b`, two cells apart, through an open wall.
pub open spec fn open_step(g: Seq<Seq<Cell>>, a: (int, int), b: (int, int)) -> bool {
    &&& two_apart(a, b)
    &&& in_grid(g, (a.0 + b.0) / 2, (a.1 + b.1) / 2)
    &&& g[(a.0 + b.0) / 2][(a.1 + b.1) / 2] == Cell::Wall(WallState::Open)
}

/// `p` is a walk inside the grid through open walls.
pub open spec fn passage(g: Seq<Seq<Cell>>, p: Seq<(int, int)>) -> bool {
    &&& p.len() >= 1
    &&& forall|i: int| 0 <= i < p.len() ==> in_grid(g, #[trigger] p[i].0, p[i].1)
    &&& forall|i: int| 0 <= i < p.len() - 1 ==> #[trigger] open_step(g, p[i], p[i + 1])
}

/// A walk through open walls leads from `a` to `b`.
pub open spec fn linked(g: Seq<Seq<Cell>>, a: (int, int), b: (int, int)) -> bool {
    exists|p: Seq<(int, int)>| passage(g, p) && p[0] == a && p.last() == b
}

/// Every open wall of `ga` is still open in `gb`.
pub open spec fn opens_kept(ga: Seq<Seq<Cell>>, gb: Seq<Seq<Cell>>) -> bool {
    forall|a: int, b: int|
        in_grid(ga, a, b) && ga[a][b] == Cell::Wall(WallState::Open) ==> #[trigger] gb[a][b]
            == Cell::Wall(WallState::Open)
}

/// A walk through open walls leads from `(y, x)` to every empty node that
/// the search visited.
pub open spec fn visits_linked(g0: Seq<Seq<Cell>>, g1: Seq<Seq<Cell>>, y: int, x: int) -> bool {
    forall|a: int, b: int|
        in_grid(g0, a, b) && is_empty_node(g0[a][b]) && #[trigger] g1[a][b] == Cell::Node(
            NodeState::Visited,
        ) ==> linked(g1, (y, x), (a, b))
}

pub proof fn lemma_passage_persists(ga: Seq<Seq<Cell>>, gb: Seq<Seq<Cell>>, p: Seq<(int, int)>)
    requires
        same_shape(gb, ga),
        opens_kept(ga, gb),
        passage(ga, p),
    ensures
        passage(gb, p),
{
    assert forall|i: int| 0 <= i < p.len() - 1 implies #[trigger] open_step(gb, p[i], p[i + 1]) by {
        assert(open_step(ga, p[i], p[i + 1]));
    }
}

pub proof fn lemma_linked_persists(ga: Seq<Seq<Cell>>, gb: Seq<Seq<Cell>>, a: (int, int), b: (int, int))
    requires
        same_shape(gb, ga),
        opens_kept(ga, gb),
        linked(ga, a, b),
    ensures
        linked(gb, a, b),
{
    let p = choose|p: Seq<(int, int)>| passage(ga, p) && p[0] == a && p.last() == b;
    lemma_passage_persists(ga, gb, p);
}

pub proof fn lemma_linked_prepend(g: Seq<Seq<Cell>>, a: (int, int), n: (int, int), c: (int, int))
    requires
        in_grid(g, a.0, a.1),
        open_step(g, a, n),
        linked(g, n, c),
    ensures
        linked(g, a, c),
{
    let q = choose|q: Seq<(int, int)>| passage(g, q) && q[0] == n && q.last() == c;
    let p = seq![a] + q;
    assert(p.last() == q.last());
    assert forall|k: int| 0 <= k < p.len() implies in_grid(g, #[trigger] p[k].0, p[k].1) by {
        if k > 0 {
            assert(p[k] == q[k - 1]);
        }
    }
    assert forall|k: int| 0 <= k < p.len() - 1 implies #[trigger] open_step(g, p[k], p[k + 1]) by {
        if k > 0 {
            assert(p[k] == q[k - 1]);
            assert(p[k + 1] == q[k]);
            let j = k - 1;
            assert(open_step(g, q[j], q[j + 1]));
        } else {
            assert(p[1] == q[0]);
        }
    }
    assert(passage(g, p));
}

/// The search keeps open walls open, but for its start cell.
pub proof fn lemma_opens_kept(ga: Seq<Seq<Cell>>, gb: Seq<Seq<Cell>>, y: int, x: int)
    requires
        changes_ok(ga, gb, y, x),
        visits_ok(ga, gb, y, x),
        in_grid(ga, y, x),
        ga[y][x] != Cell::Wall(WallState::Open),
    ensures
        opens_kept(ga, gb),
{
    assert forall|a: int, b: int|
        in_grid(ga, a, b) && ga[a][b] == Cell::Wall(WallState::Open) implies #[trigger] gb[a][b]
            == Cell::Wall(WallState::Open) by {
        if gb[a][b] != ga[a][b] {
            if gb[a][b] == Cell::Node(NodeState::Visited) {
                assert((a == y && b == x) || is_empty_node(ga[a][b]));
            }
        }
    }
}

/// The walks of one call, carried over the wall it opened towards `(ny, nx)`
/// (taking `gi` to `gw`) and the nested search from there (to `g2`).
proof fn lemma_compose_links(
    g0: Seq<Seq<Cell>>,
    gi: Seq<Seq<Cell>>,
    gw: Seq<Seq<Cell>>,
    g2: Seq<Seq<Cell>>,
    y: int,
    x: int,
    wy: int,
    wx: int,
    ny: int,
    nx: int,
)
    requires
        well_formed(g0),
        same_shape(gi, g0),
        in_grid(g0, y, x),
        visits_linked(g0, gi, y, x),
        no_new_empty(g0, gi),
        in_grid(gi, wy, wx),
        gw == put(gi, wy, wx, Cell::Wall(WallState::Open)),
        two_apart((y, x), (ny, nx)),
        wy == (y + ny) / 2,
        wx == (x + nx) / 2,
        in_grid(gw, ny, nx),
        is_empty_node(gw[ny][nx]),
        carved(gw, g2, ny, nx),
    ensures
        visits_linked(g0, g2, y, x),
{
    assert(opens_kept(gi, gw));
    lemma_opens_kept(gw, g2, ny, nx);
    assert(open_step(g2, (y, x), (ny, nx)));
    assert forall|a: int, b: int|
        in_grid(g0, a, b) && is_empty_node(g0[a][b]) && #[trigger] g2[a][b] == Cell::Node(
            NodeState::Visited,
        ) implies linked(g2, (y, x), (a, b)) by {
        assert(in_grid(gw, a, b));
        if gw[a][b] == Cell::Node(NodeState::Visited) {
            assert(gi[a][b] == Cell::Node(NodeState::Visited));
            assert(linked(gi, (y, x), (a, b)));
            lemma_linked_persists(gi, gw, (y, x), (a, b));
            lemma_linked_persists(gw, g2, (y, x), (a, b));
        } else {
            assert((a == ny && b == nx) || is_empty_node(gw[a][b]));
            assert(linked(g2, (ny, nx), (a, b)));
            lemma_linked_prepend(g2, (y, x), (ny, nx), (a, b));
        }
    }
}

/// The cell `c` is no empty node, unless it is `(y, x)`.
pub open spec fn settled_or(g: Seq<Seq<Cell>>, c: (int, int), y: int, x: int) -> bool {
    in_grid(g, c.0, c.1) && is_empty_node(g[c.0][c.1]) ==> c == (y, x)
}

/// The wall cell `(a, b)` is no empty node, and where it is open no empty
/// node but `(y, x)` lies on either side of it.
pub open spec fn wall_ready(g: Seq<Seq<Cell>>, a: int, b: int, y: int, x: int) -> bool {
    &&& !is_empty_node(g[a][b])
    &&& g[a][b] == Cell::Wall(WallState::Open) ==> settled_or(g, cross_cells(a, b, y, x).0, y, x)
        && settled_or(g, cross_cells(a, b, y, x).1, y, x)
}

/// Every wall cell between cells of `(y, x)`'s class is ready: no search has
/// yet opened a wall towards an empty node, but for `(y, x)`.
#[verifier::opaque]
pub open spec fn walls_ready(g: Seq<Seq<Cell>>, y: int, x: int) -> bool {
    forall|a: int, b: int| in_grid(g, a, b) && wall_class(a, b, y, x) ==> #[trigger] wall_ready(g, a, b, y, x)
}

/// A search can start from `(y, x)` with its count exact.
pub open spec fn count_ready(g: Seq<Seq<Cell>>, y: int, x: int) -> bool {
    g[y][x] != Cell::Wall(WallState::Open) && walls_ready(g, y, x)
}

/// Cells of one class share their classes of walls and their cross cells.
proof fn lemma_class_shift(y: int, x: int, ny: int, nx: int, a: int, b: int)
    requires
        two_apart((y, x), (ny, nx)),
    ensures
        wall_class(a, b, ny, nx) == wall_class(a, b, y, x),
        same_class(a, b, ny, nx) == same_class(a, b, y, x),
        cross_cells(a, b, ny, nx) == cross_cells(a, b, y, x),
{
}

/// Marking `(y, x)` as the search enters it keeps the walls ready, and the
/// count changes by the empty node it took.
proof fn lemma_ready_entry(g0: Seq<Seq<Cell>>, ge: Seq<Seq<Cell>>, y: int, x: int)
    requires
        in_grid(g0, y, x),
        count_ready(g0, y, x),
        ge == g0 || ge == put(g0, y, x, Cell::Node(NodeState::Visited)),
        ge == g0 ==> !is_empty_node(g0[y][x]),
    ensures
        walls_ready(ge, y, x),
        open_walls(ge) + grid_empties(ge) + empty_flag(g0[y][x]) == open_walls(g0) + grid_empties(g0),
{
    reveal(walls_ready);
    assert forall|a: int, b: int| in_grid(ge, a, b) && wall_class(a, b, y, x) implies #[trigger] wall_ready(
        ge,
        a,
        b,
        y,
        x,
    ) by {
        assert(wall_ready(g0, a, b, y, x));
        let (p, q) = cross_cells(a, b, y, x);
        if in_grid(ge, p.0, p.1) && is_empty_node(ge[p.0][p.1]) {
            assert(is_empty_node(g0[p.0][p.1]));
        }
        if in_grid(ge, q.0, q.1) && is_empty_node(ge[q.0][q.1]) {
            assert(is_empty_node(g0[q.0][q.1]));
        }
    }
    if ge != g0 {
        lemma_grid_update(g0, y, x, Cell::Node(NodeState::Visited));
        lemma_grid_tally_update(g0, y, x, Cell::Node(NodeState::Visited), Cell::Wall(WallState::Open));
    }
}

/// Opening the wall from `(y, x)` towards the empty node `(ny, nx)`: the wall
/// was neither open nor an empty node, the count grows by one, and the
/// search from `(ny, nx)` starts ready.
proof fn lemma_ready_open(
    gi: Seq<Seq<Cell>>,
    gw: Seq<Seq<Cell>>,
    y: int,
    x: int,
    wy: int,
    wx: int,
    ny: int,
    nx: int,
)
    requires
        walls_ready(gi, y, x),
        in_grid(gi, y, x),
        !is_empty_node(gi[y][x]),
        two_apart((y, x), (ny, nx)),
        wy == (y + ny) / 2,
        wx == (x + nx) / 2,
        in_grid(gi, wy, wx),
        in_grid(gi, ny, nx),
        is_empty_node(gi[ny][nx]),
        gw == put(gi, wy, wx, Cell::Wall(WallState::Open)),
    ensures
        open_walls(gw) + grid_empties(gw) == open_walls(gi) + grid_empties(gi) + 1,
        count_ready(gw, ny, nx),
{
    reveal(walls_ready);
    assert(wall_class(wy, wx, y, x));
    assert(wall_ready(gi, wy, wx, y, x));
    let cc = cross_cells(wy, wx, y, x);
    assert((cc.0 == (y, x) && cc.1 == (ny, nx)) || (cc.1 == (y, x) && cc.0 == (ny, nx)));
    assert(gi[wy][wx] != Cell::Wall(WallState::Open));
    lemma_grid_update(gi, wy, wx, Cell::Wall(WallState::Open));
    lemma_grid_tally_update(gi, wy, wx, Cell::Wall(WallState::Open), Cell::Wall(WallState::Open));
    assert forall|a: int, b: int| in_grid(gw, a, b) && wall_class(a, b, ny, nx) implies #[trigger] wall_ready(
        gw,
        a,
        b,
        ny,
        nx,
    ) by {
        lemma_class_shift(y, x, ny, nx, a, b);
        if !(a == wy && b == wx) {
            assert(wall_ready(gi, a, b, y, x));
            let (p, q) = cross_cells(a, b, y, x);
            if in_grid(gw, p.0, p.1) && is_empty_node(gw[p.0][p.1]) {
                assert(is_empty_node(gi[p.0][p.1]));
            }
            if in_grid(gw, q.0, q.1) && is_empty_node(gw[q.0][q.1]) {
                assert(is_empty_node(gi[q.0][q.1]));
            }
        }
    }
}

/// Once the search from `(ny, nx)` has marked it, the walls are ready for
/// `(y, x)` of the same class as well.
proof fn lemma_ready_back(g: Seq<Seq<Cell>>, y: int, x: int, ny: int, nx: int)
    requires
        walls_ready(g, ny, nx),
        two_apart((y, x), (ny, nx)),
        in_grid(g, ny, nx),
        !is_empty_node(g[ny][nx]),
    ensures
        walls_ready(g, y, x),
{
    reveal(walls_ready);
    assert forall|a: int, b: int| in_grid(g, a, b) && wall_class(a, b, y, x) implies #[trigger] wall_ready(
        g,
        a,
        b,
        y,
        x,
    ) by {
        lemma_class_shift(y, x, ny, nx, a, b);
        assert(wall_ready(g, a, b, ny, nx));
    }
}

/// The search from `(y, x)` took the cell `n`: its start, or an empty node
/// it visited.
pub open spec fn took(g0: Seq<Seq<Cell>>, g1: Seq<Seq<Cell>>, y: int, x: int, n: (int, int)) -> bool {
    &&& in_grid(g0, n.0, n.1)
    &&& n == (y, x) || (is_empty_node(g0[n.0][n.1]) && g1[n.0][n.1] == Cell::Node(NodeState::Visited))
}

/// The search opened the wall cell `w`.
pub open spec fn opened(g0: Seq<Seq<Cell>>, g1: Seq<Seq<Cell>>, w: (int, int)) -> bool {
    &&& in_grid(g0, w.0, w.1)
    &&& g0[w.0][w.1] != Cell::Wall(WallState::Open)
    &&& g1[w.0][w.1] == Cell::Wall(WallState::Open)
}

/// The search opened `w` between `n` and a cell that comes before `n` in
/// the order `t`.
pub open spec fn opened_down(
    g0: Seq<Seq<Cell>>,
    g1: Seq<Seq<Cell>>,
    y: int,
    x: int,
    t: spec_fn((int, int)) -> int,
    w: (int, int),
    n: (int, int),
) -> bool {
    let (p, q) = cross_cells(w.0, w.1, y, x);
    &&& opened(g0, g1, w)
    &&& (p == n && t(q) < t(n)) || (q == n && t(p) < t(n))
}

/// The order `t` of the cells the search took is one of a tree grown from
/// `(y, x)`: the start comes first; every opened wall lies between two
/// taken cells in different places of the order; and each cell has at most
/// one opened wall to a cell before it.
pub open spec fn tree_order(
    g0: Seq<Seq<Cell>>,
    g1: Seq<Seq<Cell>>,
    y: int,
    x: int,
    t: spec_fn((int, int)) -> int,
) -> bool {
    &&& t((y, x)) == 0
    &&& forall|n: (int, int)| #[trigger] took(g0, g1, y, x, n) && n != (y, x) ==> t(n) > 0
    &&& forall|w: (int, int)|
        #[trigger] opened(g0, g1, w) ==> wall_class(w.0, w.1, y, x) && took(
            g0,
            g1,
            y,
            x,
            cross_cells(w.0, w.1, y, x).0,
        ) && took(g0, g1, y, x, cross_cells(w.0, w.1, y, x).1) && t(cross_cells(w.0, w.1, y, x).0) != t(
            cross_cells(w.0, w.1, y, x).1,
        )
    &&& forall|w1: (int, int), w2: (int, int), n: (int, int)|
        #[trigger] opened_down(g0, g1, y, x, t, w1, n) && #[trigger] opened_down(g0, g1, y, x, t, w2, n)
            ==> w1 == w2
}

/// Entering `(y, x)` takes only it and opens nothing.
proof fn lemma_order_entry(g0: Seq<Seq<Cell>>, ge: Seq<Seq<Cell>>, y: int, x: int)
    requires
        in_grid(g0, y, x),
        ge == g0 || ge == put(g0, y, x, Cell::Node(NodeState::Visited)),
    ensures
        tree_order(g0, ge, y, x, |n: (int, int)| 0int),
{
    let t = |n: (int, int)| 0int;
    assert forall|n: (int, int)| #[trigger] took(g0, ge, y, x, n) && n != (y, x) implies t(n) > 0 by {
        assert(ge[n.0][n.1] == g0[n.0][n.1]);
    }
    assert forall|w: (int, int)| #[trigger] opened(g0, ge, w) implies false by {
        assert(ge[w.0][w.1] == g0[w.0][w.1]);
    }
}

/// What one turn of the loop from `(y, x)` knows when the search from its
/// neighbour `(ny, nx)`, behind the wall `(wy, wx)` it opened, comes back.
pub open spec fn order_step(
    g0: Seq<Seq<Cell>>,
    gi: Seq<Seq<Cell>>,
    gw: Seq<Seq<Cell>>,
    g2: Seq<Seq<Cell>>,
    y: int,
    x: int,
    wy: int,
    wx: int,
    ny: int,
    nx: int,
) -> bool {
    &&& in_grid(g0, y, x)
    &&& same_shape(gi, g0)
    &&& changes_ok(g0, gi, y, x)
    &&& no_new_empty(g0, gi)
    &&& !is_empty_node(gi[y][x])
    &&& two_apart((y, x), (ny, nx))
    &&& wy == (y + ny) / 2
    &&& wx == (x + nx) / 2
    &&& in_grid(gi, wy, wx)
    &&& in_grid(gi, ny, nx)
    &&& is_empty_node(gi[ny][nx])
    &&& gw == put(gi, wy, wx, Cell::Wall(WallState::Open))
    &&& same_shape(g2, gw)
    &&& changes_ok(gw, g2, ny, nx)
    &&& no_new_empty(gw, g2)
    &&& g2[ny][nx] == Cell::Node(NodeState::Visited)
}

/// The order after the search from `(ny, nx)`: its cells after the others.
pub open spec fn joined_order(
    gw: Seq<Seq<Cell>>,
    g2: Seq<Seq<Cell>>,
    ny: int,
    nx: int,
    t: spec_fn((int, int)) -> int,
    ti: spec_fn((int, int)) -> int,
) -> spec_fn((int, int)) -> int {
    |n: (int, int)| if took(gw, g2, ny, nx, n) { ti(n) + 1 } else { t(n) }
}

/// Which search took a cell: the one before the wall, or the nested one,
/// never both; and what the nested one took stays taken.
proof fn lemma_took_parts(
    g0: Seq<Seq<Cell>>,
    gi: Seq<Seq<Cell>>,
    gw: Seq<Seq<Cell>>,
    g2: Seq<Seq<Cell>>,
    y: int,
    x: int,
    wy: int,
    wx: int,
    ny: int,
    nx: int,
    n: (int, int),
)
    requires
        order_step(g0, gi, gw, g2, y, x, wy, wx, ny, nx),
        same_class(n.0, n.1, y, x),
    ensures
        took(g0, gi, y, x, n) ==> !took(gw, g2, ny, nx, n) && took(g0, g2, y, x, n),
        took(gw, g2, ny, nx, n) ==> took(g0, g2, y, x, n),
        took(g0, g2, y, x, n) ==> took(g0, gi, y, x, n) || took(gw, g2, ny, nx, n),
{
    lemma_class_shift(y, x, ny, nx, n.0, n.1);
    assert(!wall_class(n.0, n.1, ny, nx));
    if in_grid(g0, n.0, n.1) {
        assert(!(n.0 == wy && n.1 == wx));
        assert(gw[n.0][n.1] == gi[n.0][n.1]);
        if g2[n.0][n.1] != gw[n.0][n.1] {
            assert(in_grid(gw, n.0, n.1));
            assert(g2[n.0][n.1] == Cell::Node(NodeState::Visited));
        }
        if gi[n.0][n.1] != g0[n.0][n.1] {
            assert(gi[n.0][n.1] == Cell::Node(NodeState::Visited));
        }
        if is_empty_node(gi[n.0][n.1]) {
            assert(is_empty_node(g0[n.0][n.1]));
        }
    }
}

/// An opened wall of the turn was opened before the wall `(wy, wx)`, is that
/// wall, or was opened by the nested search.
proof fn lemma_opened_parts(
    g0: Seq<Seq<Cell>>,
    gi: Seq<Seq<Cell>>,
    gw: Seq<Seq<Cell>>,
    g2: Seq<Seq<Cell>>,
    y: int,
    x: int,
    wy: int,
    wx: int,
    ny: int,
    nx: int,
    w: (int, int),
)
    requires
        order_step(g0, gi, gw, g2, y, x, wy, wx, ny, nx),
        opened(g0, g2, w),
    ensures
        opened(g0, gi, w) || w == (wy, wx) || opened(gw, g2, w),
{
    assert(in_grid(gi, w.0, w.1));
    if w != (wy, wx) {
        assert(gw[w.0][w.1] == gi[w.0][w.1]);
    }
}

/// The cells on either side of a wall of `(y, x)`'s class are of its class.
proof fn lemma_cross_class(a: int, b: int, y: int, x: int)
    requires
        wall_class(a, b, y, x),
    ensures
        same_class(cross_cells(a, b, y, x).0.0, cross_cells(a, b, y, x).0.1, y, x),
        same_class(cross_cells(a, b, y, x).1.0, cross_cells(a, b, y, x).1.1, y, x),
        cross_cells(a, b, y, x).0 != cross_cells(a, b, y, x).1,
{
}

/// A cell the turn took is of `(y, x)`'s class.
proof fn lemma_took_class(
    g0: Seq<Seq<Cell>>,
    gi: Seq<Seq<Cell>>,
    gw: Seq<Seq<Cell>>,
    g2: Seq<Seq<Cell>>,
    y: int,
    x: int,
    wy: int,
    wx: int,
    ny: int,
    nx: int,
    n: (int, int),
)
    requires
        order_step(g0, gi, gw, g2, y, x, wy, wx, ny, nx),
        took(g0, g2, y, x, n),
    ensures
        same_class(n.0, n.1, y, x),
{
    lemma_class_shift(y, x, ny, nx, n.0, n.1);
    if n != (y, x) {
        assert(in_grid(gi, n.0, n.1));
        if gi[n.0][n.1] == g0[n.0][n.1] || gi[n.0][n.1] == Cell::Wall(WallState::Open) {
            assert(in_grid(gw, n.0, n.1));
            assert(gw[n.0][n.1] == gi[n.0][n.1] || gw[n.0][n.1] == Cell::Wall(WallState::Open));
            assert(g2[n.0][n.1] != gw[n.0][n.1]);
        }
    }
}

/// What a wall opened in the turn joins, and in which part of the turn it
/// was opened.
proof fn lemma_opened_facts(
    g0: Seq<Seq<Cell>>,
    gi: Seq<Seq<Cell>>,
    gw: Seq<Seq<Cell>>,
    g2: Seq<Seq<Cell>>,
    y: int,
    x: int,
    wy: int,
    wx: int,
    ny: int,
    nx: int,
    t: spec_fn((int, int)) -> int,
    ti: spec_fn((int, int)) -> int,
    w: (int, int),
)
    requires
        order_step(g0, gi, gw, g2, y, x, wy, wx, ny, nx),
        tree_order(g0, gi, y, x, t),
        tree_order(gw, g2, ny, nx, ti),
        opened(g0, g2, w),
    ensures
        wall_class(w.0, w.1, y, x),
        took(g0, g2, y, x, cross_cells(w.0, w.1, y, x).0),
        took(g0, g2, y, x, cross_cells(w.0, w.1, y, x).1),
        cross_cells(w.0, w.1, ny, nx) == cross_cells(w.0, w.1, y, x),
        ({
            let (p, q) = cross_cells(w.0, w.1, y, x);
            ||| opened(g0, gi, w) && took(g0, gi, y, x, p) && took(g0, gi, y, x, q) && !took(gw, g2, ny, nx, p)
                && !took(gw, g2, ny, nx, q) && t(p) != t(q)
            ||| w == (wy, wx) && ((p == (y, x) && q == (ny, nx)) || (q == (y, x) && p == (ny, nx)))
            ||| opened(gw, g2, w) && took(gw, g2, ny, nx, p) && took(gw, g2, ny, nx, q) && ti(p) != ti(q)
        }),
{
    lemma_opened_parts(g0, gi, gw, g2, y, x, wy, wx, ny, nx, w);
    lemma_class_shift(y, x, ny, nx, w.0, w.1);
    let (p, q) = cross_cells(w.0, w.1, y, x);
    if opened(g0, gi, w) {
        lemma_cross_class(w.0, w.1, y, x);
        lemma_took_parts(g0, gi, gw, g2, y, x, wy, wx, ny, nx, p);
        lemma_took_parts(g0, gi, gw, g2, y, x, wy, wx, ny, nx, q);
    } else if w == (wy, wx) {
        assert(wall_class(wy, wx, y, x));
        assert((p == (y, x) && q == (ny, nx)) || (q == (y, x) && p == (ny, nx)));
        assert(is_empty_node(g0[ny][nx]));
        assert(took(g0, g2, y, x, (ny, nx)));
        assert(took(g0, g2, y, x, (y, x)));
    } else {
        assert(opened(gw, g2, w));
        lemma_cross_class(w.0, w.1, y, x);
        lemma_took_parts(g0, gi, gw, g2, y, x, wy, wx, ny, nx, p);
        lemma_took_parts(g0, gi, gw, g2, y, x, wy, wx, ny, nx, q);
    }
}

/// After the nested search, the joined order is still one of a tree grown
/// from `(y, x)`.
proof fn lemma_order_step(
    g0: Seq<Seq<Cell>>,
    gi: Seq<Seq<Cell>>,
    gw: Seq<Seq<Cell>>,
    g2: Seq<Seq<Cell>>,
    y: int,
    x: int,
    wy: int,
    wx: int,
    ny: int,
    nx: int,
    t: spec_fn((int, int)) -> int,
    ti: spec_fn((int, int)) -> int,
)
    requires
        order_step(g0, gi, gw, g2, y, x, wy, wx, ny, nx),
        tree_order(g0, gi, y, x, t),
        tree_order(gw, g2, ny, nx, ti),
    ensures
        tree_order(g0, g2, y, x, joined_order(gw, g2, ny, nx, t, ti)),
{
    let tn = joined_order(gw, g2, ny, nx, t, ti);
    let c = (ny, nx);
    assert(same_class(y, x, y, x));
    lemma_took_parts(g0, gi, gw, g2, y, x, wy, wx, ny, nx, (y, x));
    assert(took(g0, gi, y, x, (y, x)));
    assert(tn((y, x)) == 0);
    lemma_class_shift(y, x, ny, nx, ny, nx);
    assert(took(gw, g2, ny, nx, c));
    assert(tn(c) == 1);
    assert forall|n: (int, int)| #[trigger] took(g0, g2, y, x, n) && n != (y, x) implies tn(n) > 0 by {
        lemma_took_class(g0, gi, gw, g2, y, x, wy, wx, ny, nx, n);
        lemma_took_parts(g0, gi, gw, g2, y, x, wy, wx, ny, nx, n);
        if took(gw, g2, ny, nx, n) {
            if n != c {
                assert(ti(n) > 0);
            }
        } else {
            assert(took(g0, gi, y, x, n));
        }
    }
    assert forall|w: (int, int)| #[trigger] opened(g0, g2, w) implies wall_class(w.0, w.1, y, x) && took(
        g0,
        g2,
        y,
        x,
        cross_cells(w.0, w.1, y, x).0,
    ) && took(g0, g2, y, x, cross_cells(w.0, w.1, y, x).1) && tn(cross_cells(w.0, w.1, y, x).0) != tn(
        cross_cells(w.0, w.1, y, x).1,
    ) by {
        lemma_opened_facts(g0, gi, gw, g2, y, x, wy, wx, ny, nx, t, ti, w);
    }
    assert forall|w1: (int, int), w2: (int, int), n: (int, int)|
        #[trigger] opened_down(g0, g2, y, x, tn, w1, n) && #[trigger] opened_down(g0, g2, y, x, tn, w2, n)
            implies w1 == w2 by {
        lemma_opened_facts(g0, gi, gw, g2, y, x, wy, wx, ny, nx, t, ti, w1);
        lemma_opened_facts(g0, gi, gw, g2, y, x, wy, wx, ny, nx, t, ti, w2);
        lemma_took_class(g0, gi, gw, g2, y, x, wy, wx, ny, nx, n);
        lemma_took_parts(g0, gi, gw, g2, y, x, wy, wx, ny, nx, n);
        let (p1, q1) = cross_cells(w1.0, w1.1, y, x);
        let (p2, q2) = cross_cells(w2.0, w2.1, y, x);
        lemma_took_parts(g0, gi, gw, g2, y, x, wy, wx, ny, nx, p1);
        lemma_took_parts(g0, gi, gw, g2, y, x, wy, wx, ny, nx, q1);
        lemma_took_parts(g0, gi, gw, g2, y, x, wy, wx, ny, nx, p2);
        lemma_took_parts(g0, gi, gw, g2, y, x, wy, wx, ny, nx, q2);
        lemma_cross_class(w1.0, w1.1, y, x);
        lemma_cross_class(w2.0, w2.1, y, x);
        if took(gw, g2, ny, nx, n) {
            if opened(gw, g2, w1) && w1 != (wy, wx) {
                assert(opened_down(gw, g2, ny, nx, ti, w1, n));
            }
            if opened(gw, g2, w2) && w2 != (wy, wx) {
                assert(opened_down(gw, g2, ny, nx, ti, w2, n));
            }
        } else {
            assert(opened_down(g0, gi, y, x, t, w1, n));
            assert(opened_down(g0, gi, y, x, t, w2, n));
        }
    }
}

/// What holds of every maze that the search from `(y, x)` can leave behind,
/// whatever order the random generator picks. Among other things it opens
/// no more walls than the empty nodes it visits, its start aside.
pub open spec fn carved(g0: Seq<Seq<Cell>>, g1: Seq<Seq<Cell>>, y: int, x: int) -> bool {
    &&& same_shape(g1, g0)
    &&& g1[y][x] == entered(g0[y][x])
    &&& settled(g1, y, x)
    &&& changes_ok(g0, g1, y, x)
    &&& no_new_empty(g0, g1)
    &&& visits_ok(g0, g1, y, x)
    &&& visits_closed(g0, g1)
    &&& visits_linked(g0, g1, y, x)
    &&& grid_empties(g1) <= grid_empties(g0)
    &&& open_walls(g1) + grid_empties(g1) + empty_flag(g0[y][x]) <= open_walls(g0) + grid_empties(g0)
    &&& count_ready(g0, y, x) ==> walls_ready(g1, y, x) && open_walls(g1) + grid_empties(g1)
        + empty_flag(g0[y][x]) == open_walls(g0) + grid_empties(g0)
    &&& exists|t: spec_fn((int, int)) -> int| tree_order(g0, g1, y, x, t)
}

proof fn lemma_settled_persists(ga: Seq<Seq<Cell>>, gb: Seq<Seq<Cell>>, y: int, x: int)
    requires
        well_formed(ga),
        same_shape(gb, ga),
        no_new_empty(ga, gb),
        settled(ga, y, x),
    ensures
        settled(gb, y, x),
{
    assert(gb[0].len() == ga[0].len());
    if in_rect(gb, y - 2, x) {
        assert(ga[y - 2].len() >= ga[0].len());
        assert(is_empty_node(gb[y - 2][x]) ==> is_empty_node(ga[y - 2][x]));
    }
    if in_rect(gb, y + 2, x) {
        assert(ga[y + 2].len() >= ga[0].len());
        assert(is_empty_node(gb[y + 2][x]) ==> is_empty_node(ga[y + 2][x]));
    }
    if in_rect(gb, y, x - 2) {
        assert(ga[y].len() >= ga[0].len());
        assert(is_empty_node(gb[y][x - 2]) ==> is_empty_node(ga[y][x - 2]));
    }
    if in_rect(gb, y, x + 2) {
        assert(ga[y].len() >= ga[0].len());
        assert(is_empty_node(gb[y][x + 2]) ==> is_empty_node(ga[y][x + 2]));
    }
}

proof fn lemma_dir_settled_persists(
    ga: Seq<Seq<Cell>>,
    gb: Seq<Seq<Cell>>,
    y: int,
    x: int,
    d: int,
)
    requires
        well_formed(ga),
        same_shape(gb, ga),
        no_new_empty(ga, gb),
        dir_settled(ga, y, x, d),
    ensures
        dir_settled(gb, y, x, d),
{
    let (a, b) = step(y, x, d);
    assert(gb[0].len() == ga[0].len());
    if in_rect(gb, a, b) {
        assert(ga[a].len() >= ga[0].len());
        assert(is_empty_node(gb[a][b]) ==> is_empty_node(ga[a][b]));
    }
}

/// The loop facts of one call, from its start `g0` through `gm`, carried over a
/// nested search from the neighbour `(ny, nx)` that took `gm` to `g2`.
proof fn lemma_compose(
    g0: Seq<Seq<Cell>>,
    gm: Seq<Seq<Cell>>,
    g2: Seq<Seq<Cell>>,
    y: int,
    x: int,
    ny: int,
    nx: int,
)
    requires
        well_formed(g0),
        same_shape(gm, g0),
        changes_ok(g0, gm, y, x),
        no_new_empty(g0, gm),
        visits_ok(g0, gm, y, x),
        visits_closed_but(g0, gm, y, x),
        same_class(ny, nx, y, x),
        in_grid(gm, ny, nx),
        is_empty_node(gm[ny][nx]),
        carved(gm, g2, ny, nx),
    ensures
        same_shape(g2, g0),
        changes_ok(g0, g2, y, x),
        no_new_empty(g0, g2),
        visits_ok(g0, g2, y, x),
        visits_closed_but(g0, g2, y, x),
{
    assert forall|a: int, b: int|
        in_grid(g0, a, b) && #[trigger] g2[a][b] != g0[a][b] implies (same_class(a, b, y, x)
            && g2[a][b] == Cell::Node(NodeState::Visited)) || (wall_class(a, b, y, x) && g2[a][b]
            == Cell::Wall(WallState::Open)) by {
        if g2[a][b] != gm[a][b] {
            assert(in_grid(gm, a, b));
        } else {
            assert(gm[a][b] != g0[a][b]);
        }
    }
    assert forall|a: int, b: int|
        in_grid(g0, a, b) && is_empty_node(#[trigger] g2[a][b]) implies is_empty_node(g0[a][b]) by {
        assert(in_grid(gm, a, b));
        assert(is_empty_node(gm[a][b]));
    }
    assert forall|a: int, b: int|
        in_grid(g0, a, b) && #[trigger] g2[a][b] == Cell::Node(NodeState::Visited) && g0[a][b]
            != Cell::Node(NodeState::Visited) implies (a == y && b == x) || is_empty_node(
        g0[a][b],
    ) by {
        assert(in_grid(gm, a, b));
        if gm[a][b] == Cell::Node(NodeState::Visited) {
        } else {
            if a == ny && b == nx {
                assert(is_empty_node(g0[a][b]));
            } else {
                assert(is_empty_node(gm[a][b]));
            }
        }
    }
    assert forall|a: int, b: int|
        in_grid(g0, a, b) && !(a == y && b == x) && is_empty_node(g0[a][b]) && #[trigger] g2[a][b]
            == Cell::Node(NodeState::Visited) implies settled(g2, a, b) by {
        assert(in_grid(gm, a, b));
        if gm[a][b] == Cell::Node(NodeState::Visited) {
            assert(settled(gm, a, b));
            lemma_settled_persists(gm, g2, a, b);
        } else if a == ny && b == nx {
        } else {
            assert(is_empty_node(gm[a][b]));
        }
    }
}

/// The orders of directions in `orders`, as sequences.
pub open spec fn order_seqs(orders: &Vec<Vec<u8>>) -> Seq<Seq<u8>> {
    orders@.map_values(|o: Vec<u8>| o@)
}

/// `o` orders the four directions: up, down, left and right, each once.
pub open spec fn is_order(o: Seq<u8>) -> bool {
    o.to_multiset() == seq![0u8, 1u8, 2u8, 3u8].to_multiset()
}

/// The depth-first search from `(y, x)` on `g`, taking the order of
/// directions `os[n]` for this visit and the following orders for the visits
/// it makes: the maze it leaves and the index of the next unused order.
/// `fuel` bounds the depth; with more fuel than empty nodes it never runs out.
pub open spec fn dfs_carve(
    g: Seq<Seq<Cell>>,
    y: int,
    x: int,
    os: Seq<Seq<u8>>,
    n: int,
    fuel: nat,
) -> (Seq<Seq<Cell>>, int)
    decreases fuel, 1int, 0int,
{
    if fuel == 0 {
        (g, n)
    } else {
        let g1 = if g[y][x] == Cell::Node(NodeState::StartPoint) || g[y][x] == Cell::Node(
            NodeState::EndPoint,
        ) {
            g
        } else {
            put(g, y, x, Cell::Node(NodeState::Visited))
        };
        dfs_loop(g1, y, x, os[n], 0, os, n + 1, fuel)
    }
}

/// The search at `(y, x)` from the `i`-th direction of its order `o` on:
/// where the neighbour that way is an empty node of the scanned rectangle,
/// it opens the wall between and searches on from there.
pub open spec fn dfs_loop(
    g: Seq<Seq<Cell>>,
    y: int,
    x: int,
    o: Seq<u8>,
    i: int,
    os: Seq<Seq<u8>>,
    n: int,
    fuel: nat,
) -> (Seq<Seq<Cell>>, int)
    decreases fuel, 0int, o.len() - i,
{
    if i < 0 || i >= o.len() || fuel == 0 {
        (g, n)
    } else {
        let (ny, nx) = step(y, x, o[i] as int);
        if 0 <= ny < g.len() && 0 <= nx < grid_width(g) && is_empty_node(g[ny][nx]) {
            let gw = put(g, (y + ny) / 2, (x + nx) / 2, Cell::Wall(WallState::Open));
            let (g2, n2) = dfs_carve(gw, ny, nx, os, n, (fuel - 1) as nat);
            dfs_loop(g2, y, x, o, i + 1, os, n2, fuel)
        } else {
            dfs_loop(g, y, x, o, i + 1, os, n, fuel)
        }
    }
}

/// The maze and next order index that the search from `(y, x)` leaves,
/// with fuel enough.
pub open spec fn carve_result(g: Seq<Seq<Cell>>, y: int, x: int, os: Seq<Seq<u8>>, n: int) -> (
    Seq<Seq<Cell>>,
    int,
) {
    dfs_carve(g, y, x, os, n, grid_empties(g) + 1)
}

pub fn carve_in_orders(
    x: usize,
    y: usize,
    maze: &mut Vec<Vec<Cell>>,
    orders: &Vec<Vec<u8>>,
    next: &mut usize,
)
    requires
        well_formed(grid(old(maze))),
        in_grid(grid(old(maze)), y as int, x as int),
        forall|k: int| 0 <= k < orders@.len() ==> #[trigger] is_order(orders@[k]@),
        *old(next) + grid_empties(grid(old(maze))) - empty_flag(grid(old(maze))[y as int][x as int])
            + 1 <= orders@.len(),
    ensures
        carved(grid(old(maze)), grid(final(maze)), y as int, x as int),
        (grid(final(maze)), *final(next) as int) == carve_result(
            grid(old(maze)),
            y as int,
            x as int,
            order_seqs(orders),
            *old(next) as int,
        ),
        forall|f: nat|
            f > grid_empties(grid(old(maze))) - empty_flag(grid(old(maze))[y as int][x as int])
                ==> #[trigger] dfs_carve(
                grid(old(maze)),
                y as int,
                x as int,
                order_seqs(orders),
                *old(next) as int,
                f,
            ) == (grid(final(maze)), *final(next) as int),
        *final(next) + grid_empties(grid(final(maze))) <= *old(next) + grid_empties(grid(old(maze)))
            - empty_flag(grid(old(maze))[y as int][x as int]) + 1,
    decreases grid_empties(grid(old(maze))) - empty_flag(grid(old(maze))[y as int][x as int]),
{
    let ghost g0 = grid(maze);
    let ghost bound: int = grid_empties(g0) - empty_flag(g0[y as int][x as int]);
    let ghost os = order_seqs(orders);
    let ghost n0: int = *next as int;
    assert(maze@[y as int]@ == g0[y as int]);
    if maze[y][x] != Cell::Node(NodeState::StartPoint) && maze[y][x] != Cell::Node(
        NodeState::EndPoint,
    ) {
        set_cell(maze, y, x, Cell::Node(NodeState::Visited));
    }
    assert(grid(maze)[y as int][x as int] == entered(g0[y as int][x as int]));
    assert(grid_empties(grid(maze)) == bound);
    assert(open_walls(grid(maze)) <= open_walls(g0));
    let ghost ready = count_ready(g0, y as int, x as int);
    proof {
        if ready {
            lemma_ready_entry(g0, grid(maze), y as int, x as int);
        }
        lemma_order_entry(g0, grid(maze), y as int, x as int);
    }
    let ghost mut order: spec_fn((int, int)) -> int = |n: (int, int)| 0int;
    assert(visits_linked(g0, grid(maze), y as int, x as int)) by {
        let g1 = grid(maze);
        assert forall|a: int, b: int|
            in_grid(g0, a, b) && is_empty_node(g0[a][b]) && #[trigger] g1[a][b] == Cell::Node(
                NodeState::Visited,
            ) implies linked(g1, (y as int, x as int), (a, b)) by {
            assert(a == y && b == x);
            let p = seq![(a, b)];
            assert(passage(g1, p) && p[0] == (y as int, x as int) && p.last() == (a, b));
        }
    }
    let ghost ge = grid(maze);
    assert(ge == if g0[y as int][x as int] == Cell::Node(NodeState::StartPoint) || g0[y as int][x as int]
        == Cell::Node(NodeState::EndPoint) {
        g0
    } else {
        put(g0, y as int, x as int, Cell::Node(NodeState::Visited))
    });
    assert(bound >= 0);
    assert(n0 + bound + 1 <= orders@.len());
    let k: usize = *next;
    let count: usize = orders.len();
    assert(k < count);
    *next = k + 1;
    let dirs: &Vec<u8> = &orders[k];
    let ghost fixed = seq![0u8, 1u8, 2u8, 3u8];
    assert(dirs@ == os[k as int]);
    assert(is_order(orders@[k as int]@));
    let height: usize = maze.len();
    assert(maze@[0]@ == grid(maze)[0]);
    let width: usize = maze[0].len();
    proof {
        broadcast use vstd::seq_lib::group_to_multiset_ensures;

        assert forall|j: int| 0 <= j < dirs@.len() implies #[trigger] dirs@[j] < 4 by {
            assert(dirs@.contains(dirs@[j]));
            assert(fixed.to_multiset().count(dirs@[j]) > 0);
            assert(fixed.contains(dirs@[j]));
        }
    }
    let mut i: usize = 0;
    while i < dirs.len()
        invariant
            0 <= i <= dirs@.len(),
            dirs@ == os[k as int],
            os == order_seqs(orders),
            forall|k: int| 0 <= k < orders@.len() ==> #[trigger] is_order(orders@[k]@),
            n0 == k as int,
            *next + grid_empties(grid(maze)) <= n0 + bound + 1,
            n0 + bound + 1 <= orders@.len(),
            grid_empties(ge) == bound,
            forall|f: nat|
                f > bound ==> #[trigger] dfs_loop(ge, y as int, x as int, dirs@, 0, os, n0 + 1, f)
                    == dfs_loop(grid(maze), y as int, x as int, dirs@, i as int, os, *next as int, f),
            dirs@.to_multiset() == fixed.to_multiset(),
            fixed == seq![0u8, 1u8, 2u8, 3u8],
            well_formed(g0),
            in_grid(g0, y as int, x as int),
            height == g0.len(),
            width == grid_width(g0),
            same_shape(grid(maze), g0),
            grid(maze)[y as int][x as int] == entered(g0[y as int][x as int]),
            changes_ok(g0, grid(maze), y as int, x as int),
            no_new_empty(g0, grid(maze)),
            visits_ok(g0, grid(maze), y as int, x as int),
            visits_closed_but(g0, grid(maze), y as int, x as int),
            visits_linked(g0, grid(maze), y as int, x as int),
            grid_empties(grid(maze)) <= bound,
            open_walls(grid(maze)) + grid_empties(grid(maze)) <= open_walls(g0) + bound,
            ready == count_ready(g0, y as int, x as int),
            tree_order(g0, grid(maze), y as int, x as int, order),
            ready ==> walls_ready(grid(maze), y as int, x as int) && open_walls(grid(maze))
                + grid_empties(grid(maze)) == open_walls(g0) + bound,
            bound == grid_empties(g0) - empty_flag(g0[y as int][x as int]),
            g0 == grid(old(maze)),
            forall|j: int| 0 <= j < i ==> dir_settled(grid(maze), y as int, x as int, #[trigger] dirs@[j] as int),
            forall|j: int| 0 <= j < dirs@.len() ==> #[trigger] dirs@[j] < 4,
        decreases dirs@.len() - i,
    {
        let d = dirs[i];
        let ghost gi = grid(maze);
        let ghost ncur = *next as int;
        assert(grid_width(gi) == width);
        match neighbor(y, x, d, height, width) {
            None => {
                assert(dir_settled(gi, y as int, x as int, d as int));
                assert forall|f: nat| f > bound implies #[trigger] dfs_loop(
                    gi,
                    y as int,
                    x as int,
                    dirs@,
                    i as int,
                    os,
                    ncur,
                    f,
                ) == dfs_loop(gi, y as int, x as int, dirs@, i as int + 1, os, ncur, f) by {}
            },
            Some((ny, nx)) => {
                assert(g0[ny as int].len() >= g0[0].len());
                assert(maze@[ny as int]@ == gi[ny as int]);
                if maze[ny][nx] == Cell::Node(NodeState::Empty) {
                    let wall_x = midpoint(x, nx);
                    let wall_y = midpoint(y, ny);
                    assert(in_grid(gi, wall_y as int, wall_x as int));
                    set_cell(maze, wall_y, wall_x, Cell::Wall(WallState::Open));
                    let ghost gw = grid(maze);
                    proof {
                        if ready {
                            lemma_ready_open(
                                gi,
                                gw,
                                y as int,
                                x as int,
                                wall_y as int,
                                wall_x as int,
                                ny as int,
                                nx as int,
                            );
                        }
                    }
                    assert(open_walls(gw) + grid_empties(gw) <= open_walls(gi) + grid_empties(gi) + 1);
                    assert(wall_class(wall_y as int, wall_x as int, y as int, x as int));
                    assert(between_cells(g0, wall_y as int, wall_x as int, y as int, x as int)) by {
                        assert(in_grid(g0, y as int, x as int));
                        assert(in_grid(g0, ny as int, nx as int));
                    }
                    assert(same_shape(gw, g0));
                    assert(changes_ok(g0, gw, y as int, x as int));
                    assert(no_new_empty(g0, gw));
                    assert(visits_ok(g0, gw, y as int, x as int));
                    assert forall|a: int, b: int|
                        in_grid(g0, a, b) && !(a == y && b == x) && is_empty_node(g0[a][b])
                            && #[trigger] gw[a][b] == Cell::Node(NodeState::Visited) implies settled(
                        gw,
                        a,
                        b,
                    ) by {
                        assert(gi[a][b] == Cell::Node(NodeState::Visited));
                        lemma_settled_persists(gi, gw, a, b);
                    }
                    assert(gw[ny as int][nx as int] == Cell::Node(NodeState::Empty));
                    proof {
                        lemma_grid_update(gw, ny as int, nx as int, Cell::Wall(WallState::Closed));
                    }
                    assert(grid_empties(gw) <= grid_empties(gi));
                    assert(grid_empties(gw) >= 1);
                    assert(empty_flag(gw[ny as int][nx as int]) == 1);
                    assert(grid_empties(gw) - empty_flag(gw[ny as int][nx as int]) < bound);
                    let ghost nb = *next as int;
                    carve_in_orders(nx, ny, maze, orders, next);
                    let ghost g2 = grid(maze);
                    proof {
                        let ti = choose|ti: spec_fn((int, int)) -> int| tree_order(gw, g2, ny as int, nx as int, ti);
                        assert(g2[ny as int][nx as int] == Cell::Node(NodeState::Visited));
                        lemma_order_step(
                            g0,
                            gi,
                            gw,
                            g2,
                            y as int,
                            x as int,
                            wall_y as int,
                            wall_x as int,
                            ny as int,
                            nx as int,
                            order,
                            ti,
                        );
                        order = joined_order(gw, g2, ny as int, nx as int, order, ti);
                        if ready {
                            assert(g2[ny as int][nx as int] == Cell::Node(NodeState::Visited));
                            lemma_ready_back(g2, y as int, x as int, ny as int, nx as int);
                        }
                        lemma_compose(g0, gw, g2, y as int, x as int, ny as int, nx as int);
                        lemma_compose_links(
                            g0,
                            gi,
                            gw,
                            g2,
                            y as int,
                            x as int,
                            wall_y as int,
                            wall_x as int,
                            ny as int,
                            nx as int,
                        );
                        assert(g2[y as int][x as int] == gw[y as int][x as int]) by {
                            if g2[y as int][x as int] != gw[y as int][x as int] {
                                assert(in_grid(gw, y as int, x as int));
                            }
                        }
                    }
                    assert(dir_settled(g2, y as int, x as int, d as int));
                    assert forall|f: nat| f > bound implies #[trigger] dfs_loop(
                        gi,
                        y as int,
                        x as int,
                        dirs@,
                        i as int,
                        os,
                        ncur,
                        f,
                    ) == dfs_loop(g2, y as int, x as int, dirs@, i as int + 1, os, *next as int, f) by {
                        let fm: nat = (f - 1) as nat;
                        assert(dfs_carve(gw, ny as int, nx as int, os, nb, fm) == (g2, *next as int));
                        assert(gw == put(
                            gi,
                            (y + ny) / 2,
                            (x + nx) / 2,
                            Cell::Wall(WallState::Open),
                        ));
                    }
                } else {
                    assert forall|f: nat| f > bound implies #[trigger] dfs_loop(
                        gi,
                        y as int,
                        x as int,
                        dirs@,
                        i as int,
                        os,
                        ncur,
                        f,
                    ) == dfs_loop(gi, y as int, x as int, dirs@, i as int + 1, os, ncur, f) by {}
                }
                assert(dir_settled(grid(maze), y as int, x as int, d as int));
            },
        }
        let ghost gn = grid(maze);
        assert forall|j: int| 0 <= j < i + 1 implies dir_settled(
            gn,
            y as int,
            x as int,
            #[trigger] dirs@[j] as int,
        ) by {
            if j < i {
                lemma_dir_settled_persists(gi, gn, y as int, x as int, dirs@[j] as int);
            }
        }
        i += 1;
    }
    proof {
        broadcast use vstd::seq_lib::group_to_multiset_ensures;

        let gf = grid(maze);
        assert forall|d: int| 0 <= d < 4 implies dir_settled(gf, y as int, x as int, d) by {
            assert(fixed[d] == d as u8);
            assert(fixed.contains(d as u8));
            assert(dirs@.to_multiset().count(d as u8) > 0);
            assert(dirs@.contains(d as u8));
            let j = choose|j: int| 0 <= j < dirs@.len() && dirs@[j] == d as u8;
            assert(dir_settled(gf, y as int, x as int, dirs@[j] as int));
        }
        assert(dir_settled(gf, y as int, x as int, 0));
        assert(dir_settled(gf, y as int, x as int, 1));
        assert(dir_settled(gf, y as int, x as int, 2));
        assert(dir_settled(gf, y as int, x as int, 3));
        assert(settled(gf, y as int, x as int));
        assert(visits_closed(g0, gf));
        assert(os[n0] == dirs@);
        assert forall|f: nat| f > bound implies #[trigger] dfs_carve(
            g0,
            y as int,
            x as int,
            os,
            n0,
            f,
        ) == (gf, *next as int) by {
            assert(dfs_loop(ge, y as int, x as int, dirs@, 0, os, n0 + 1, f) == dfs_loop(
                gf,
                y as int,
                x as int,
                dirs@,
                i as int,
                os,
                *next as int,
                f,
            ));
        }
        let fe: nat = (grid_empties(g0) + 1) as nat;
        assert(dfs_carve(g0, y as int, x as int, os, n0, fe) == (gf, *next as int));
    }
}

proof fn lemma_rows_prefix(g: Seq<Seq<Cell>>, r: int)
    requires
        0 <= r < g.len(),
    ensures
        grid_empties(g.take(r + 1)) == grid_empties(g.take(r)) + row_empties(g[r]),
{
    assert(g.take(r + 1).drop_last() =~= g.take(r));
}

proof fn lemma_prefix_le(g: Seq<Seq<Cell>>, r: int)
    requires
        0 <= r <= g.len(),
    ensures
        grid_empties(g.take(r)) <= grid_empties(g),
    decreases g.len() - r,
{
    if r < g.len() {
        lemma_rows_prefix(g, r);
        lemma_prefix_le(g, r + 1);
    } else {
        assert(g.take(r) =~= g);
    }
}

proof fn lemma_row_take_le(row: Seq<Cell>, c: int)
    requires
        0 <= c <= row.len(),
    ensures
        row_empties(row.take(c)) <= row_empties(row),
    decreases row.len() - c,
{
    if c < row.len() {
        lemma_take_step(row, c);
        lemma_row_take_le(row, c + 1);
    } else {
        assert(row.take(c) =~= row);
    }
}

/// Counts the empty nodes of the maze.
pub fn count_empty_nodes(maze: &Vec<Vec<Cell>>) -> (n: usize)
    requires
        grid_empties(grid(maze)) < usize::MAX,
    ensures
        n == grid_empties(grid(maze)),
{
    let ghost g = grid(maze);
    let mut count: usize = 0;
    let mut r: usize = 0;
    assert(g.take(0) =~= Seq::<Seq<Cell>>::empty());
    while r < maze.len()
        invariant
            0 <= r <= g.len(),
            g == grid(maze),
            grid_empties(g) < usize::MAX,
            count == grid_empties(g.take(r as int)),
        decreases g.len() - r,
    {
        let row = &maze[r];
        assert(row@ == g[r as int]);
        let mut c: usize = 0;
        assert(g[r as int].take(0) =~= Seq::<Cell>::empty());
        while c < row.len()
            invariant
                0 <= r < g.len(),
                0 <= c <= row@.len(),
                row@ == g[r as int],
                grid_empties(g) < usize::MAX,
                count == grid_empties(g.take(r as int)) + row_empties(g[r as int].take(c as int)),
            decreases row@.len() - c,
        {
            proof {
                lemma_take_step(g[r as int], c as int);
                lemma_row_take_le(g[r as int], c as int + 1);
                lemma_rows_prefix(g, r as int);
                lemma_prefix_le(g, r as int + 1);
            }
            if row[c] == Cell::Node(NodeState::Empty) {
                count += 1;
            }
            c += 1;
        }
        proof {
            assert(g[r as int].take(g[r as int].len() as int) =~= g[r as int]);
            lemma_rows_prefix(g, r as int);
        }
        r += 1;
    }
    assert(g.take(g.len() as int) =~= g);
    count
}

/// Carves passages from `(y, x)` with the search of `carve_in_orders`, each
/// visit taking its own order of the four directions, shuffled at random:
/// one order is drawn for every visit the search can make.
pub fn maze_generator(x: usize, y: usize, maze: &mut Vec<Vec<Cell>>)
    requires
        well_formed(grid(old(maze))),
        in_grid(grid(old(maze)), y as int, x as int),
        grid_empties(grid(old(maze))) < usize::MAX,
    ensures
        carved(grid(old(maze)), grid(final(maze)), y as int, x as int),
        exists|os: Seq<Seq<u8>>|
            (forall|k: int| 0 <= k < os.len() ==> #[trigger] is_order(os[k])) && grid(final(maze))
                == carve_result(grid(old(maze)), y as int, x as int, os, 0).0,
{
    let total = count_empty_nodes(maze) + 1;
    let mut orders: Vec<Vec<u8>> = Vec::new();
    while orders.len() < total
        invariant
            orders@.len() <= total,
            forall|k: int| 0 <= k < orders@.len() ==> #[trigger] is_order(orders@[k]@),
        decreases total - orders@.len(),
    {
        let mut dirs: Vec<u8> = Vec::new();
        dirs.push(0);
        dirs.push(1);
        dirs.push(2);
        dirs.push(3);
        assert(dirs@ =~= seq![0u8, 1u8, 2u8, 3u8]);
        shuffle_in_place(&mut dirs);
        assert(is_order(dirs@));
        let ghost before = orders@;
        orders.push(dirs);
        assert forall|k: int| 0 <= k < orders@.len() implies #[trigger] is_order(orders@[k]@) by {
            if k < before.len() {
                assert(orders@[k] == before[k]);
            }
        }
    }
    let mut next: usize = 0;
    carve_in_orders(x, y, maze, &orders, &mut next);
    assert(forall|k: int| 0 <= k < order_seqs(&orders).len() ==> #[trigger] is_order(order_seqs(&orders)[k]));
}

} // verus!
