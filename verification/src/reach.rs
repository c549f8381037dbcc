//! The walks that the solver's search can take, and how marking the cells of
//! one try changes them.
use vstd::prelude::*;
use crate::cell::{Cell, Character, NodeState, WallState};
use crate::generator::{no_new_empty, same_class, step, wall_class};
use crate::grid::{framed, grid_width, in_grid, in_rect, is_empty_node, put, same_shape, two_apart};
use crate::solver::{closed_flag, interior, is_candidate, passable, tried_before, walls_around};

verus! {

/// The three cells that one try of the search writes: the start, the wall
/// between and the neighbour, with the neighbour an empty node two away and
/// the wall between not closed.
pub open spec fn try_geometry(
    g0: Seq<Seq<Cell>>,
    y: int,
    x: int,
    my: int,
    mx: int,
    ny: int,
    nx: int,
) -> bool {
    &&& in_grid(g0, y, x)
    &&& in_grid(g0, my, mx)
    &&& in_grid(g0, ny, nx)
    &&& two_apart((y, x), (ny, nx))
    &&& my == (y + ny) / 2
    &&& mx == (x + nx) / 2
    &&& is_empty_node(g0[ny][nx])
    &&& g0[my][mx] != Cell::Wall(WallState::Closed)
}

/// The grid once one try of the search has written its three cells.
pub open spec fn tried(
    g0: Seq<Seq<Cell>>,
    y: int,
    x: int,
    my: int,
    mx: int,
    ny: int,
    nx: int,
) -> Seq<Seq<Cell>> {
    put(
        put(put(g0, y, x, Cell::Node(NodeState::Visited)), my, mx, Cell::Wall(WallState::Passed)),
        ny,
        nx,
        Cell::Character(Character::Computer),
    )
}

/// The cell halfway between `a` and `b`.
pub open spec fn mid(a: (int, int), b: (int, int)) -> (int, int) {
    ((a.0 + b.0) / 2, (a.1 + b.1) / 2)
}

/// The search may move from `a` to `b`: `b` is the neighbour of `a` in a
/// candidate direction.
pub open spec fn cand_step(g: Seq<Seq<Cell>>, a: (int, int), b: (int, int)) -> bool {
    exists|d: int| 0 <= d < 4 && #[trigger] is_candidate(g, a.0, a.1, d) && b == step(a.0, a.1, d)
}

/// `q` is a walk the search can take in `g`: every step a candidate move,
/// no cell twice, and the end point right of its last cell, on no wall that
/// the walk passes.
pub open spec fn search_walk(g: Seq<Seq<Cell>>, q: Seq<(int, int)>) -> bool {
    &&& q.len() >= 1
    &&& forall|i: int| 0 <= i < q.len() - 1 ==> #[trigger] cand_step(g, q[i], q[i + 1])
    &&& forall|i: int, j: int| 0 <= i < j < q.len() ==> #[trigger] q[i] != #[trigger] q[j]
    &&& in_grid(g, q.last().0, q.last().1 + 1)
    &&& g[q.last().0][q.last().1 + 1] == Cell::Node(NodeState::EndPoint)
    &&& forall|i: int| 0 <= i < q.len() - 1 ==> #[trigger] mid(q[i], q[i + 1]) != (q.last().0, q.last().1 + 1)
}

/// The search from `(y, x)` has a walk to the end point.
pub open spec fn can_reach_end(g: Seq<Seq<Cell>>, y: int, x: int) -> bool {
    exists|q: Seq<(int, int)>| search_walk(g, q) && q[0] == (y, x)
}

/// The search from `(y, x)` has a walk to the end point whose first move goes
/// to `n`.
pub open spec fn reach_via(g: Seq<Seq<Cell>>, y: int, x: int, n: (int, int)) -> bool {
    exists|q: Seq<(int, int)>| search_walk(g, q) && q[0] == (y, x) && q.len() >= 2 && q[1] == n
}

/// Marking the three cells of a try changes the candidate moves from a cell
/// of the start's class only in that the start and the neighbour are no
/// longer targets.
proof fn lemma_candidate_marked(
    g0: Seq<Seq<Cell>>,
    y: int,
    x: int,
    my: int,
    mx: int,
    ny: int,
    nx: int,
    a: (int, int),
    d: int,
)
    requires
        try_geometry(g0, y, x, my, mx, ny, nx),
        framed(g0),
        in_rect(g0, a.0, a.1),
        same_class(a.0, a.1, y, x),
        0 <= d < 4,
    ensures
        is_candidate(tried(g0, y, x, my, mx, ny, nx), a.0, a.1, d) <==> (is_candidate(g0, a.0, a.1, d)
            && step(a.0, a.1, d) != (y, x) && step(a.0, a.1, d) != (ny, nx)),
{
    let gm = tried(g0, y, x, my, mx, ny, nx);
    let t = step(a.0, a.1, d);
    let md = mid(a, t);
    assert(gm[0].len() == g0[0].len());
    assert(same_class(t.0, t.1, y, x));
    assert(wall_class(md.0, md.1, y, x));
    assert(wall_class(my, mx, y, x));
    if in_rect(g0, t.0, t.1) {
        assert(g0[t.0].len() >= g0[0].len());
        assert(g0[md.0].len() >= g0[0].len());
        assert(in_grid(g0, md.0, md.1));
        if !(t == (y, x)) && !(t == (ny, nx)) {
            assert(gm[t.0][t.1] == g0[t.0][t.1]);
        } else {
            assert(!is_empty_node(gm[t.0][t.1]));
        }
        if !(md == (my, mx)) {
            assert(gm[md.0][md.1] == g0[md.0][md.1]);
        }
        if is_empty_node(g0[t.0][t.1]) {
            assert(interior(g0, t.0, t.1));
            let w = walls_around(g0, t.0, t.1);
            assert(g0[t.0 + 1].len() >= g0[0].len());
            assert(g0[t.0 - 1].len() >= g0[0].len());
            assert(wall_class(t.0, t.1 + 1, y, x));
            assert(wall_class(t.0, t.1 - 1, y, x));
            assert(wall_class(t.0 + 1, t.1, y, x));
            assert(wall_class(t.0 - 1, t.1, y, x));
            assert(closed_flag(gm[t.0][t.1 + 1]) == closed_flag(g0[t.0][t.1 + 1]));
            assert(closed_flag(gm[t.0][t.1 - 1]) == closed_flag(g0[t.0][t.1 - 1]));
            assert(closed_flag(gm[t.0 + 1][t.1]) == closed_flag(g0[t.0 + 1][t.1]));
            assert(closed_flag(gm[t.0 - 1][t.1]) == closed_flag(g0[t.0 - 1][t.1]));
            assert(walls_around(gm, t.0, t.1) == walls_around(g0, t.0, t.1));
        }
    }
}

proof fn lemma_cand_step_marked(
    g0: Seq<Seq<Cell>>,
    y: int,
    x: int,
    my: int,
    mx: int,
    ny: int,
    nx: int,
    a: (int, int),
    b: (int, int),
)
    requires
        try_geometry(g0, y, x, my, mx, ny, nx),
        framed(g0),
        in_rect(g0, a.0, a.1),
        same_class(a.0, a.1, y, x),
    ensures
        cand_step(tried(g0, y, x, my, mx, ny, nx), a, b) <==> (cand_step(g0, a, b) && b != (y, x)
            && b != (ny, nx)),
{
    let gm = tried(g0, y, x, my, mx, ny, nx);
    if cand_step(gm, a, b) {
        let d = choose|d: int| 0 <= d < 4 && #[trigger] is_candidate(gm, a.0, a.1, d) && b == step(a.0, a.1, d);
        lemma_candidate_marked(g0, y, x, my, mx, ny, nx, a, d);
    }
    if cand_step(g0, a, b) && b != (y, x) && b != (ny, nx) {
        let d = choose|d: int| 0 <= d < 4 && #[trigger] is_candidate(g0, a.0, a.1, d) && b == step(a.0, a.1, d);
        lemma_candidate_marked(g0, y, x, my, mx, ny, nx, a, d);
    }
}

/// Every cell of a walk of candidate moves lies in the class of its first
/// cell, and every one after the first in the rectangle.
proof fn lemma_walk_cells(g: Seq<Seq<Cell>>, q: Seq<(int, int)>, k: int)
    requires
        q.len() >= 1,
        forall|i: int| 0 <= i < q.len() - 1 ==> #[trigger] cand_step(g, q[i], q[i + 1]),
        0 <= k < q.len(),
    ensures
        k >= 1 ==> in_rect(g, q[k].0, q[k].1),
        same_class(q[k].0, q[k].1, q[0].0, q[0].1),
    decreases k,
{
    if k > 0 {
        lemma_walk_cells(g, q, k - 1);
        let j = k - 1;
        assert(cand_step(g, q[j], q[j + 1]));
        let d = choose|d: int| 0 <= d < 4 && #[trigger] is_candidate(g, q[j].0, q[j].1, d) && q[k] == step(q[j].0, q[j].1, d);
        assert(passable(g, q[j].0, q[j].1, d));
    }
}

/// The walks from the neighbour in the marked grid are the walks from the
/// start through the neighbour in the grid before the try.
pub proof fn lemma_walk_transfer(
    g0: Seq<Seq<Cell>>,
    y: int,
    x: int,
    my: int,
    mx: int,
    ny: int,
    nx: int,
    d: int,
    q: Seq<(int, int)>,
)
    requires
        try_geometry(g0, y, x, my, mx, ny, nx),
        framed(g0),
        0 <= d < 4,
        is_candidate(g0, y, x, d),
        (ny, nx) == step(y, x, d),
        q.len() >= 1,
        q[0] == (ny, nx),
    ensures
        search_walk(tried(g0, y, x, my, mx, ny, nx), q) <==> search_walk(g0, seq![(y, x)] + q),
{
    let gm = tried(g0, y, x, my, mx, ny, nx);
    let p = seq![(y, x)] + q;
    assert(p.len() == q.len() + 1);
    assert(p[0] == (y, x));
    assert forall|k: int| 0 <= k < q.len() implies #[trigger] p[k + 1] == q[k] by {}
    assert(p.last() == q.last());
    assert(mid((y, x), (ny, nx)) == (my, mx));
    assert(gm[0].len() == g0[0].len());
    assert(in_rect(g0, ny, nx));
    assert(same_class(ny, nx, y, x));
    let e = (q.last().0, q.last().1 + 1);
    if search_walk(gm, q) {
        assert forall|i: int| 0 <= i < q.len() - 1 implies #[trigger] cand_step(g0, q[i], q[i + 1]) by {
            lemma_walk_cells(gm, q, i);
            assert(cand_step(gm, q[i], q[i + 1]));
            lemma_cand_step_marked(g0, y, x, my, mx, ny, nx, q[i], q[i + 1]);
        }
        assert forall|i: int| 0 <= i < p.len() - 1 implies #[trigger] cand_step(g0, p[i], p[i + 1]) by {
            if i > 0 {
                assert(p[i] == q[i - 1]);
                assert(p[i + 1] == q[i]);
                let j = i - 1;
                assert(cand_step(g0, q[j], q[j + 1]));
            } else {
                assert(p[1] == q[0]);
            }
        }
        assert forall|i: int, j: int| 0 <= i < j < p.len() implies #[trigger] p[i] != #[trigger] p[j] by {
            if i == 0 {
                assert(p[j] == q[j - 1]);
                if j >= 2 {
                    let k = j - 2;
                    lemma_walk_cells(gm, q, k);
                    assert(cand_step(gm, q[k], q[k + 1]));
                    lemma_cand_step_marked(g0, y, x, my, mx, ny, nx, q[k], q[k + 1]);
                }
            } else {
                assert(p[i] == q[i - 1]);
                assert(p[j] == q[j - 1]);
            }
        }
        lemma_walk_cells(gm, q, q.len() - 1);
        assert(wall_class(e.0, e.1, y, x));
        assert(g0[q.last().0].len() >= g0[0].len());
        assert(e != (my, mx));
        assert(gm[e.0][e.1] == g0[e.0][e.1]);
        assert forall|i: int| 0 <= i < p.len() - 1 implies #[trigger] mid(p[i], p[i + 1]) != e by {
            if i > 0 {
                assert(p[i] == q[i - 1]);
                assert(p[i + 1] == q[i]);
                let j = i - 1;
                assert(mid(q[j], q[j + 1]) != e);
            } else {
                assert(p[1] == q[0]);
            }
        }
        assert(search_walk(g0, p));
    }
    if search_walk(g0, p) {
        assert forall|i: int| 0 <= i < q.len() - 1 implies #[trigger] cand_step(gm, q[i], q[i + 1]) by {
            assert(p[i + 1] == q[i]);
            assert(p[i + 2] == q[i + 1]);
            let k = i + 1;
            assert(cand_step(g0, p[k], p[k + 1]));
            lemma_walk_cells(g0, p, k);
            assert(p[0] != p[k + 1]);
            assert(p[1] != p[k + 1]);
            lemma_cand_step_marked(g0, y, x, my, mx, ny, nx, q[i], q[i + 1]);
        }
        assert forall|i: int, j: int| 0 <= i < j < q.len() implies #[trigger] q[i] != #[trigger] q[j] by {
            assert(p[i + 1] != p[j + 1]);
        }
        assert(mid(p[0], p[1]) != e);
        lemma_walk_cells(g0, p, p.len() - 1);
        assert(wall_class(e.0, e.1, y, x));
        assert(g0[q.last().0].len() >= g0[0].len());
        assert(gm[e.0][e.1] == g0[e.0][e.1]);
        assert forall|i: int| 0 <= i < q.len() - 1 implies #[trigger] mid(q[i], q[i + 1]) != e by {
            assert(p[i + 1] == q[i]);
            assert(p[i + 2] == q[i + 1]);
            let k = i + 1;
            assert(mid(p[k], p[k + 1]) != e);
        }
        assert(search_walk(gm, q));
    }
}

/// A walk from the start whose first move goes to the neighbour exists
/// exactly when one from the neighbour exists in the marked grid.
pub proof fn lemma_reach_via_marked(
    g0: Seq<Seq<Cell>>,
    y: int,
    x: int,
    my: int,
    mx: int,
    ny: int,
    nx: int,
    d: int,
)
    requires
        try_geometry(g0, y, x, my, mx, ny, nx),
        framed(g0),
        0 <= d < 4,
        is_candidate(g0, y, x, d),
        (ny, nx) == step(y, x, d),
    ensures
        reach_via(g0, y, x, (ny, nx)) <==> can_reach_end(tried(g0, y, x, my, mx, ny, nx), ny, nx),
{
    let gm = tried(g0, y, x, my, mx, ny, nx);
    if reach_via(g0, y, x, (ny, nx)) {
        let p = choose|p: Seq<(int, int)>| search_walk(g0, p) && p[0] == (y, x) && p.len() >= 2 && p[1] == (ny, nx);
        let q = p.drop_first();
        assert(p =~= seq![(y, x)] + q);
        lemma_walk_transfer(g0, y, x, my, mx, ny, nx, d, q);
        assert(search_walk(gm, q) && q[0] == (ny, nx));
    }
    if can_reach_end(gm, ny, nx) {
        let q = choose|q: Seq<(int, int)>| search_walk(gm, q) && q[0] == (ny, nx);
        lemma_walk_transfer(g0, y, x, my, mx, ny, nx, d, q);
        let p = seq![(y, x)] + q;
        assert(search_walk(g0, p) && p[0] == (y, x) && p.len() >= 2 && p[1] == (ny, nx));
    }
}

/// Where the end point is not right of the start and no first move leads to
/// a walk, there is no walk.
pub proof fn lemma_no_walk(g0: Seq<Seq<Cell>>, y: int, x: int)
    requires
        g0[y][x + 1] != Cell::Node(NodeState::EndPoint),
        forall|d: int| 0 <= d < 4 && #[trigger] is_candidate(g0, y, x, d) ==> !reach_via(g0, y, x, step(y, x, d)),
    ensures
        !can_reach_end(g0, y, x),
{
    if can_reach_end(g0, y, x) {
        let p = choose|p: Seq<(int, int)>| search_walk(g0, p) && p[0] == (y, x);
        if p.len() >= 2 {
            let i = 0int;
            assert(cand_step(g0, p[i], p[i + 1]));
            let d = choose|d: int| 0 <= d < 4 && #[trigger] is_candidate(g0, y, x, d) && p[1] == step(y, x, d);
            assert(reach_via(g0, y, x, step(y, x, d)));
        }
    }
}

/// The grid as the search has marked it on reaching the last cell of the
/// walk `q`: every cell it left visited, every wall it went through passed,
/// and the computer on the last cell (nothing where the walk has not moved).
pub open spec fn marked(g0: Seq<Seq<Cell>>, q: Seq<(int, int)>) -> Seq<Seq<Cell>>
    decreases q.len(),
{
    if q.len() <= 1 {
        g0
    } else {
        let a = q[q.len() - 2];
        let b = q[q.len() - 1];
        tried(marked(g0, q.drop_last()), a.0, a.1, mid(a, b).0, mid(a, b).1, b.0, b.1)
    }
}

/// From `a`, the search tries the move to `b1` before the move to `b2`.
pub open spec fn move_first(g: Seq<Seq<Cell>>, a: (int, int), b1: (int, int), b2: (int, int)) -> bool {
    exists|d1: int, d2: int|
        0 <= d1 < 4 && 0 <= d2 < 4 && b1 == step(a.0, a.1, d1) && b2 == step(a.0, a.1, d2)
            && #[trigger] tried_before(g, a.0, a.1, d1, d2)
}

/// The search meets the walk `p` before the walk `q`: `p` is a proper prefix
/// of `q`, or where they part, the search (in the grid as marked by then)
/// tries `p`'s move first.
pub open spec fn walk_before(g0: Seq<Seq<Cell>>, p: Seq<(int, int)>, q: Seq<(int, int)>) -> bool {
    ||| p.len() < q.len() && p == q.take(p.len() as int)
    ||| exists|k: int|
        0 <= k < p.len() - 1 && k < q.len() - 1 && p.take(k + 1) == q.take(k + 1) && p[k + 1] != q[k
            + 1] && #[trigger] move_first(marked(g0, p.take(k + 1)), p[k], p[k + 1], q[k + 1])
}

/// `w` is the walk to the end point that the search meets first among all
/// walks from its first cell.
pub open spec fn first_walk(g0: Seq<Seq<Cell>>, w: Seq<(int, int)>) -> bool {
    &&& search_walk(g0, w)
    &&& forall|q: Seq<(int, int)>|
        #[trigger] search_walk(g0, q) && q[0] == w[0] && q != w ==> walk_before(g0, w, q)
}

/// Marking a walk from the neighbour in the grid of one try is marking the
/// walk from the start through the neighbour.
pub proof fn lemma_marked_prepend(
    g0: Seq<Seq<Cell>>,
    y: int,
    x: int,
    my: int,
    mx: int,
    ny: int,
    nx: int,
    wn: Seq<(int, int)>,
    k: int,
)
    requires
        my == (y + ny) / 2,
        mx == (x + nx) / 2,
        wn.len() >= 1,
        wn[0] == (ny, nx),
        0 <= k < wn.len(),
    ensures
        marked(tried(g0, y, x, my, mx, ny, nx), wn.take(k + 1)) == marked(
            g0,
            (seq![(y, x)] + wn).take(k + 2),
        ),
    decreases k,
{
    let w = seq![(y, x)] + wn;
    let gm = tried(g0, y, x, my, mx, ny, nx);
    if k == 0 {
        assert(w.take(2).drop_last() =~= seq![(y, x)]);
        assert(w.take(2)[0] == (y, x));
        assert(w.take(2)[1] == (ny, nx));
        assert(marked(g0, seq![(y, x)]) == g0);
        assert(marked(gm, wn.take(1)) == gm);
        assert(mid((y, x), (ny, nx)) == (my, mx));
        assert(marked(g0, w.take(2)) == tried(marked(g0, w.take(2).drop_last()), y, x, my, mx, ny, nx));
    } else {
        lemma_marked_prepend(g0, y, x, my, mx, ny, nx, wn, k - 1);
        assert(wn.take(k + 1).drop_last() =~= wn.take(k));
        assert(w.take(k + 2).drop_last() =~= w.take(k + 1));
        assert(w.take(k + 2)[k] == wn[k - 1]);
        assert(w.take(k + 2)[k + 1] == wn[k]);
        assert(wn.take(k + 1)[k - 1] == wn[k - 1]);
        assert(wn.take(k + 1)[k] == wn[k]);
    }
}

/// The order of walks from the neighbour in the grid of one try is the order
/// of the walks from the start through it.
pub proof fn lemma_walk_before_prepend(
    g0: Seq<Seq<Cell>>,
    y: int,
    x: int,
    my: int,
    mx: int,
    ny: int,
    nx: int,
    wn: Seq<(int, int)>,
    qn: Seq<(int, int)>,
)
    requires
        my == (y + ny) / 2,
        mx == (x + nx) / 2,
        wn.len() >= 1,
        wn[0] == (ny, nx),
        qn.len() >= 1,
        qn[0] == (ny, nx),
        walk_before(tried(g0, y, x, my, mx, ny, nx), wn, qn),
    ensures
        walk_before(g0, seq![(y, x)] + wn, seq![(y, x)] + qn),
{
    let gm = tried(g0, y, x, my, mx, ny, nx);
    let w = seq![(y, x)] + wn;
    let q = seq![(y, x)] + qn;
    if wn.len() < qn.len() && wn == qn.take(wn.len() as int) {
        assert(w =~= q.take(w.len() as int));
    } else {
        let k = choose|k: int|
            0 <= k < wn.len() - 1 && k < qn.len() - 1 && wn.take(k + 1) == qn.take(k + 1) && wn[k + 1]
                != qn[k + 1] && #[trigger] move_first(marked(gm, wn.take(k + 1)), wn[k], wn[k + 1], qn[k + 1]);
        lemma_marked_prepend(g0, y, x, my, mx, ny, nx, wn, k);
        assert(w.take(k + 2) =~= seq![(y, x)] + wn.take(k + 1));
        assert(q.take(k + 2) =~= seq![(y, x)] + qn.take(k + 1));
        assert(w[k + 1] == wn[k]);
        assert(w[k + 2] == wn[k + 1]);
        assert(q[k + 2] == qn[k + 1]);
        let kk = k + 1;
        assert(move_first(marked(g0, w.take(kk + 1)), w[kk], w[kk + 1], q[kk + 1]));
    }
}

/// Where the end point is right of the start, the walk that stays there is
/// met first.
pub proof fn lemma_first_walk_here(g0: Seq<Seq<Cell>>, y: int, x: int)
    requires
        in_grid(g0, y, x + 1),
        g0[y][x + 1] == Cell::Node(NodeState::EndPoint),
    ensures
        first_walk(g0, seq![(y, x)]),
{
    let w = seq![(y, x)];
    assert(search_walk(g0, w));
    assert forall|q: Seq<(int, int)>| #[trigger] search_walk(g0, q) && q[0] == w[0] && q != w implies walk_before(g0, w, q) by {
        if q.len() == 1 {
            assert(q =~= w);
        }
        assert(w =~= q.take(1));
    }
}

/// The first walk from the neighbour that the search tried with success,
/// after the tries before it failed, gives the first walk from the start.
pub proof fn lemma_first_walk_extends(
    g0: Seq<Seq<Cell>>,
    y: int,
    x: int,
    my: int,
    mx: int,
    ny: int,
    nx: int,
    ds: Seq<int>,
    i: int,
    wn: Seq<(int, int)>,
)
    requires
        try_geometry(g0, y, x, my, mx, ny, nx),
        framed(g0),
        0 <= i < ds.len(),
        forall|j: int| 0 <= j < ds.len() ==> 0 <= #[trigger] ds[j] < 4,
        is_candidate(g0, y, x, ds[i]),
        (ny, nx) == step(y, x, ds[i]),
        forall|a: int, b: int| 0 <= a < b < ds.len() ==> tried_before(g0, y, x, #[trigger] ds[a], #[trigger] ds[b]),
        forall|e: int| 0 <= e < 4 && #[trigger] is_candidate(g0, y, x, e) ==> ds.contains(e),
        forall|j: int| 0 <= j < i ==> !reach_via(g0, y, x, #[trigger] step(y, x, ds[j])),
        g0[y][x + 1] != Cell::Node(NodeState::EndPoint),
        wn.len() >= 1,
        wn[0] == (ny, nx),
        first_walk(tried(g0, y, x, my, mx, ny, nx), wn),
    ensures
        first_walk(g0, seq![(y, x)] + wn),
{
    let gm = tried(g0, y, x, my, mx, ny, nx);
    let d = ds[i];
    let w = seq![(y, x)] + wn;
    lemma_walk_transfer(g0, y, x, my, mx, ny, nx, d, wn);
    assert(w[0] == (y, x));
    assert forall|q: Seq<(int, int)>| #[trigger] search_walk(g0, q) && q[0] == w[0] && q != w implies walk_before(g0, w, q) by {
        if q.len() == 1 {
            assert(q.last() == (y, x));
        } else {
            let z = 0int;
            assert(cand_step(g0, q[z], q[z + 1]));
            let d2 = choose|d2: int| 0 <= d2 < 4 && #[trigger] is_candidate(g0, y, x, d2) && q[1] == step(y, x, d2);
            if q[1] == (ny, nx) {
                let qn = q.drop_first();
                assert(q =~= seq![(y, x)] + qn);
                lemma_walk_transfer(g0, y, x, my, mx, ny, nx, d, qn);
                assert(qn != wn);
                assert(search_walk(gm, qn) && qn[0] == wn[0]);
                lemma_walk_before_prepend(g0, y, x, my, mx, ny, nx, wn, qn);
            } else {
                assert(ds.contains(d2));
                let j2 = choose|j2: int| 0 <= j2 < ds.len() && ds[j2] == d2;
                if j2 < i {
                    assert(reach_via(g0, y, x, step(y, x, ds[j2])));
                } else {
                    assert(j2 != i);
                    assert(tried_before(g0, y, x, ds[i], ds[j2]));
                    assert(w.take(1) =~= q.take(1));
                    assert(marked(g0, w.take(1)) == g0);
                    assert(w[1] == (ny, nx));
                    assert(move_first(g0, w[z], w[z + 1], q[z + 1]));
                    assert(move_first(marked(g0, w.take(z + 1)), w[z], w[z + 1], q[z + 1]));
                }
            }
        }
    }
}

proof fn lemma_step_injective(y: int, x: int, d1: int, d2: int)
    requires
        0 <= d1 < 4,
        0 <= d2 < 4,
        step(y, x, d1) == step(y, x, d2),
    ensures
        d1 == d2,
{
}

/// No walk comes before another that comes before it.
pub proof fn lemma_walk_before_asymmetric(g0: Seq<Seq<Cell>>, p: Seq<(int, int)>, q: Seq<(int, int)>)
    requires
        walk_before(g0, p, q),
    ensures
        !walk_before(g0, q, p),
{
    if walk_before(g0, q, p) {
        if p.len() < q.len() && p == q.take(p.len() as int) {
            if q.len() < p.len() && q == p.take(q.len() as int) {
            } else {
                let k = choose|k: int|
                    0 <= k < q.len() - 1 && k < p.len() - 1 && q.take(k + 1) == p.take(k + 1) && q[k + 1]
                        != p[k + 1] && #[trigger] move_first(marked(g0, q.take(k + 1)), q[k], q[k + 1], p[k + 1]);
                assert(p[k + 1] == q.take(p.len() as int)[k + 1]);
            }
        } else {
            let k = choose|k: int|
                0 <= k < p.len() - 1 && k < q.len() - 1 && p.take(k + 1) == q.take(k + 1) && p[k + 1]
                    != q[k + 1] && #[trigger] move_first(marked(g0, p.take(k + 1)), p[k], p[k + 1], q[k + 1]);
            if q.len() < p.len() && q == p.take(q.len() as int) {
                assert(q[k + 1] == p.take(q.len() as int)[k + 1]);
            } else {
                let k2 = choose|k2: int|
                    0 <= k2 < q.len() - 1 && k2 < p.len() - 1 && q.take(k2 + 1) == p.take(k2 + 1) && q[k2 + 1]
                        != p[k2 + 1] && #[trigger] move_first(marked(g0, q.take(k2 + 1)), q[k2], q[k2 + 1], p[k2 + 1]);
                if k2 < k {
                    assert(p[k2 + 1] == p.take(k + 1)[k2 + 1]);
                    assert(q[k2 + 1] == q.take(k + 1)[k2 + 1]);
                } else if k < k2 {
                    assert(p[k + 1] == p.take(k2 + 1)[k + 1]);
                    assert(q[k + 1] == q.take(k2 + 1)[k + 1]);
                } else {
                    assert(p[k] == p.take(k + 1)[k]);
                    assert(q[k] == q.take(k + 1)[k]);
                    let gk = marked(g0, p.take(k + 1));
                    let a = p[k];
                    let (d1, d2) = choose|d1: int, d2: int|
                        0 <= d1 < 4 && 0 <= d2 < 4 && p[k + 1] == step(a.0, a.1, d1) && q[k + 1] == step(a.0, a.1, d2)
                            && #[trigger] tried_before(gk, a.0, a.1, d1, d2);
                    let (e1, e2) = choose|e1: int, e2: int|
                        0 <= e1 < 4 && 0 <= e2 < 4 && q[k + 1] == step(a.0, a.1, e1) && p[k + 1] == step(a.0, a.1, e2)
                            && #[trigger] tried_before(gk, a.0, a.1, e1, e2);
                    lemma_step_injective(a.0, a.1, d1, e2);
                    lemma_step_injective(a.0, a.1, d2, e1);
                }
            }
        }
    }
}

/// Two walks from the same cell that the search meets first are the same
/// walk: the first walk, and so what the solver leaves on success, is
/// determined.
pub proof fn lemma_first_walk_unique(g0: Seq<Seq<Cell>>, w1: Seq<(int, int)>, w2: Seq<(int, int)>)
    requires
        first_walk(g0, w1),
        first_walk(g0, w2),
        w1[0] == w2[0],
    ensures
        w1 == w2,
{
    if w1 != w2 {
        assert(walk_before(g0, w1, w2));
        assert(walk_before(g0, w2, w1));
        lemma_walk_before_asymmetric(g0, w1, w2);
    }
}

} // verus!
