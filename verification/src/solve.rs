//! Backtracking search for a walk to the end point, with the animation it
//! draws recorded as frames.
use vstd::prelude::*;
use crate::cell::{Cell, Character, NodeState, WallState};
use crate::generator::{midpoint, no_new_empty, same_class, step, wall_class};
use crate::grid::{
    empty_flag, framed, grid, grid_empties, grid_width, in_grid, in_rect, is_empty_node, put,
    same_shape, set_cell, two_apart,
};
use crate::reach::{
    can_reach_end, first_walk, lemma_first_walk_extends, lemma_first_walk_here,
    lemma_marked_prepend, lemma_no_walk, lemma_reach_via_marked, marked, reach_via, search_walk,
    tried, try_geometry,
};
use crate::solver::{
    calculate_heuristic_score_for_position, interior, is_candidate, moves_inside, passable,
    ranked_moves, tried_before,
};

verus! {

/// The ranked moves from `(y, x)`: the one list that `ranked_moves` allows.
pub open spec fn ranked(g: Seq<Seq<Cell>>, y: int, x: int) -> Seq<(usize, usize)> {
    (choose|p: (Seq<(usize, usize)>, Seq<int>)| #[trigger] ranked_moves(g, y, x, p.0, p.1)).0
}

proof fn lemma_ds_prefix(
    g: Seq<Seq<Cell>>,
    y: int,
    x: int,
    r1: Seq<(usize, usize)>,
    ds1: Seq<int>,
    r2: Seq<(usize, usize)>,
    ds2: Seq<int>,
    n: int,
)
    requires
        ranked_moves(g, y, x, r1, ds1),
        ranked_moves(g, y, x, r2, ds2),
        0 <= n <= ds1.len(),
        n <= ds2.len(),
    ensures
        forall|i: int| 0 <= i < n ==> ds1[i] == ds2[i],
    decreases n,
{
    if n > 0 {
        lemma_ds_prefix(g, y, x, r1, ds1, r2, ds2, n - 1);
        let i = n - 1;
        let a = ds1[i];
        let b = ds2[i];
        assert(0 <= ds1[i] < 4 && is_candidate(g, y, x, a));
        assert(0 <= ds2[i] < 4 && is_candidate(g, y, x, b));
        assert(ds2.contains(a));
        assert(ds1.contains(b));
        let j = choose|j: int| 0 <= j < ds2.len() && ds2[j] == a;
        let k = choose|k: int| 0 <= k < ds1.len() && ds1[k] == b;
        if j < i {
            assert(ds1[j] == ds2[j]);
            assert(tried_before(g, y, x, ds1[j], ds1[i]));
        } else if k < i {
            assert(ds1[k] == ds2[k]);
            assert(tried_before(g, y, x, ds2[k], ds2[i]));
        } else if j > i && k > i {
            assert(tried_before(g, y, x, ds1[i], ds1[k]));
            assert(tried_before(g, y, x, ds2[i], ds2[j]));
        }
    }
}

/// Two lists of ranked moves from one cell are the same list.
pub proof fn lemma_ranked_unique(
    g: Seq<Seq<Cell>>,
    y: int,
    x: int,
    r1: Seq<(usize, usize)>,
    ds1: Seq<int>,
    r2: Seq<(usize, usize)>,
    ds2: Seq<int>,
)
    requires
        ranked_moves(g, y, x, r1, ds1),
        ranked_moves(g, y, x, r2, ds2),
    ensures
        r1 == r2,
{
    if ds1.len() < ds2.len() {
        lemma_ds_prefix(g, y, x, r1, ds1, r2, ds2, ds1.len() as int);
        let d = ds2[ds1.len() as int];
        assert(0 <= ds2[ds1.len() as int] < 4 && is_candidate(g, y, x, d));
        assert(ds1.contains(d));
        let k = choose|k: int| 0 <= k < ds1.len() && ds1[k] == d;
        assert(ds1[k] == ds2[k]);
        assert(tried_before(g, y, x, ds2[k], ds2[ds1.len() as int]));
    } else if ds2.len() < ds1.len() {
        lemma_ds_prefix(g, y, x, r1, ds1, r2, ds2, ds2.len() as int);
        let d = ds1[ds2.len() as int];
        assert(0 <= ds1[ds2.len() as int] < 4 && is_candidate(g, y, x, d));
        assert(ds2.contains(d));
        let k = choose|k: int| 0 <= k < ds2.len() && ds2[k] == d;
        assert(ds1[k] == ds2[k]);
        assert(tried_before(g, y, x, ds1[k], ds1[ds2.len() as int]));
    } else {
        lemma_ds_prefix(g, y, x, r1, ds1, r2, ds2, ds1.len() as int);
        assert forall|i: int| 0 <= i < r1.len() implies r1[i] == r2[i] by {
            assert(0 <= ds1[i] < 4);
            assert(0 <= ds2[i] < 4);
        }
        assert(r1 =~= r2);
    }
}

/// One picture of the solver's animation: cell `(y, x)` now holds `cell`,
/// and the picture stays on screen for `pause_ms` milliseconds.
#[derive(PartialEq, Eq, Structural, Clone, Copy, Debug)]
pub struct Frame {
    pub y: usize,
    pub x: usize,
    pub cell: Cell,
    pub pause_ms: u64,
}

/// The grid after the frames `fs` are played, in order, on `g`.
pub open spec fn replay(g: Seq<Seq<Cell>>, fs: Seq<Frame>) -> Seq<Seq<Cell>>
    decreases fs.len(),
{
    if fs.len() == 0 {
        g
    } else {
        let f = fs.last();
        put(replay(g, fs.drop_last()), f.y as int, f.x as int, f.cell)
    }
}

pub proof fn lemma_replay_concat(g: Seq<Seq<Cell>>, a: Seq<Frame>, b: Seq<Frame>)
    ensures
        replay(g, a + b) == replay(replay(g, a), b),
    decreases b.len(),
{
    if b.len() == 0 {
        assert(a + b =~= a);
    } else {
        assert((a + b).drop_last() =~= a + b.drop_last());
        assert((a + b).last() == b.last());
        lemma_replay_concat(g, a, b.drop_last());
    }
}

/// `fs` extends `f0`, and playing what it adds on `g0` gives `g1`.
pub open spec fn animates(f0: Seq<Frame>, fs: Seq<Frame>, g0: Seq<Seq<Cell>>, g1: Seq<Seq<Cell>>) -> bool {
    &&& fs.len() >= f0.len()
    &&& fs.take(f0.len() as int) == f0
    &&& replay(g0, fs.skip(f0.len() as int)) == g1
}

proof fn lemma_animates_trans(
    f0: Seq<Frame>,
    fb: Seq<Frame>,
    fa: Seq<Frame>,
    g0: Seq<Seq<Cell>>,
    gm: Seq<Seq<Cell>>,
    g2: Seq<Seq<Cell>>,
)
    requires
        animates(f0, fb, g0, gm),
        animates(fb, fa, gm, g2),
    ensures
        animates(f0, fa, g0, g2),
{
    assert(fa.take(f0.len() as int) =~= fb.take(f0.len() as int));
    assert(fa.skip(f0.len() as int) =~= fb.skip(f0.len() as int) + fa.skip(fb.len() as int));
    lemma_replay_concat(g0, fb.skip(f0.len() as int), fa.skip(fb.len() as int));
}

proof fn lemma_animates_push(f0: Seq<Frame>, fb: Seq<Frame>, g0: Seq<Seq<Cell>>, gm: Seq<Seq<Cell>>, fr: Frame)
    requires
        animates(f0, fb, g0, gm),
    ensures
        animates(f0, fb.push(fr), g0, put(gm, fr.y as int, fr.x as int, fr.cell)),
{
    let s = fb.push(fr).skip(f0.len() as int);
    assert(fb.push(fr).take(f0.len() as int) =~= fb.take(f0.len() as int));
    assert(s.drop_last() =~= fb.skip(f0.len() as int));
    assert(s.last() == fr);
}

/// The three frames of a try from `a.(y, x)` to `c.(y, x)`: the start
/// visited, the wall between passed, the neighbour holding the computer.
pub open spec fn try_frames(a: Frame, b: Frame, c: Frame) -> bool {
    &&& two_apart((a.y as int, a.x as int), (c.y as int, c.x as int))
    &&& b.y == (a.y + c.y) / 2 && b.x == (a.x + c.x) / 2
    &&& a.cell == Cell::Node(NodeState::Visited) && a.pause_ms == 12
    &&& b.cell == Cell::Wall(WallState::Passed) && b.pause_ms == 12
    &&& c.cell == Cell::Character(Character::Computer) && c.pause_ms == 25
}

/// The three frames that put back the cells of a failed try: the start, the
/// wall between and the neighbour, which was an empty node.
pub open spec fn undo_frames(a: Frame, b: Frame, c: Frame) -> bool {
    &&& two_apart((a.y as int, a.x as int), (c.y as int, c.x as int))
    &&& b.y == (a.y + c.y) / 2 && b.x == (a.x + c.x) / 2
    &&& a.pause_ms == 12 && b.pause_ms == 12 && c.pause_ms == 12
    &&& c.cell == Cell::Node(NodeState::Empty)
}

/// `fs` is made of whole tries and undos, three frames each.
pub open spec fn paced(fs: Seq<Frame>) -> bool
    decreases fs.len(),
{
    if fs.len() == 0 {
        true
    } else {
        &&& fs.len() >= 3
        &&& try_frames(fs[0], fs[1], fs[2]) || undo_frames(fs[0], fs[1], fs[2])
        &&& paced(fs.skip(3))
    }
}

proof fn lemma_paced_concat(a: Seq<Frame>, b: Seq<Frame>)
    requires
        paced(a),
        paced(b),
    ensures
        paced(a + b),
    decreases a.len(),
{
    if a.len() == 0 {
        assert(a + b =~= b);
    } else {
        assert((a + b).skip(3) =~= a.skip(3) + b);
        lemma_paced_concat(a.skip(3), b);
    }
}

proof fn lemma_paced_triple(a: Frame, b: Frame, c: Frame)
    requires
        try_frames(a, b, c) || undo_frames(a, b, c),
    ensures
        paced(seq![a, b, c]),
{
    let t = seq![a, b, c];
    assert(t.skip(3) =~= Seq::<Frame>::empty());
    assert(paced(t.skip(3)));
    assert(t[0] == a && t[1] == b && t[2] == c);
}

/// Writes the frame's cell into the maze and records the frame.
fn paint(maze: &mut Vec<Vec<Cell>>, frames: &mut Vec<Frame>, fr: Frame)
    requires
        in_grid(grid(old(maze)), fr.y as int, fr.x as int),
    ensures
        grid(final(maze)) == put(grid(old(maze)), fr.y as int, fr.x as int, fr.cell),
        final(frames)@ == old(frames)@.push(fr),
        grid_empties(grid(final(maze))) + empty_flag(grid(old(maze))[fr.y as int][fr.x as int])
            == grid_empties(grid(old(maze))) + empty_flag(fr.cell),
{
    set_cell(maze, fr.y, fr.x, fr.cell);
    frames.push(fr);
}

/// One step of a walk, from `a` to `b`: two cells apart through a passed
/// wall, leaving a visited node.
pub open spec fn step_ok(g: Seq<Seq<Cell>>, a: (int, int), b: (int, int)) -> bool {
    &&& two_apart(a, b)
    &&& g[(a.0 + b.0) / 2][(a.1 + b.1) / 2] == Cell::Wall(WallState::Passed)
    &&& g[a.0][a.1] == Cell::Node(NodeState::Visited)
}

/// `p` is a walk, as `(row, column)` cells, from `(y, x)` to a cell with the
/// end point on its right: each step goes two cells through a passed wall,
/// every cell it leaves is a visited node, and the computer stands on its
/// last cell when it has moved at all.
pub open spec fn solution_path(g: Seq<Seq<Cell>>, y: int, x: int, p: Seq<(int, int)>) -> bool {
    &&& p.len() >= 1
    &&& p[0] == (y, x)
    &&& forall|i: int| 0 <= i < p.len() ==> in_grid(g, #[trigger] p[i].0, p[i].1)
    &&& forall|i: int| 0 <= i < p.len() - 1 ==> #[trigger] step_ok(g, p[i], p[i + 1])
    &&& p.len() > 1 ==> g[p.last().0][p.last().1] == Cell::Character(Character::Computer)
    &&& in_grid(g, p.last().0, p.last().1 + 1)
    &&& g[p.last().0][p.last().1 + 1] == Cell::Node(NodeState::EndPoint)
}

/// `p` is a walk from `(y, x)` in `g1`, and where it has no step, the
/// search left `(y, x)` as it was in `g0`.
pub open spec fn found_walk(g0: Seq<Seq<Cell>>, g1: Seq<Seq<Cell>>, y: int, x: int, p: Seq<(int, int)>) -> bool {
    &&& solution_path(g1, y, x, p)
    &&& p.len() == 1 ==> g1[y][x] == g0[y][x]
}

/// Every cell that the search from `(y, x)` changed is its start, now
/// visited; an empty node of its class, now visited or holding the computer;
/// or a wall cell between two such that was not closed, now passed.
pub open spec fn solver_changes(g0: Seq<Seq<Cell>>, g1: Seq<Seq<Cell>>, y: int, x: int) -> bool {
    forall|a: int, b: int|
        in_grid(g0, a, b) && #[trigger] g1[a][b] != g0[a][b] ==> {
            ||| a == y && b == x && g1[a][b] == Cell::Node(NodeState::Visited)
            ||| same_class(a, b, y, x) && is_empty_node(g0[a][b]) && (g1[a][b] == Cell::Node(
                NodeState::Visited,
            ) || g1[a][b] == Cell::Character(Character::Computer))
            ||| wall_class(a, b, y, x) && g0[a][b] != Cell::Wall(WallState::Closed) && g1[a][b]
                == Cell::Wall(WallState::Passed)
        }
}

proof fn lemma_framed_persists(g0: Seq<Seq<Cell>>, g1: Seq<Seq<Cell>>)
    requires
        framed(g0),
        same_shape(g1, g0),
        no_new_empty(g0, g1),
    ensures
        framed(g1),
{
    assert(g1[0].len() == g0[0].len());
    assert forall|r: int| 0 <= r < g1.len() implies #[trigger] g1[r].len() >= g1[0].len() by {
        assert(g0[r].len() >= g0[0].len());
    }
    assert forall|a: int, b: int|
        in_rect(g1, a, b) && is_empty_node(#[trigger] g1[a][b]) implies 1 <= a < g1.len() - 1 && 1
            <= b < grid_width(g1) - 1 by {
        assert(g0[a].len() >= g0[0].len());
        assert(in_grid(g0, a, b));
        assert(is_empty_node(g0[a][b]));
    }
}

proof fn lemma_grid_ext(a: Seq<Seq<Cell>>, b: Seq<Seq<Cell>>)
    requires
        same_shape(a, b),
        forall|r: int, c: int| in_grid(a, r, c) ==> #[trigger] a[r][c] == b[r][c],
    ensures
        a == b,
{
    assert forall|r: int| 0 <= r < a.len() implies #[trigger] a[r] == b[r] by {
        assert(a[r] =~= b[r]);
    }
    assert(a =~= b);
}

proof fn lemma_try_effects(
    g0: Seq<Seq<Cell>>,
    y: int,
    x: int,
    my: int,
    mx: int,
    ny: int,
    nx: int,
)
    requires
        try_geometry(g0, y, x, my, mx, ny, nx),
    ensures
        same_shape(tried(g0, y, x, my, mx, ny, nx), g0),
        no_new_empty(g0, tried(g0, y, x, my, mx, ny, nx)),
        solver_changes(g0, tried(g0, y, x, my, mx, ny, nx), y, x),
        same_class(ny, nx, y, x),
        wall_class(my, mx, ny, nx),
        !same_class(my, mx, ny, nx),
        !wall_class(y, x, ny, nx),
{
    let gm = tried(g0, y, x, my, mx, ny, nx);
    assert forall|a: int, b: int|
        in_grid(g0, a, b) && #[trigger] gm[a][b] != g0[a][b] implies {
            ||| a == y && b == x && gm[a][b] == Cell::Node(NodeState::Visited)
            ||| same_class(a, b, y, x) && is_empty_node(g0[a][b]) && (gm[a][b] == Cell::Node(
                NodeState::Visited,
            ) || gm[a][b] == Cell::Character(Character::Computer))
            ||| wall_class(a, b, y, x) && g0[a][b] != Cell::Wall(WallState::Closed) && gm[a][b]
                == Cell::Wall(WallState::Passed)
        } by {}
}

/// Prepending `(y, x)` to a walk from its neighbour gives a walk from it.
proof fn lemma_path_extends(
    g3: Seq<Seq<Cell>>,
    y: int,
    x: int,
    ny: int,
    nx: int,
    q: Seq<(int, int)>,
)
    requires
        in_grid(g3, y, x),
        two_apart((y, x), (ny, nx)),
        g3[y][x] == Cell::Node(NodeState::Visited),
        in_grid(g3, (y + ny) / 2, (x + nx) / 2),
        g3[(y + ny) / 2][(x + nx) / 2] == Cell::Wall(WallState::Passed),
        solution_path(g3, ny, nx, q),
        q.len() == 1 ==> g3[ny][nx] == Cell::Character(Character::Computer),
    ensures
        solution_path(g3, y, x, seq![(y, x)] + q),
{
    let p = seq![(y, x)] + q;
    assert(p[0] == (y, x));
    assert(p.last() == q.last());
    assert forall|k: int| 0 <= k < p.len() implies in_grid(g3, #[trigger] p[k].0, p[k].1) by {
        if k > 0 {
            assert(p[k] == q[k - 1]);
        }
    }
    assert forall|k: int| 0 <= k < p.len() - 1 implies #[trigger] step_ok(g3, p[k], p[k + 1]) by {
        if k > 0 {
            assert(p[k] == q[k - 1]);
            assert(p[k + 1] == q[k]);
            let j = k - 1;
            assert(step_ok(g3, q[j], q[j + 1]));
        } else {
            assert(p[1] == q[0]);
        }
    }
}

/// The changes of a try, followed by those of the search from the
/// neighbour, are changes of the search from `(y, x)`.
proof fn lemma_try_changes(
    g0: Seq<Seq<Cell>>,
    g3: Seq<Seq<Cell>>,
    y: int,
    x: int,
    my: int,
    mx: int,
    ny: int,
    nx: int,
)
    requires
        try_geometry(g0, y, x, my, mx, ny, nx),
        same_shape(g3, tried(g0, y, x, my, mx, ny, nx)),
        solver_changes(tried(g0, y, x, my, mx, ny, nx), g3, ny, nx),
    ensures
        solver_changes(g0, g3, y, x),
        no_new_empty(g0, g3),
        g3[y][x] == Cell::Node(NodeState::Visited),
        g3[my][mx] == Cell::Wall(WallState::Passed),
{
    let gm = tried(g0, y, x, my, mx, ny, nx);
    lemma_try_effects(g0, y, x, my, mx, ny, nx);
    assert(g3[y][x] == Cell::Node(NodeState::Visited)) by {
        if g3[y][x] != gm[y][x] {
            assert(in_grid(gm, y, x));
        }
    }
    assert(g3[my][mx] == Cell::Wall(WallState::Passed)) by {
        if g3[my][mx] != gm[my][mx] {
            assert(in_grid(gm, my, mx));
        }
    }
    assert forall|a: int, b: int| in_grid(g0, a, b) && #[trigger] g3[a][b] != g0[a][b] implies {
        ||| a == y && b == x && g3[a][b] == Cell::Node(NodeState::Visited)
        ||| same_class(a, b, y, x) && is_empty_node(g0[a][b]) && (g3[a][b] == Cell::Node(
            NodeState::Visited,
        ) || g3[a][b] == Cell::Character(Character::Computer))
        ||| wall_class(a, b, y, x) && g0[a][b] != Cell::Wall(WallState::Closed) && g3[a][b]
            == Cell::Wall(WallState::Passed)
    } by {
        assert(in_grid(gm, a, b));
        if g3[a][b] != gm[a][b] {
            if a == ny && b == nx {
            } else if same_class(a, b, ny, nx) && is_empty_node(gm[a][b]) {
                assert(gm[a][b] == g0[a][b]);
            } else if !(a == my && b == mx) {
                assert(gm[a][b] == g0[a][b]);
            }
        }
    }
    assert forall|a: int, b: int|
        in_grid(g0, a, b) && is_empty_node(#[trigger] g3[a][b]) implies is_empty_node(g0[a][b]) by {
        assert(in_grid(gm, a, b));
    }
}

/// A search from the neighbour that found a walk gives one from `(y, x)`.
proof fn lemma_try_succeeds(
    g0: Seq<Seq<Cell>>,
    g3: Seq<Seq<Cell>>,
    y: int,
    x: int,
    my: int,
    mx: int,
    ny: int,
    nx: int,
)
    requires
        try_geometry(g0, y, x, my, mx, ny, nx),
        framed(g0),
        same_shape(g3, tried(g0, y, x, my, mx, ny, nx)),
        solver_changes(tried(g0, y, x, my, mx, ny, nx), g3, ny, nx),
        exists|q: Seq<(int, int)>|
            found_walk(tried(g0, y, x, my, mx, ny, nx), g3, ny, nx, q),
    ensures
        same_shape(g3, g0),
        framed(g3),
        solver_changes(g0, g3, y, x),
        exists|p: Seq<(int, int)>| found_walk(g0, g3, y, x, p),
{
    lemma_try_effects(g0, y, x, my, mx, ny, nx);
    lemma_try_changes(g0, g3, y, x, my, mx, ny, nx);
    let q = choose|q: Seq<(int, int)>| found_walk(tried(g0, y, x, my, mx, ny, nx), g3, ny, nx, q);
    lemma_path_extends(g3, y, x, ny, nx, q);
    assert(found_walk(g0, g3, y, x, seq![(y, x)] + q));
    lemma_framed_persists(g0, g3);
}

/// Putting back the three cells of a failed try gives the grid before it.
proof fn lemma_try_undone(
    g0: Seq<Seq<Cell>>,
    y: int,
    x: int,
    my: int,
    mx: int,
    ny: int,
    nx: int,
)
    requires
        try_geometry(g0, y, x, my, mx, ny, nx),
    ensures
        put(
            put(put(tried(g0, y, x, my, mx, ny, nx), y, x, g0[y][x]), my, mx, g0[my][mx]),
            ny,
            nx,
            g0[ny][nx],
        ) == g0,
{
    let g4 = put(
        put(put(tried(g0, y, x, my, mx, ny, nx), y, x, g0[y][x]), my, mx, g0[my][mx]),
        ny,
        nx,
        g0[ny][nx],
    );
    assert forall|r: int, c: int| in_grid(g4, r, c) implies #[trigger] g4[r][c] == g0[r][c] by {}
    lemma_grid_ext(g4, g0);
}

/// The search from the neighbour found a walk: so did the search from the
/// start, and it leaves the first one marked.
proof fn lemma_found_through(
    g0: Seq<Seq<Cell>>,
    g3: Seq<Seq<Cell>>,
    y: int,
    x: int,
    my: int,
    mx: int,
    ny: int,
    nx: int,
    ds: Seq<int>,
    i: int,
)
    requires
        try_geometry(g0, y, x, my, mx, ny, nx),
        framed(g0),
        0 <= i < ds.len(),
        forall|j: int| 0 <= j < ds.len() ==> 0 <= #[trigger] ds[j] < 4,
        is_candidate(g0, y, x, ds[i]),
        (ny, nx) == step(y, x, ds[i]),
        forall|a: int, b: int| 0 <= a < b < ds.len() ==> tried_before(g0, y, x, #[trigger] ds[a], #[trigger] ds[b]),
        forall|e: int| 0 <= e < 4 && #[trigger] is_candidate(g0, y, x, e) ==> ds.contains(e),
        forall|j: int| 0 <= j < i ==> !reach_via(g0, y, x, #[trigger] step(y, x, ds[j])),
        g0[y][x + 1] != Cell::Node(NodeState::EndPoint),
        same_shape(g3, tried(g0, y, x, my, mx, ny, nx)),
        solver_changes(tried(g0, y, x, my, mx, ny, nx), g3, ny, nx),
        can_reach_end(tried(g0, y, x, my, mx, ny, nx), ny, nx),
        exists|q: Seq<(int, int)>| found_walk(tried(g0, y, x, my, mx, ny, nx), g3, ny, nx, q),
        exists|wn: Seq<(int, int)>|
            wn[0] == (ny, nx) && first_walk(tried(g0, y, x, my, mx, ny, nx), wn) && g3 == marked(
                tried(g0, y, x, my, mx, ny, nx),
                wn,
            ),
    ensures
        same_shape(g3, g0),
        framed(g3),
        solver_changes(g0, g3, y, x),
        can_reach_end(g0, y, x),
        exists|p: Seq<(int, int)>| found_walk(g0, g3, y, x, p),
        exists|w: Seq<(int, int)>| w[0] == (y, x) && first_walk(g0, w) && g3 == marked(g0, w),
{
    let gm = tried(g0, y, x, my, mx, ny, nx);
    let d = ds[i];
    lemma_try_succeeds(g0, g3, y, x, my, mx, ny, nx);
    lemma_reach_via_marked(g0, y, x, my, mx, ny, nx, d);
    let p = choose|p: Seq<(int, int)>| search_walk(g0, p) && p[0] == (y, x) && p.len() >= 2 && p[1] == (ny, nx);
    assert(search_walk(g0, p) && p[0] == (y, x));
    let wn = choose|wn: Seq<(int, int)>| wn[0] == (ny, nx) && first_walk(gm, wn) && g3 == marked(gm, wn);
    lemma_first_walk_extends(g0, y, x, my, mx, ny, nx, ds, i, wn);
    lemma_marked_prepend(g0, y, x, my, mx, ny, nx, wn, wn.len() - 1);
    let w = seq![(y, x)] + wn;
    assert(wn.take(wn.len() as int) =~= wn);
    assert(w.take(wn.len() as int + 1) =~= w);
    assert(w[0] == (y, x) && first_walk(g0, w) && g3 == marked(g0, w));
}

/// The three frames of the try from `(y, x)` to `(ny, nx)`.
pub open spec fn try_triple(y: int, x: int, ny: int, nx: int) -> Seq<Frame> {
    seq![
        Frame { y: y as usize, x: x as usize, cell: Cell::Node(NodeState::Visited), pause_ms: 12 },
        Frame {
            y: ((y + ny) / 2) as usize,
            x: ((x + nx) / 2) as usize,
            cell: Cell::Wall(WallState::Passed),
            pause_ms: 12,
        },
        Frame { y: ny as usize, x: nx as usize, cell: Cell::Character(Character::Computer), pause_ms: 25 },
    ]
}

/// The three frames that put back the cells of `g` that the try from
/// `(y, x)` to `(ny, nx)` wrote.
pub open spec fn undo_triple(g: Seq<Seq<Cell>>, y: int, x: int, ny: int, nx: int) -> Seq<Frame> {
    let my = (y + ny) / 2;
    let mx = (x + nx) / 2;
    seq![
        Frame { y: y as usize, x: x as usize, cell: g[y][x], pause_ms: 12 },
        Frame { y: my as usize, x: mx as usize, cell: g[my][mx], pause_ms: 12 },
        Frame { y: ny as usize, x: nx as usize, cell: g[ny][nx], pause_ms: 12 },
    ]
}

/// The search from `(y, x)` on `g`: whether it finds a walk, the frames it
/// records and the maze it leaves. `fuel` bounds the depth; with more fuel
/// than empty nodes it never runs out.
pub open spec fn solve_run(g: Seq<Seq<Cell>>, y: int, x: int, fuel: nat) -> (bool, Seq<Frame>, Seq<Seq<Cell>>)
    decreases fuel, 1int, 0int,
{
    if fuel == 0 {
        (false, Seq::empty(), g)
    } else if g[y][x + 1] == Cell::Node(NodeState::EndPoint) {
        (true, Seq::empty(), g)
    } else {
        solve_loop(g, y, x, ranked(g, y, x), 0, fuel)
    }
}

/// The search at `(y, x)` from its `i`-th ranked move on.
pub open spec fn solve_loop(
    g: Seq<Seq<Cell>>,
    y: int,
    x: int,
    rl: Seq<(usize, usize)>,
    i: int,
    fuel: nat,
) -> (bool, Seq<Frame>, Seq<Seq<Cell>>)
    decreases fuel, 0int, rl.len() - i,
{
    if i < 0 || i >= rl.len() || fuel == 0 {
        (false, Seq::empty(), g)
    } else {
        let nx = rl[i].0 as int;
        let ny = rl[i].1 as int;
        let my = (y + ny) / 2;
        let mx = (x + nx) / 2;
        let gm = tried(g, y, x, my, mx, ny, nx);
        let (found, fs, g3) = solve_run(gm, ny, nx, (fuel - 1) as nat);
        if found {
            (true, try_triple(y, x, ny, nx) + fs, g3)
        } else {
            let g6 = put(put(put(g3, y, x, g[y][x]), my, mx, g[my][mx]), ny, nx, g[ny][nx]);
            let (found2, fs2, g7) = solve_loop(g6, y, x, rl, i + 1, fuel);
            (found2, try_triple(y, x, ny, nx) + fs + undo_triple(g, y, x, ny, nx) + fs2, g7)
        }
    }
}

/// `r` with the frames `acc` recorded before its own.
pub open spec fn after_frames(acc: Seq<Frame>, r: (bool, Seq<Frame>, Seq<Seq<Cell>>)) -> (
    bool,
    Seq<Frame>,
    Seq<Seq<Cell>>,
) {
    (r.0, acc + r.1, r.2)
}

/// What the search from `(y, x)` gives, with fuel enough.
pub open spec fn solve_result(g: Seq<Seq<Cell>>, y: int, x: int) -> (bool, Seq<Frame>, Seq<Seq<Cell>>) {
    solve_run(g, y, x, grid_empties(g) + 1)
}

/// Searches from `(y, x)` for a walk to a cell whose right neighbour is the
/// end point. Stops at once where `(y, x)` is such a cell. Otherwise tries the
/// neighbours that `calculate_heuristic_score_for_position` ranks, in its
/// order: marks `(y, x)` visited, the wall between passed and the neighbour
/// with the computer, and searches on from there; where that fails, puts the
/// three cells back. Every write is also recorded in `frames`, for the
/// animation.
///
/// Unless it stops at once, the maze must be `framed`: no empty node on the
/// border, so the closed walls around every neighbour the search moves to
/// can be counted without reading past the maze. That is enough for every
/// read to stay inside the maze, and every maze the game sets up is framed
/// (`lemma_generated_maze_solvable`). The exact condition would depend on
/// which cells the search reaches.
#[verifier::rlimit(80)]
pub fn solve_maze(x: usize, y: usize, maze: &mut Vec<Vec<Cell>>, frames: &mut Vec<Frame>) -> (solved: bool)
    requires
        in_grid(grid(old(maze)), y as int, x as int + 1),
        grid(old(maze))[y as int][x as int + 1] == Cell::Node(NodeState::EndPoint) || framed(
            grid(old(maze)),
        ),
    ensures
        same_shape(grid(final(maze)), grid(old(maze))),
        framed(grid(old(maze))) ==> framed(grid(final(maze))),
        animates(old(frames)@, final(frames)@, grid(old(maze)), grid(final(maze))),
        paced(final(frames)@.skip(old(frames)@.len() as int)),
        grid(old(maze))[y as int][x as int + 1] == Cell::Node(NodeState::EndPoint) ==> solved
            && grid(final(maze)) == grid(old(maze)) && final(frames)@ == old(frames)@,
        (solved, final(frames)@.skip(old(frames)@.len() as int), grid(final(maze))) == solve_result(
            grid(old(maze)),
            y as int,
            x as int,
        ),
        forall|f: nat|
            f > grid_empties(grid(old(maze))) ==> #[trigger] solve_run(grid(old(maze)), y as int, x as int, f)
                == (solved, final(frames)@.skip(old(frames)@.len() as int), grid(final(maze))),
        solver_changes(grid(old(maze)), grid(final(maze)), y as int, x as int),
        solved == can_reach_end(grid(old(maze)), y as int, x as int),
        !solved ==> grid(final(maze)) == grid(old(maze)),
        solved ==> exists|p: Seq<(int, int)>|
            found_walk(grid(old(maze)), grid(final(maze)), y as int, x as int, p),
        solved ==> exists|w: Seq<(int, int)>|
            w[0] == (y as int, x as int) && first_walk(grid(old(maze)), w) && grid(final(maze))
                == marked(grid(old(maze)), w),
    decreases grid_empties(grid(old(maze))),
{
    let ghost g0 = grid(maze);
    let ghost f0 = frames@;
    assert(maze@[y as int]@ == g0[y as int]);
    assert(f0.skip(f0.len() as int) =~= Seq::<Frame>::empty());
    assert(f0.take(f0.len() as int) =~= f0);
    let _row_len = maze[y].len();
    if maze[y][x + 1] == Cell::Node(NodeState::EndPoint) {
        assert(found_walk(g0, g0, y as int, x as int, seq![(y as int, x as int)]));
        assert(search_walk(g0, seq![(y as int, x as int)]));
        proof {
            lemma_first_walk_here(g0, y as int, x as int);
            assert(marked(g0, seq![(y as int, x as int)]) == g0);
        }
        assert(frames@.skip(f0.len() as int) =~= Seq::<Frame>::empty());
        assert forall|f: nat| f > grid_empties(g0) implies #[trigger] solve_run(g0, y as int, x as int, f) == (
        true, frames@.skip(f0.len() as int), grid(maze)) by {}
        let ghost fe: nat = (grid_empties(g0) + 1) as nat;
        assert(solve_run(g0, y as int, x as int, fe) == (true, frames@.skip(f0.len() as int), grid(maze)));
        return true;
    }
    assert(moves_inside(g0, y as int, x as int)) by {
        assert forall|d: int| 0 <= d < 4 && #[trigger] passable(g0, y as int, x as int, d) implies interior(
            g0,
            step(y as int, x as int, d).0,
            step(y as int, x as int, d).1,
        ) by {
            let (ny, nx) = step(y as int, x as int, d);
            assert(in_rect(g0, ny, nx) && is_empty_node(g0[ny][nx]));
        }
    }
    let neighbors = calculate_heuristic_score_for_position(x, y, maze);
    let ghost ds = choose|ds: Seq<int>| ranked_moves(g0, y as int, x as int, neighbors@, ds);
    proof {
        let pr = choose|pr: (Seq<(usize, usize)>, Seq<int>)| #[trigger] ranked_moves(g0, y as int, x as int, pr.0, pr.1);
        assert(ranked_moves(g0, y as int, x as int, (neighbors@, ds).0, (neighbors@, ds).1));
        lemma_ranked_unique(g0, y as int, x as int, pr.0, pr.1, neighbors@, ds);
        assert(neighbors@ == ranked(g0, y as int, x as int));
        assert(frames@.skip(f0.len() as int) =~= Seq::<Frame>::empty());
        assert forall|f: nat| f > grid_empties(g0) implies #[trigger] solve_loop(g0, y as int, x as int, neighbors@, 0, f)
            == after_frames(frames@.skip(f0.len() as int), solve_loop(g0, y as int, x as int, neighbors@, 0, f)) by {
            let r = solve_loop(g0, y as int, x as int, neighbors@, 0, f);
            assert(Seq::<Frame>::empty() + r.1 =~= r.1);
        }
    }
    let mut i: usize = 0;
    while i < neighbors.len()
        invariant
            0 <= i <= neighbors@.len(),
            ranked_moves(g0, y as int, x as int, neighbors@, ds),
            framed(g0),
            in_grid(g0, y as int, x as int + 1),
            grid(maze) == g0,
            g0 == grid(old(maze)),
            animates(f0, frames@, g0, g0),
            paced(frames@.skip(f0.len() as int)),
            f0 == old(frames)@,
            neighbors@ == ranked(g0, y as int, x as int),
            forall|f: nat| f > grid_empties(g0) ==> #[trigger] solve_loop(g0, y as int, x as int, neighbors@, 0, f)
                == after_frames(frames@.skip(f0.len() as int), solve_loop(g0, y as int, x as int, neighbors@, i as int, f)),
            forall|j: int| 0 <= j < i ==> !reach_via(g0, y as int, x as int, #[trigger] step(y as int, x as int, ds[j])),
            g0[y as int][x as int + 1] != Cell::Node(NodeState::EndPoint),
        decreases neighbors@.len() - i,
    {
        let (neighbor_x, neighbor_y) = neighbors[i];
        let ghost d = ds[i as int];
        assert(is_candidate(g0, y as int, x as int, d));
        let ghost n = step(y as int, x as int, d);
        assert(in_rect(g0, n.0, n.1) && is_empty_node(g0[n.0][n.1]));
        assert(interior(g0, n.0, n.1));
        assert(g0[neighbor_y as int].len() >= g0[0].len());
        let middle_x = midpoint(x, neighbor_x);
        let middle_y = midpoint(y, neighbor_y);
        assert(g0[middle_y as int].len() >= g0[0].len());
        let ghost (yy, xx, my, mx, ny, nx) = (y as int, x as int, middle_y as int, middle_x as int, neighbor_y as int, neighbor_x as int);
        assert(try_geometry(g0, yy, xx, my, mx, ny, nx));
        assert(maze@[y as int]@ == g0[y as int]);
        assert(maze@[middle_y as int]@ == g0[middle_y as int]);
        assert(maze@[neighbor_y as int]@ == g0[neighbor_y as int]);
        let old_current = maze[y][x];
        let old_middle = maze[middle_y][middle_x];
        let old_next = maze[neighbor_y][neighbor_x];
        let ghost fs0 = frames@;
        let fr1 = Frame { y, x, cell: Cell::Node(NodeState::Visited), pause_ms: 12 };
        let fr2 = Frame { y: middle_y, x: middle_x, cell: Cell::Wall(WallState::Passed), pause_ms: 12 };
        let fr3 = Frame {
            y: neighbor_y,
            x: neighbor_x,
            cell: Cell::Character(Character::Computer),
            pause_ms: 25,
        };
        paint(maze, frames, fr1);
        let ghost g1 = grid(maze);
        paint(maze, frames, fr2);
        let ghost g2 = grid(maze);
        paint(maze, frames, fr3);
        let ghost gm = grid(maze);
        let ghost fm = frames@;
        proof {
            lemma_animates_push(f0, fs0, g0, g0, fr1);
            lemma_animates_push(f0, fs0.push(fr1), g0, g1, fr2);
            lemma_animates_push(f0, fs0.push(fr1).push(fr2), g0, g2, fr3);
            lemma_try_effects(g0, yy, xx, my, mx, ny, nx);
            lemma_framed_persists(g0, gm);
            assert(fm =~= fs0 + seq![fr1, fr2, fr3]);
            assert(fm.skip(f0.len() as int) =~= fs0.skip(f0.len() as int) + seq![fr1, fr2, fr3]);
            lemma_paced_triple(fr1, fr2, fr3);
            lemma_paced_concat(fs0.skip(f0.len() as int), seq![fr1, fr2, fr3]);
        }
        assert(gm == tried(g0, yy, xx, my, mx, ny, nx));
        assert(grid_empties(gm) < grid_empties(g0));
        assert(seq![fr1, fr2, fr3] == try_triple(yy, xx, ny, nx));
        let found = solve_maze(neighbor_x, neighbor_y, maze, frames);
        let ghost fc = frames@;
        let ghost gc = grid(maze);
        let ghost fsn = fc.skip(fm.len() as int);
        let ghost acc = fs0.skip(f0.len() as int);
        if found {
            proof {
                lemma_animates_trans(f0, fm, frames@, g0, gm, grid(maze));
                lemma_found_through(g0, grid(maze), yy, xx, my, mx, ny, nx, ds, i as int);
            }
            assert(frames@.skip(f0.len() as int) =~= fm.skip(f0.len() as int) + frames@.skip(
                fm.len() as int,
            ));
            proof {
                lemma_paced_concat(fm.skip(f0.len() as int), frames@.skip(fm.len() as int));
                assert forall|f: nat| f > grid_empties(g0) implies #[trigger] solve_run(g0, yy, xx, f) == (
                true, frames@.skip(f0.len() as int), grid(maze)) by {
                    let fm1: nat = (f - 1) as nat;
                    assert(solve_run(gm, ny, nx, fm1) == (true, fsn, gc));
                    assert(solve_loop(g0, yy, xx, neighbors@, i as int, f) == (true, try_triple(
                        yy,
                        xx,
                        ny,
                        nx,
                    ) + fsn, gc));
                    assert(solve_loop(g0, yy, xx, neighbors@, 0, f) == after_frames(
                        acc,
                        solve_loop(g0, yy, xx, neighbors@, i as int, f),
                    ));
                    assert(acc + (try_triple(yy, xx, ny, nx) + fsn) =~= frames@.skip(f0.len() as int));
                }
                let fe: nat = (grid_empties(g0) + 1) as nat;
                assert(solve_run(g0, yy, xx, fe) == (true, frames@.skip(f0.len() as int), grid(maze)));
            }
            return true;
        }
        let fr4 = Frame { y, x, cell: old_current, pause_ms: 12 };
        let fr5 = Frame { y: middle_y, x: middle_x, cell: old_middle, pause_ms: 12 };
        let fr6 = Frame { y: neighbor_y, x: neighbor_x, cell: old_next, pause_ms: 12 };
        paint(maze, frames, fr4);
        let ghost g5 = grid(maze);
        paint(maze, frames, fr5);
        let ghost g6 = grid(maze);
        paint(maze, frames, fr6);
        proof {
            lemma_animates_trans(f0, fm, fc, g0, gm, gm);
            lemma_animates_push(f0, fc, g0, gm, fr4);
            lemma_animates_push(f0, fc.push(fr4), g0, g5, fr5);
            lemma_animates_push(f0, fc.push(fr4).push(fr5), g0, g6, fr6);
            lemma_try_undone(g0, yy, xx, my, mx, ny, nx);
            lemma_reach_via_marked(g0, yy, xx, my, mx, ny, nx, d);
            assert(gm == tried(g0, yy, xx, my, mx, ny, nx));
            assert(old_current == g0[yy][xx]);
            assert(old_middle == g0[my][mx]);
            assert(old_next == g0[ny][nx]);
            let fe = frames@;
            assert(fc.skip(f0.len() as int) =~= fm.skip(f0.len() as int) + fc.skip(fm.len() as int));
            lemma_paced_concat(fm.skip(f0.len() as int), fc.skip(fm.len() as int));
            assert(fe =~= fc + seq![fr4, fr5, fr6]);
            assert(fe.skip(f0.len() as int) =~= fc.skip(f0.len() as int) + seq![fr4, fr5, fr6]);
            lemma_paced_triple(fr4, fr5, fr6);
            lemma_paced_concat(fc.skip(f0.len() as int), seq![fr4, fr5, fr6]);
            assert(seq![fr4, fr5, fr6] == undo_triple(g0, yy, xx, ny, nx));
            let tt = try_triple(yy, xx, ny, nx) + fsn + undo_triple(g0, yy, xx, ny, nx);
            assert(fe.skip(f0.len() as int) =~= acc + tt);
            assert(put(put(put(gc, yy, xx, g0[yy][xx]), my, mx, g0[my][mx]), ny, nx, g0[ny][nx]) == grid(maze));
            assert forall|f: nat| f > grid_empties(g0) implies #[trigger] solve_loop(g0, yy, xx, neighbors@, 0, f)
                == after_frames(fe.skip(f0.len() as int), solve_loop(g0, yy, xx, neighbors@, i as int + 1, f)) by {
                let fm1: nat = (f - 1) as nat;
                assert(solve_run(gm, ny, nx, fm1) == (false, fsn, gc));
                let rest = solve_loop(g0, yy, xx, neighbors@, i as int + 1, f);
                assert(solve_loop(g0, yy, xx, neighbors@, i as int, f) == (rest.0, tt + rest.1, rest.2));
                assert(solve_loop(g0, yy, xx, neighbors@, 0, f) == after_frames(
                    acc,
                    solve_loop(g0, yy, xx, neighbors@, i as int, f),
                ));
                assert(acc + (tt + rest.1) =~= (acc + tt) + rest.1);
            }
        }
        i += 1;
    }
    proof {
        assert forall|d: int| 0 <= d < 4 && #[trigger] is_candidate(g0, y as int, x as int, d) implies !reach_via(
            g0,
            y as int,
            x as int,
            step(y as int, x as int, d),
        ) by {
            assert(ds.contains(d));
            let j = choose|j: int| 0 <= j < ds.len() && ds[j] == d;
            assert(!reach_via(g0, y as int, x as int, step(y as int, x as int, ds[j])));
        }
        lemma_no_walk(g0, y as int, x as int);
        assert forall|f: nat| f > grid_empties(g0) implies #[trigger] solve_run(g0, y as int, x as int, f) == (
        false, frames@.skip(f0.len() as int), grid(maze)) by {
            assert(solve_loop(g0, y as int, x as int, neighbors@, 0, f) == after_frames(
                frames@.skip(f0.len() as int),
                solve_loop(g0, y as int, x as int, neighbors@, i as int, f),
            ));
            assert(frames@.skip(f0.len() as int) + Seq::<Frame>::empty() =~= frames@.skip(f0.len() as int));
        }
        let fe: nat = (grid_empties(g0) + 1) as nat;
        assert(solve_run(g0, y as int, x as int, fe) == (false, frames@.skip(f0.len() as int), grid(maze)));
    }
    false
}

} // verus!
