//! What the answers of the solver's ranking, the picture and the player's
//! moves mean, stated cell by cell.
use vstd::prelude::*;
use crate::cell::{Cell, Character, KeyInput, MoveResult, NodeState, WallState};
use crate::generator::step;
use crate::grid::{in_grid, put, two_apart, well_formed};
use crate::player::{after_move, is_down, is_left, is_right, is_up, player};
use crate::render::{glyph_of, Glyph};
use crate::scan::{first_position, is_first_of, last_position, lemma_first_position};
use crate::solver::{is_candidate, ranked_moves, tried_before};

verus! {

/// The number of rows plus the number of columns between two cells.
pub open spec fn manhattan(a: (int, int), b: (int, int)) -> int {
    (if a.0 >= b.0 { a.0 - b.0 } else { b.0 - a.0 }) + (if a.1 >= b.1 { a.1 - b.1 } else { b.1 - a.1 })
}

/// Where the neighbour `p` of `(y, x)` comes in the order up, down, left,
/// right.
pub open spec fn direction_rank(y: int, x: int, p: (int, int)) -> int {
    if p == (y - 2, x) {
        0
    } else if p == (y + 2, x) {
        1
    } else if p == (y, x - 2) {
        2
    } else {
        3
    }
}

/// The solver tries its moves nearest the end point first: the ranked
/// moves from `(y, x)`, given as `(column, row)`, come sorted by their
/// distance in rows plus columns to the (last) end point, and on equal
/// distances in the order up, down, left, right.
pub proof fn lemma_moves_nearest_first(
    g: Seq<Seq<Cell>>,
    y: int,
    x: int,
    r: Seq<(usize, usize)>,
    ds: Seq<int>,
)
    requires
        ranked_moves(g, y, x, r, ds),
    ensures
        forall|i: int, j: int|
            0 <= i < j < r.len() ==> {
                let e = last_position(g, Cell::Node(NodeState::EndPoint));
                let di = manhattan(e, (#[trigger] r[i].1 as int, r[i].0 as int));
                let dj = manhattan(e, (#[trigger] r[j].1 as int, r[j].0 as int));
                ||| di < dj
                ||| di == dj && direction_rank(y, x, (r[i].1 as int, r[i].0 as int)) < direction_rank(
                    y,
                    x,
                    (r[j].1 as int, r[j].0 as int),
                )
            },
{
    assert forall|i: int, j: int| 0 <= i < j < r.len() implies {
        let e = last_position(g, Cell::Node(NodeState::EndPoint));
        let di = manhattan(e, (#[trigger] r[i].1 as int, r[i].0 as int));
        let dj = manhattan(e, (#[trigger] r[j].1 as int, r[j].0 as int));
        ||| di < dj
        ||| di == dj && direction_rank(y, x, (r[i].1 as int, r[i].0 as int)) < direction_rank(
            y,
            x,
            (r[j].1 as int, r[j].0 as int),
        )
    } by {
        assert(0 <= ds[i] < 4);
        assert(0 <= ds[j] < 4);
        assert(tried_before(g, y, x, ds[i], ds[j]));
        assert(direction_rank(y, x, step(y, x, ds[i])) == ds[i]);
        assert(direction_rank(y, x, step(y, x, ds[j])) == ds[j]);
    }
}

/// On a row of nodes, the picture tells each kind of cell apart: an open
/// wall is one blank, a closed wall `|`, a passed wall one yellow block, the
/// player and the computer three yellow blocks, the start and end points
/// their coloured blocks, an empty node three blanks and a visited node
/// three yellow bars.
pub proof fn lemma_node_row_glyphs(g: Seq<Seq<Cell>>, y: int, x: int)
    requires
        y % 2 == 1,
    ensures
        g[y][x] == Cell::Wall(WallState::Open) ==> glyph_of(g, y, x) == Glyph::Blank1,
        g[y][x] == Cell::Wall(WallState::Closed) ==> glyph_of(g, y, x) == Glyph::Pipe,
        g[y][x] == Cell::Wall(WallState::Passed) ==> glyph_of(g, y, x) == Glyph::Trail1,
        g[y][x] == Cell::Character(Character::Player) ==> glyph_of(g, y, x) == Glyph::Walker3,
        g[y][x] == Cell::Character(Character::Computer) ==> glyph_of(g, y, x) == Glyph::Walker3,
        g[y][x] == Cell::Node(NodeState::StartPoint) ==> glyph_of(g, y, x) == Glyph::StartBlock,
        g[y][x] == Cell::Node(NodeState::EndPoint) ==> glyph_of(g, y, x) == Glyph::EndBlock,
        g[y][x] == Cell::Node(NodeState::Empty) ==> glyph_of(g, y, x) == Glyph::Blank3,
        g[y][x] == Cell::Node(NodeState::Visited) ==> glyph_of(g, y, x) == Glyph::Trail3,
{
}

/// On any row an open wall is drawn open: never as `|` or `---`.
pub proof fn lemma_open_wall_never_closed(g: Seq<Seq<Cell>>, y: int, x: int)
    requires
        0 <= y,
        g[y][x] == Cell::Wall(WallState::Open),
    ensures
        glyph_of(g, y, x) != Glyph::Pipe,
        glyph_of(g, y, x) != Glyph::Dashes,
{
}

/// A move steps the player two cells, in the key's direction, onto an empty
/// node through a wall that is not closed: the player's cell becomes an
/// empty node and the target holds the player, nothing else changes.
pub proof fn lemma_move_through_open_wall(g: Seq<Seq<Cell>>, k: KeyInput)
    requires
        well_formed(g),
        after_move(g, k).1 == MoveResult::Move,
    ensures
        exists|p: (int, int), q: (int, int)|
            #![trigger is_first_of(g, Cell::Character(Character::Player), p.0, p.1), in_grid(g, q.0, q.1)]
            {
                &&& is_first_of(g, Cell::Character(Character::Player), p.0, p.1)
                &&& two_apart(p, q)
                &&& in_grid(g, q.0, q.1)
                &&& g[q.0][q.1] == Cell::Node(NodeState::Empty)
                &&& g[(p.0 + q.0) / 2][(p.1 + q.1) / 2] != Cell::Wall(WallState::Closed)
                &&& after_move(g, k).0 == put(
                    put(g, p.0, p.1, Cell::Node(NodeState::Empty)),
                    q.0,
                    q.1,
                    Cell::Character(Character::Player),
                )
                &&& (k == KeyInput::Up || k == KeyInput::Char('w')) ==> q == (p.0 - 2, p.1)
                &&& (k == KeyInput::Down || k == KeyInput::Char('s')) ==> q == (p.0 + 2, p.1)
                &&& (k == KeyInput::Left || k == KeyInput::Char('a')) ==> q == (p.0, p.1 - 2)
                &&& (k == KeyInput::Right || k == KeyInput::Char('d')) ==> q == (p.0, p.1 + 2)
            },
{
    let p = choose|p: (int, int)| is_first_of(g, player(), p.0, p.1);
    assert(first_position(g, player()) == Some(p));
    let (y, x) = p;
    assert(g[y].len() >= g[0].len());
    let q = if is_up(k) {
        (y - 2, x)
    } else if is_down(k) {
        (y + 2, x)
    } else if is_left(k) {
        (y, x - 2)
    } else {
        (y, x + 2)
    };
    assert(g[q.0].len() >= g[0].len());
    assert(is_first_of(g, Cell::Character(Character::Player), p.0, p.1));
    assert(in_grid(g, q.0, q.1));
}

/// The letter keys move as the arrows do: `w` as up, `s` as down, `a` as
/// left and `d` as right, on every maze.
pub proof fn lemma_letter_keys_are_arrows(g: Seq<Seq<Cell>>)
    ensures
        after_move(g, KeyInput::Char('w')) == after_move(g, KeyInput::Up),
        after_move(g, KeyInput::Char('s')) == after_move(g, KeyInput::Down),
        after_move(g, KeyInput::Char('a')) == after_move(g, KeyInput::Left),
        after_move(g, KeyInput::Char('d')) == after_move(g, KeyInput::Right),
{
}

/// A key press that neither moves nor restarts leaves the maze as it was;
/// `Finished` comes only from a right move with the end point right of the
/// player; Esc quits wherever there is a player.
pub proof fn lemma_other_answers(g: Seq<Seq<Cell>>, k: KeyInput)
    ensures
        after_move(g, k).1 != MoveResult::Move && after_move(g, k).1 != MoveResult::Restart
            ==> after_move(g, k).0 == g,
        after_move(g, k).1 == MoveResult::Finished ==> (k == KeyInput::Right || k == KeyInput::Char('d'))
            && exists|p: (int, int)|
            #[trigger] is_first_of(g, Cell::Character(Character::Player), p.0, p.1) && g[p.0][p.1 + 1]
                == Cell::Node(NodeState::EndPoint),
        (exists|p: (int, int)| #[trigger] is_first_of(g, Cell::Character(Character::Player), p.0, p.1))
            ==> after_move(g, KeyInput::Esc).1 == MoveResult::Kill,
{
    if exists|p: (int, int)| is_first_of(g, player(), p.0, p.1) {
        let p = choose|p: (int, int)| is_first_of(g, player(), p.0, p.1);
        assert(first_position(g, player()) == Some(p));
        assert(is_first_of(g, Cell::Character(Character::Player), p.0, p.1));
    }
}

/// One where `(a, b)` is a closed wall, else none.
pub open spec fn closed_at(g: Seq<Seq<Cell>>, a: int, b: int) -> int {
    if g[a][b] == Cell::Wall(WallState::Closed) { 1 } else { 0 }
}

/// `n`, two cells from `(y, x)`, is an empty node of the scanned rectangle
/// behind a wall that is not closed, with fewer than three closed walls
/// around it: a move the solver may make.
pub open spec fn live_move(g: Seq<Seq<Cell>>, y: int, x: int, n: (int, int)) -> bool {
    &&& two_apart((y, x), n)
    &&& 0 <= n.0 < g.len() && 0 <= n.1 < g[0].len()
    &&& g[n.0][n.1] == Cell::Node(NodeState::Empty)
    &&& g[(y + n.0) / 2][(x + n.1) / 2] != Cell::Wall(WallState::Closed)
    &&& closed_at(g, n.0, n.1 + 1) + closed_at(g, n.0, n.1 - 1) + closed_at(g, n.0 + 1, n.1) + closed_at(
        g,
        n.0 - 1,
        n.1,
    ) < 3
}

/// The ranked moves from `(y, x)` are exactly its live moves: each listed
/// cell is one, and each one is listed.
pub proof fn lemma_moves_are_live(
    g: Seq<Seq<Cell>>,
    y: int,
    x: int,
    r: Seq<(usize, usize)>,
    ds: Seq<int>,
)
    requires
        ranked_moves(g, y, x, r, ds),
    ensures
        forall|i: int| 0 <= i < r.len() ==> live_move(g, y, x, (#[trigger] r[i].1 as int, r[i].0 as int)),
        forall|n: (int, int)|
            #[trigger] live_move(g, y, x, n) ==> exists|i: int|
                0 <= i < r.len() && (#[trigger] r[i].1 as int, r[i].0 as int) == n,
{
    assert forall|i: int| 0 <= i < r.len() implies live_move(g, y, x, (#[trigger] r[i].1 as int, r[i].0 as int)) by {
        assert(0 <= ds[i] < 4 && is_candidate(g, y, x, ds[i]));
    }
    assert forall|n: (int, int)| #[trigger] live_move(g, y, x, n) implies exists|i: int|
        0 <= i < r.len() && (#[trigger] r[i].1 as int, r[i].0 as int) == n by {
        let d = direction_rank(y, x, n);
        assert(step(y, x, d) == n);
        assert(is_candidate(g, y, x, d));
        assert(ds.contains(d));
        let i = choose|i: int| 0 <= i < ds.len() && ds[i] == d;
        assert(0 <= ds[i] < 4);
        assert((r[i].1 as int, r[i].0 as int) == n);
    }
}

} // verus!
