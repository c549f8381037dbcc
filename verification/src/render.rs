//! What the screen shows for each cell of the maze.
use vstd::prelude::*;
use crate::cell::{Cell, NodeState, WallState};
use crate::grid::{grid, grid_width, well_formed};

verus! {

/// One piece of the picture of a maze; the terminal front end gives each its
/// text and colour.
#[derive(PartialEq, Eq, Structural, Clone, Copy, Debug)]
pub enum Glyph {
    /// Three blanks: an empty node, or an open wall between two corners.
    Blank3,
    /// Three yellow bars: a visited node, or a passed wall between corners.
    Trail3,
    /// `---`: a closed wall between two corners.
    Dashes,
    /// `+`: a corner.
    Plus,
    /// One blank: an open wall beside a node.
    Blank1,
    /// A green block: the start point.
    StartBlock,
    /// A red block: the end point.
    EndBlock,
    /// Three yellow blocks: the player or the computer.
    Walker3,
    /// One yellow block: a passed wall beside a node.
    Trail1,
    /// `|`: a closed wall beside a node.
    Pipe,
}

/// The cell is drawn as a corner or a horizontal wall: it lies on an even row
/// and is neither an empty nor a visited node.
pub open spec fn is_border_piece(g: Seq<Seq<Cell>>, y: int, x: int) -> bool {
    y % 2 == 0 && g[y][x] != Cell::Node(NodeState::Empty) && g[y][x] != Cell::Node(NodeState::Visited)
}

/// Drawing the cell flips between corner and wall: a border piece that is
/// not the last of its row.
pub open spec fn flips_at(g: Seq<Seq<Cell>>, y: int, x: int) -> bool {
    is_border_piece(g, y, x) && x != grid_width(g) - 1
}

/// Flips among the first `x` cells of row `y`.
pub open spec fn flips_in_row(g: Seq<Seq<Cell>>, y: int, x: int) -> nat
    decreases x,
{
    if x <= 0 {
        0
    } else {
        flips_in_row(g, y, x - 1) + if flips_at(g, y, x - 1) { 1nat } else { 0nat }
    }
}

/// Flips in the rows before `y`.
pub open spec fn flips_before_row(g: Seq<Seq<Cell>>, y: int) -> nat
    decreases y,
{
    if y <= 0 {
        0
    } else {
        flips_before_row(g, y - 1) + flips_in_row(g, y - 1, grid_width(g))
    }
}

/// A border piece at `(y, x)` is drawn as a wall, not a corner: an odd
/// number of flips came before it.
pub open spec fn wall_turn(g: Seq<Seq<Cell>>, y: int, x: int) -> bool {
    (flips_before_row(g, y) + flips_in_row(g, y, x)) % 2 == 1
}

/// The glyph drawn for the cell at `(y, x)`.
pub open spec fn glyph_of(g: Seq<Seq<Cell>>, y: int, x: int) -> Glyph {
    let c = g[y][x];
    if c == Cell::Node(NodeState::Empty) {
        Glyph::Blank3
    } else if c == Cell::Node(NodeState::Visited) {
        Glyph::Trail3
    } else if y % 2 == 0 {
        if wall_turn(g, y, x) {
            if c == Cell::Wall(WallState::Open) {
                Glyph::Blank3
            } else if c == Cell::Wall(WallState::Passed) {
                Glyph::Trail3
            } else {
                Glyph::Dashes
            }
        } else {
            Glyph::Plus
        }
    } else if c == Cell::Wall(WallState::Open) {
        Glyph::Blank1
    } else if c == Cell::Node(NodeState::StartPoint) {
        Glyph::StartBlock
    } else if c == Cell::Node(NodeState::EndPoint) {
        Glyph::EndBlock
    } else if c is Character {
        Glyph::Walker3
    } else if c == Cell::Wall(WallState::Passed) {
        Glyph::Trail1
    } else {
        Glyph::Pipe
    }
}

/// The picture of the maze, row by row over the columns of the first row.
pub fn render_maze(maze: &Vec<Vec<Cell>>) -> (picture: Vec<Vec<Glyph>>)
    requires
        well_formed(grid(maze)),
    ensures
        picture@.len() == grid(maze).len(),
        forall|y: int| 0 <= y < picture@.len() ==> #[trigger] picture@[y]@.len() == grid_width(grid(maze)),
        forall|y: int, x: int|
            0 <= y < picture@.len() && 0 <= x < grid_width(grid(maze)) ==> #[trigger] picture@[y]@[x]
                == glyph_of(grid(maze), y, x),
{
    let ghost g = grid(maze);
    let height: usize = maze.len();
    assert(maze@[0]@ == g[0]);
    let width: usize = maze[0].len();
    let mut line = false;
    let mut picture: Vec<Vec<Glyph>> = Vec::new();

    for y in 0..height
        invariant
            g == grid(maze),
            well_formed(g),
            height == g.len(),
            width == grid_width(g),
            line == (flips_before_row(g, y as int) % 2 == 1),
            picture@.len() == y,
            forall|r: int| 0 <= r < y ==> #[trigger] picture@[r]@.len() == width,
            forall|r: int, c: int|
                0 <= r < y && 0 <= c < width ==> #[trigger] picture@[r]@[c] == glyph_of(g, r, c),
    {
        assert(g[y as int].len() >= width);
        assert(maze@[y as int]@ == g[y as int]);
        let mut row: Vec<Glyph> = Vec::new();
        for x in 0..width
            invariant
                g == grid(maze),
                well_formed(g),
                height == g.len(),
                width == grid_width(g),
                0 <= y < height,
                g[y as int].len() >= width,
                maze@[y as int]@ == g[y as int],
                line == ((flips_before_row(g, y as int) + flips_in_row(g, y as int, x as int)) % 2
                    == 1),
                row@.len() == x,
                forall|c: int| 0 <= c < x ==> #[trigger] row@[c] == glyph_of(g, y as int, c),
        {
            let cell = maze[y][x];
            let glyph = if cell == Cell::Node(NodeState::Empty) {
                Glyph::Blank3
            } else if cell == Cell::Node(NodeState::Visited) {
                Glyph::Trail3
            } else if y == 0 || y % 2 == 0 {
                let piece = if line {
                    if cell == Cell::Wall(WallState::Open) {
                        Glyph::Blank3
                    } else if cell == Cell::Wall(WallState::Passed) {
                        Glyph::Trail3
                    } else {
                        Glyph::Dashes
                    }
                } else {
                    Glyph::Plus
                };
                if x != width - 1 {
                    line = !line;
                }
                piece
            } else if cell == Cell::Wall(WallState::Open) {
                Glyph::Blank1
            } else if cell == Cell::Node(NodeState::StartPoint) {
                Glyph::StartBlock
            } else if cell == Cell::Node(NodeState::EndPoint) {
                Glyph::EndBlock
            } else if cell == Cell::Character(crate::cell::Character::Player) || cell
                == Cell::Character(crate::cell::Character::Computer) {
                Glyph::Walker3
            } else if cell == Cell::Wall(WallState::Passed) {
                Glyph::Trail1
            } else {
                Glyph::Pipe
            };
            assert(glyph == glyph_of(g, y as int, x as int));
            row.push(glyph);
        }
        picture.push(row);
    }
    picture
}

} // verus!
