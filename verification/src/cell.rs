//! The values a maze is made of, and the inputs the game reacts to.
use vstd::prelude::*;

verus! {

/// The three entries of the start menu.
#[derive(PartialEq, Eq, Structural, Clone, Copy, Debug)]
pub enum UserOptions {
    Play,
    Solve,
    Quit,
}

/// What a node (a cell at odd row and odd column of a fresh maze) holds.
#[derive(PartialEq, Eq, Structural, Clone, Copy, Debug)]
pub enum NodeState {
    Empty,
    StartPoint,
    EndPoint,
    Visited,
}

/// What a wall cell holds: closed, carved open, or walked through by the solver.
#[derive(PartialEq, Eq, Structural, Clone, Copy, Debug)]
pub enum WallState {
    Closed,
    Open,
    Passed,
}

/// Who stands on a cell.
#[derive(PartialEq, Eq, Structural, Clone, Copy, Debug)]
pub enum Character {
    Player,
    Computer,
}

/// One cell of the maze grid.
#[derive(PartialEq, Eq, Structural, Clone, Copy, Debug)]
pub enum Cell {
    Wall(WallState),
    Node(NodeState),
    Character(Character),
}

/// The answer of the game to one key press while playing.
#[derive(PartialEq, Eq, Structural, Clone, Copy, Debug)]
pub enum MoveResult {
    Invalid,
    Move,
    Finished,
    Kill,
    Restart,
}

/// A key press, as far as the game tells keys apart.
#[derive(PartialEq, Eq, Structural, Clone, Copy, Debug)]
pub enum KeyInput {
    Up,
    Down,
    Left,
    Right,
    Enter,
    Esc,
    Char(char),
    Other,
}

} // verus!
