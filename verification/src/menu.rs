//! The start menu: moving the selection and choosing an entry.
use vstd::prelude::*;
use crate::cell::{KeyInput, UserOptions};

verus! {

/// What the menu does with a key press.
#[derive(PartialEq, Eq, Structural, Clone, Copy, Debug)]
pub enum MenuAction {
    /// Leave the program.
    Exit,
    /// Show the menu again with this entry selected.
    Select(UserOptions),
    /// Run this entry.
    Confirm(UserOptions),
    /// Nothing to do.
    Ignore,
}

/// The entry above `o`, in the shown order Solve, Play, Quit, wrapping round.
pub open spec fn entry_above(o: UserOptions) -> UserOptions {
    match o {
        UserOptions::Solve => UserOptions::Quit,
        UserOptions::Play => UserOptions::Solve,
        UserOptions::Quit => UserOptions::Play,
    }
}

/// The entry below `o`, in the shown order Solve, Play, Quit, wrapping round.
pub open spec fn entry_below(o: UserOptions) -> UserOptions {
    match o {
        UserOptions::Solve => UserOptions::Play,
        UserOptions::Play => UserOptions::Quit,
        UserOptions::Quit => UserOptions::Solve,
    }
}

/// Answers a key press in the menu: Esc leaves, Up and Down move the
/// selection, Enter runs the selected entry, other keys do nothing.
pub fn menu_step(selected: UserOptions, key: KeyInput) -> (action: MenuAction)
    ensures
        action == match key {
            KeyInput::Esc => MenuAction::Exit,
            KeyInput::Up => MenuAction::Select(entry_above(selected)),
            KeyInput::Down => MenuAction::Select(entry_below(selected)),
            KeyInput::Enter => MenuAction::Confirm(selected),
            _ => MenuAction::Ignore,
        },
{
    match key {
        KeyInput::Esc => MenuAction::Exit,
        KeyInput::Up => {
            let next = match selected {
                UserOptions::Solve => UserOptions::Quit,
                UserOptions::Play => UserOptions::Solve,
                UserOptions::Quit => UserOptions::Play,
            };
            MenuAction::Select(next)
        },
        KeyInput::Down => {
            let next = match selected {
                UserOptions::Solve => UserOptions::Play,
                UserOptions::Play => UserOptions::Quit,
                UserOptions::Quit => UserOptions::Solve,
            };
            MenuAction::Select(next)
        },
        KeyInput::Enter => MenuAction::Confirm(selected),
        _ => MenuAction::Ignore,
    }
}

/// Moving the selection up and then down comes back to the same entry, and
/// so does moving it down and then up.
pub proof fn lemma_menu_up_down_inverse(o: UserOptions)
    ensures
        entry_below(entry_above(o)) == o,
        entry_above(entry_below(o)) == o,
{
}

/// Three moves in the same direction come back to the same entry.
pub proof fn lemma_menu_cycles(o: UserOptions)
    ensures
        entry_above(entry_above(entry_above(o))) == o,
        entry_below(entry_below(entry_below(o))) == o,
{
}

} // verus!
