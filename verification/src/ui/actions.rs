//! The intents that the controller accepts.

use vstd::prelude::*;

verus! {

/// One intent of the user.
#[derive(Clone, Copy, Debug, PartialEq, Eq, Structural)]
pub enum Action {
    Quit,
    MoveSelectionUp,
    MoveSelectionDown,
    StartAddNode,
    StartEditContent,
    StartEditTitle,
    StartMoveNode,
    StartDeleteNode,
    StartFailNode,
    /// Leave the current form or dialog.
    Cancel,
    /// Accept the current form or dialog.
    Submit,
    /// Type a character.
    Input(char),
    /// Delete the last character typed.
    DeleteChar,
}

} // verus!
