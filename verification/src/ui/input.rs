//! From keys to intents.

use vstd::prelude::*;
use crate::ui::actions::Action;
use crate::ui::state::{App, AppMode};

verus! {

/// A key of the keyboard, as far as the controller tells keys apart.
#[derive(Clone, Copy, Debug, PartialEq, Eq, Structural)]
pub enum Key {
    Char(char),
    Up,
    Down,
    Enter,
    Esc,
    Backspace,
    /// Any other key.
    Other,
}

/// The intent that `key` stands for in `mode`, if any.
pub open spec fn key_action(mode: AppMode, key: Key) -> Option<Action> {
    match mode {
        AppMode::Normal => match key {
            Key::Char('q') => Some(Action::Quit),
            Key::Char('j') | Key::Down => Some(Action::MoveSelectionDown),
            Key::Char('k') | Key::Up => Some(Action::MoveSelectionUp),
            Key::Char('a') => Some(Action::StartAddNode),
            Key::Char('e') => Some(Action::StartEditContent),
            Key::Char('r') => Some(Action::StartEditTitle),
            Key::Char('m') => Some(Action::StartMoveNode),
            Key::Char('d') => Some(Action::StartDeleteNode),
            Key::Char('f') => Some(Action::StartFailNode),
            _ => None,
        },
        AppMode::AddingNode | AppMode::EditingContent(_) | AppMode::EditingTitle(_) => match key {
            Key::Esc => Some(Action::Cancel),
            Key::Enter => Some(Action::Submit),
            Key::Backspace => Some(Action::DeleteChar),
            Key::Char(c) => Some(Action::Input(c)),
            _ => None,
        },
        AppMode::MovingNode(_) => match key {
            Key::Esc => Some(Action::Cancel),
            Key::Char('m') | Key::Char('M') => Some(Action::Submit),
            Key::Char('j') | Key::Down => Some(Action::MoveSelectionDown),
            Key::Char('k') | Key::Up => Some(Action::MoveSelectionUp),
            _ => None,
        },
        AppMode::Confirm(_) => match key {
            Key::Char('y') | Key::Char('Y') => Some(Action::Submit),
            Key::Char('n') | Key::Char('N') | Key::Esc => Some(Action::Cancel),
            _ => None,
        },
    }
}

/// The intent that `key` stands for in `mode`, if any.
pub fn get_action(mode: &AppMode, key: Key) -> (action: Option<Action>)
    ensures
        action == key_action(*mode, key),
{
    match mode {
        AppMode::Normal => match key {
            Key::Char('q') => Some(Action::Quit),
            Key::Char('j') | Key::Down => Some(Action::MoveSelectionDown),
            Key::Char('k') | Key::Up => Some(Action::MoveSelectionUp),
            Key::Char('a') => Some(Action::StartAddNode),
            Key::Char('e') => Some(Action::StartEditContent),
            Key::Char('r') => Some(Action::StartEditTitle),
            Key::Char('m') => Some(Action::StartMoveNode),
            Key::Char('d') => Some(Action::StartDeleteNode),
            Key::Char('f') => Some(Action::StartFailNode),
            _ => None,
        },
        AppMode::AddingNode | AppMode::EditingContent(_) | AppMode::EditingTitle(_) => match key {
            Key::Esc => Some(Action::Cancel),
            Key::Enter => Some(Action::Submit),
            Key::Backspace => Some(Action::DeleteChar),
            Key::Char(c) => Some(Action::Input(c)),
            _ => None,
        },
        AppMode::MovingNode(_) => match key {
            Key::Esc => Some(Action::Cancel),
            Key::Char('m') | Key::Char('M') => Some(Action::Submit),
            Key::Char('j') | Key::Down => Some(Action::MoveSelectionDown),
            Key::Char('k') | Key::Up => Some(Action::MoveSelectionUp),
            _ => None,
        },
        AppMode::Confirm(_) => match key {
            Key::Char('y') | Key::Char('Y') => Some(Action::Submit),
            Key::Char('n') | Key::Char('N') | Key::Esc => Some(Action::Cancel),
            _ => None,
        },
    }
}

/// Carries out the intent that `key` stands for in the present mode; a key
/// that stands for none changes nothing. Returns whether the session is to
/// end.
pub fn handle_key_event(app: &mut App, key: Key) -> (quit: bool)
    requires
        old(app).wf(),
    ensures
        final(app).wf(),
        match key_action(old(app).mode, key) {
            Some(action) => App::stepped(*old(app), action, *final(app), quit),
            None => !quit && *final(app) == *old(app),
        },
{
    match get_action(&app.mode, key) {
        Some(action) => app.dispatch(action),
        None => false,
    }
}

} // verus!
