//! Editor modes, actions, and the mode-aware keymap.

use vstd::prelude::*;

verus! {

#[derive(Debug, PartialEq, Eq, Structural)]
pub enum Action {
    MoveDown,
    MoveLeft,
    MoveRight,
    MoveUp,
    InsertChar(char),
    EnterInsert,
    EnterNormal,
    Backspace,
    Undo,
    Redo,
    /// `q` in normal mode, or Ctrl+C in any mode.
    Quit,
    EnterSelect,
    Delete,
    Change,
    Yank,
    Paste,
}

#[derive(Debug, PartialEq, Eq, Structural, Clone, Copy)]
pub enum Mode {
    Normal,
    Insert,
    Select,
}

/// The keys the keymap reads: arrows, escape, backspace, enter, a character,
/// a character typed with Control held, or any other key.
#[derive(Debug, PartialEq, Eq, Structural, Clone, Copy)]
pub enum Key {
    Left,
    Right,
    Up,
    Down,
    Esc,
    Backspace,
    Enter,
    Char(char),
    Ctrl(char),
    Other,
}

/// The keymap for keys typed without Control. Normal: arrows move, `q` quits, `i` inserts, `u`/`U` undo and
/// redo, `v` selects, `y` `d` `c` `p` yank, delete, change and paste.
/// Insert: escape leaves, arrows move, characters are inserted (enter as a
/// line feed), backspace deletes. Select: escape or `v` leave, arrows
/// extend, `y` `d` `c` `p` act on the selection.
pub open spec fn plain_action(key: Key, mode: Mode) -> Option<Action> {
    match mode {
        Mode::Normal => match key {
            Key::Left => Some(Action::MoveLeft),
            Key::Right => Some(Action::MoveRight),
            Key::Up => Some(Action::MoveUp),
            Key::Down => Some(Action::MoveDown),
            Key::Char('q') => Some(Action::Quit),
            Key::Char('i') => Some(Action::EnterInsert),
            Key::Char('u') => Some(Action::Undo),
            Key::Char('U') => Some(Action::Redo),
            Key::Char('v') => Some(Action::EnterSelect),
            Key::Char('y') => Some(Action::Yank),
            Key::Char('d') => Some(Action::Delete),
            Key::Char('c') => Some(Action::Change),
            Key::Char('p') => Some(Action::Paste),
            _ => None,
        },
        Mode::Insert => match key {
            Key::Esc => Some(Action::EnterNormal),
            Key::Left => Some(Action::MoveLeft),
            Key::Right => Some(Action::MoveRight),
            Key::Up => Some(Action::MoveUp),
            Key::Down => Some(Action::MoveDown),
            Key::Char(ch) => Some(Action::InsertChar(ch)),
            Key::Backspace => Some(Action::Backspace),
            Key::Enter => Some(Action::InsertChar('\n')),
            _ => None,
        },
        Mode::Select => match key {
            Key::Esc => Some(Action::EnterNormal),
            Key::Char('v') => Some(Action::EnterNormal),
            Key::Left => Some(Action::MoveLeft),
            Key::Right => Some(Action::MoveRight),
            Key::Up => Some(Action::MoveUp),
            Key::Down => Some(Action::MoveDown),
            Key::Char('y') => Some(Action::Yank),
            Key::Char('d') => Some(Action::Delete),
            Key::Char('c') => Some(Action::Change),
            Key::Char('p') => Some(Action::Paste),
            _ => None,
        },
    }
}

/// The keymap: Ctrl+C quits in every mode; any other character typed with
/// Control acts as the character alone; other keys go by `plain_action`.
pub open spec fn key_action(key: Key, mode: Mode) -> Option<Action> {
    match key {
        Key::Ctrl(ch) => if ch == 'c' {
            Some(Action::Quit)
        } else {
            plain_action(Key::Char(ch), mode)
        },
        _ => plain_action(key, mode),
    }
}

impl Action {
    pub fn map_key(key: Key, mode: Mode) -> (a: Option<Action>)
        ensures
            a == key_action(key, mode),
    {
        let key = match key {
            Key::Ctrl(ch) => {
                if ch == 'c' {
                    return Some(Action::Quit);
                }
                Key::Char(ch)
            },
            _ => key,
        };
        match mode {
            Mode::Normal => match key {
                Key::Left => Some(Action::MoveLeft),
                Key::Right => Some(Action::MoveRight),
                Key::Up => Some(Action::MoveUp),
                Key::Down => Some(Action::MoveDown),
                Key::Char('q') => Some(Action::Quit),
                Key::Char('i') => Some(Action::EnterInsert),
                Key::Char('u') => Some(Action::Undo),
                Key::Char('U') => Some(Action::Redo),
                Key::Char('v') => Some(Action::EnterSelect),
                Key::Char('y') => Some(Action::Yank),
                Key::Char('d') => Some(Action::Delete),
                Key::Char('c') => Some(Action::Change),
                Key::Char('p') => Some(Action::Paste),
                _ => None,
            },
            Mode::Insert => match key {
                Key::Esc => Some(Action::EnterNormal),
                Key::Left => Some(Action::MoveLeft),
                Key::Right => Some(Action::MoveRight),
                Key::Up => Some(Action::MoveUp),
                Key::Down => Some(Action::MoveDown),
                Key::Char(ch) => Some(Action::InsertChar(ch)),
                Key::Backspace => Some(Action::Backspace),
                Key::Enter => Some(Action::InsertChar('\n')),
                _ => None,
            },
            Mode::Select => match key {
                Key::Esc | Key::Char('v') => Some(Action::EnterNormal),
                Key::Left => Some(Action::MoveLeft),
                Key::Right => Some(Action::MoveRight),
                Key::Up => Some(Action::MoveUp),
                Key::Down => Some(Action::MoveDown),
                Key::Char('y') => Some(Action::Yank),
                Key::Char('d') => Some(Action::Delete),
                Key::Char('c') => Some(Action::Change),
                Key::Char('p') => Some(Action::Paste),
                _ => None,
            },
        }
    }
}

/// In every mode the arrow keys move: left, right, up and down, with or
/// without a selection being extended.
pub proof fn lemma_arrows_move(mode: Mode)
    ensures
        key_action(Key::Left, mode) == Some(Action::MoveLeft),
        key_action(Key::Right, mode) == Some(Action::MoveRight),
        key_action(Key::Up, mode) == Some(Action::MoveUp),
        key_action(Key::Down, mode) == Some(Action::MoveDown),
{
}

/// Ctrl+C quits in every mode, and `q` quits in normal mode.
pub proof fn lemma_quit_keys(mode: Mode)
    ensures
        key_action(Key::Ctrl('c'), mode) == Some(Action::Quit),
        key_action(Key::Char('q'), Mode::Normal) == Some(Action::Quit),
{
}

} // verus!
