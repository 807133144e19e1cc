use manotz::buffer::Buffer;
use manotz::editor::EditorState;
use manotz::input::{Action, Key, Mode};

#[test]
fn map_key_left_arrow() {
    let action_result = Action::map_key(Key::Left, Mode::Normal);
    assert_eq!(action_result, Some(Action::MoveLeft));
}

#[test]
fn map_key_right_arrow() {
    let action_result = Action::map_key(Key::Right, Mode::Normal);
    assert_eq!(action_result, Some(Action::MoveRight));
}

#[test]
fn map_key_quit() {
    let action_result = Action::map_key(Key::Char('q'), Mode::Normal);
    assert_eq!(action_result, Some(Action::Quit));
}

#[test]
fn map_key_down_arrow() {
    let action_result = Action::map_key(Key::Down, Mode::Normal);
    assert_eq!(action_result, Some(Action::MoveDown));
}

#[test]
fn map_key_up_arrow() {
    let action_result = Action::map_key(Key::Up, Mode::Normal);
    assert_eq!(action_result, Some(Action::MoveUp));
}

#[test]
fn update_enter_insert_sets_insert_mode() {
    let state = EditorState::new("ABC", 5, 5);
    let next = state.update(Action::EnterInsert);
    assert_eq!(next.mode, Mode::Insert);
    assert_eq!(next.buffer.slice(0, next.buffer.len()), "ABC");
    assert_eq!(next.selections.primary().head(), 0);
}

#[test]
fn update_enter_normal_sets_normal_mode() {
    let state = EditorState::new("ABC", 5, 5);
    let state = state.update(Action::EnterInsert);
    let next = state.update(Action::EnterNormal);

    assert_eq!(next.mode, Mode::Normal);
    assert_eq!(next.buffer.slice(0, next.buffer.len()), "ABC");
    assert_eq!(next.selections.primary().head(), 0);
}

#[test]
fn map_key_i_enters_insert_in_normal_mode() {
    let action_result = Action::map_key(Key::Char('i'), Mode::Normal);
    assert_eq!(action_result, Some(Action::EnterInsert));
    assert_ne!(action_result, Some(Action::EnterNormal));
}

#[test]
fn map_key_i_only_enters_insert_in_normal_mode() {
    assert_eq!(Action::map_key(Key::Char('i'), Mode::Normal), Some(Action::EnterInsert));
}

#[test]
fn map_key_esc_enters_normal_in_insert_mode() {
    assert_eq!(Action::map_key(Key::Esc, Mode::Insert), Some(Action::EnterNormal));
    assert_eq!(Action::map_key(Key::Esc, Mode::Normal), None);
}

#[test]
fn map_key_char_inserts_in_insert_mode() {
    assert_eq!(Action::map_key(Key::Char('X'), Mode::Insert), Some(Action::InsertChar('X')));
    assert_eq!(Action::map_key(Key::Char('X'), Mode::Normal), None);
}

#[test]
fn map_key_backspace_in_insert_mode() {
    assert_eq!(Action::map_key(Key::Backspace, Mode::Insert), Some(Action::Backspace));
    assert_eq!(Action::map_key(Key::Backspace, Mode::Normal), None);
}

#[test]
fn map_key_enter_inserts_newline_in_insert_mode() {
    assert_eq!(Action::map_key(Key::Enter, Mode::Insert), Some(Action::InsertChar('\n')));
    assert_eq!(Action::map_key(Key::Enter, Mode::Normal), None);
}

#[test]
fn map_key_arrows_work_in_insert_mode() {
    assert_eq!(Action::map_key(Key::Left, Mode::Insert), Some(Action::MoveLeft));
    assert_eq!(Action::map_key(Key::Right, Mode::Insert), Some(Action::MoveRight));
    assert_eq!(Action::map_key(Key::Up, Mode::Insert), Some(Action::MoveUp));
    assert_eq!(Action::map_key(Key::Down, Mode::Insert), Some(Action::MoveDown));
}

#[test]
fn map_key_u_is_undo_in_normal() {
    assert_eq!(Action::map_key(Key::Char('u'), Mode::Normal), Some(Action::Undo));
}

#[test]
fn map_key_capital_u_is_redo_in_normal() {
    assert_eq!(Action::map_key(Key::Char('U'), Mode::Normal), Some(Action::Redo));
}

#[test]
fn map_key_capital_u_inserts_in_insert_mode() {
    assert_eq!(Action::map_key(Key::Char('U'), Mode::Insert), Some(Action::InsertChar('U')));
}

#[test]
fn map_key_v_enters_select_mode() {
    assert_eq!(Action::map_key(Key::Char('v'), Mode::Normal), Some(Action::EnterSelect));
}

#[test]
fn map_key_y_is_yank_in_normal_and_select() {
    assert_eq!(Action::map_key(Key::Char('y'), Mode::Normal), Some(Action::Yank));
    assert_eq!(Action::map_key(Key::Char('y'), Mode::Select), Some(Action::Yank));
}

#[test]
fn map_key_d_is_delete_in_normal_and_select() {
    assert_eq!(Action::map_key(Key::Char('d'), Mode::Normal), Some(Action::Delete));
    assert_eq!(Action::map_key(Key::Char('d'), Mode::Select), Some(Action::Delete));
}

#[test]
fn map_key_c_is_change_in_normal_and_select() {
    assert_eq!(Action::map_key(Key::Char('c'), Mode::Normal), Some(Action::Change));
    assert_eq!(Action::map_key(Key::Char('c'), Mode::Select), Some(Action::Change));
}

#[test]
fn map_key_v_and_esc_leave_select_mode() {
    assert_eq!(Action::map_key(Key::Char('v'), Mode::Select), Some(Action::EnterNormal));
    assert_eq!(Action::map_key(Key::Esc, Mode::Select), Some(Action::EnterNormal));
    assert_eq!(Action::map_key(Key::Char('q'), Mode::Select), None);
    assert_eq!(Action::map_key(Key::Other, Mode::Insert), None);
}

#[test]
fn map_key_p_pastes_in_normal_and_select() {
    assert_eq!(Action::map_key(Key::Char('p'), Mode::Normal), Some(Action::Paste));
    assert_eq!(Action::map_key(Key::Char('p'), Mode::Select), Some(Action::Paste));
    assert_eq!(Action::map_key(Key::Char('p'), Mode::Insert), Some(Action::InsertChar('p')));
}

#[test]
fn map_key_ctrl_c_quits_in_every_mode() {
    for mode in [Mode::Normal, Mode::Insert, Mode::Select] {
        assert_eq!(Action::map_key(Key::Ctrl('c'), mode), Some(Action::Quit));
    }
    assert_eq!(Action::map_key(Key::Char('c'), Mode::Normal), Some(Action::Change));
    assert_eq!(Action::map_key(Key::Ctrl('d'), Mode::Normal), Some(Action::Delete));
    assert_eq!(Action::map_key(Key::Ctrl('x'), Mode::Insert), Some(Action::InsertChar('x')));
}
