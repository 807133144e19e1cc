use manotz::buffer::Buffer;
use manotz::editor::EditorState;
use manotz::input::{Action, Mode};
use manotz::selection::{Selection, SelectionSet};
use manotz::render::Viewport;

#[test]
fn update_move_left_at_start_clamps() {
    let (rows, cols) = (5, 5);
    let state = EditorState::new("ABC", rows, cols);
    let next = state.update(Action::MoveLeft);

    assert_eq!(next.selections.primary().head(), 0);
}

#[test]
fn update_move_left_decrements() {
    let (rows, cols) = (5, 5);
    let state = EditorState::new("ABC", rows, cols);
    let next = state.update(Action::MoveLeft);

    assert_eq!(next.selections.primary().head(), 0);
}

#[test]
fn update_move_right_increments() {
    let (rows, cols) = (5, 5);
    let state = EditorState::new("ABC", rows, cols);
    let next = state.update(Action::MoveRight);

    assert_eq!(next.selections.primary().head(), 1);
}

#[test]
fn update_insert_at_end_appends_after_last_char() {
    let mut state = EditorState::new("AB", 5, 5);
    state = state.update(Action::MoveRight); // on 'B'
    state = state.update(Action::MoveRight); // past end
    state = state.update(Action::EnterInsert);
    let next = state.update(Action::InsertChar('X'));

    assert_eq!(next.buffer.slice(0, next.buffer.len()), "ABX");
    assert_eq!(next.selections.primary().head(), 3);
}

#[test]
fn update_quit_returns_same_state() {
    let (rows, cols) = (5, 5);
    let state = EditorState::new("ABC", rows, cols);
    let next = state.update(Action::Quit);

    assert_eq!(next.selections.primary().head(), 0);
}

#[test]
fn update_move_right_scrolls_viewport_when_past_right_edge() {
    let (rows, cols) = (3, 5);
    let mut state = EditorState::new("AAAAABBBBBCCCCCDDDDD", rows, cols);
    for _ in 0..5 {
        state = state.update(Action::MoveRight);
    }
    assert!(state.viewport.left() > 0);
}

#[test]
fn update_move_left_scrolls_viewport_when_past_left_edge() {
    let (rows, cols) = (3, 5);
    let mut state = EditorState::new("AAAAABBBBBCCCCCDDDDD", rows, cols);
    for _ in 0..5 {
        state = state.update(Action::MoveRight);
    }
    assert!(state.viewport.left() > 0);
    for _ in 0..5 {
        state = state.update(Action::MoveLeft);
    }
    assert_eq!(state.viewport.left(), 0);
}

#[test]
fn update_move_down_moves_to_next_line() {
    let text = "AB\nCD";
    let (rows, cols) = (5, 5);
    let state = EditorState::new(text, rows, cols);
    let next = state.update(Action::MoveDown);
    assert_eq!(next.selections.primary().head(), 3);
}

#[test]
fn update_move_up_moves_to_previous_line() {
    let text = "AB\nCD";
    let (rows, cols) = (5, 5);
    let state = EditorState::new(text, rows, cols);

    let state = state.update(Action::MoveDown);
    let next = state.update(Action::MoveUp);
    assert_eq!(next.selections.primary().head(), 0);
}

#[test]
fn update_move_down_scrolls_viewport_when_past_bottom_edge() {
    let (rows, cols) = (2, 5);
    let text = "AA\nBB\nCC\nDD";
    let state = EditorState::new(text, rows, cols);
    let state = state.update(Action::MoveDown);
    let state = state.update(Action::MoveDown);

    assert!(state.viewport.top() > 0);
}

#[test]
fn update_move_up_scrolls_viewport_when_past_top_edge() {
    let (rows, cols) = (2, 5);
    let text = "AA\nBB\nCC\nDD";
    let state = EditorState::new(text, rows, cols);

    let state = state.update(Action::MoveDown);
    let state = state.update(Action::MoveDown);
    let state = state.update(Action::MoveUp);
    let state = state.update(Action::MoveUp);

    assert_eq!(state.viewport.top(), 0);
}

#[test]
fn update_insert_char_at_cursor() {
    let state = EditorState::new("ABC", 5, 5);
    let next = state.update(Action::InsertChar('X'));
    assert_eq!(next.buffer.slice(0, next.buffer.len()), "XABC");
    assert_eq!(next.selections.primary().head(), 1);
}

#[test]
fn update_insert_char_preserves_insert_mode() {
    let state = EditorState::new("ABC", 5, 5);
    let state = state.update(Action::EnterInsert);
    let next = state.update(Action::InsertChar('X'));
    assert_eq!(next.mode, Mode::Insert);
    assert_eq!(next.buffer.slice(0, next.buffer.len()), "XABC");
    assert_eq!(next.selections.primary().head(), 1);
}

#[test]
fn update_move_right_preserves_insert_mode() {
    let state = EditorState::new("ABC", 5, 5);
    let state = state.update(Action::EnterInsert);
    let next = state.update(Action::MoveRight);
    assert_eq!(next.mode, Mode::Insert);
    assert_eq!(next.selections.primary().head(), 1);
}

#[test]
fn update_backspace_at_start_is_noop() {
    let state = EditorState::new("ABC", 5, 5);
    let state = state.update(Action::EnterInsert);
    let next = state.update(Action::Backspace);
    assert_eq!(next.buffer.slice(0, next.buffer.len()), "ABC");
    assert_eq!(next.selections.primary().head(), 0);
    assert_eq!(next.mode, Mode::Insert);
}

#[test]
fn update_insert_newline_splits_line() {
    let state = EditorState::new("AB", 5, 5);
    let state = state.update(Action::MoveRight);
    let state = state.update(Action::EnterInsert);
    let next = state.update(Action::InsertChar('\n'));

    assert_eq!(next.buffer.slice(0, next.buffer.len()), "A\nB");
    assert_eq!(next.selections.primary().head(), 2);
    assert_eq!(next.mode, Mode::Insert);
}

#[test]
fn update_insert_char_scrolls_viewport_when_past_right_edge() {
    let mut state = EditorState::new("", 3, 5);
    state = state.update(Action::EnterInsert);
    for _ in 0..5 {
        state = state.update(Action::InsertChar('A'));
    }

    assert_eq!(state.viewport.left(), 1);
}

#[test]
fn update_backspace_scrolls_viewport_when_past_left_edge() {
    let mut state = EditorState::new("", 3, 5);
    state = state.update(Action::EnterInsert);
    for _ in 0..5 {
        state = state.update(Action::InsertChar('A'));
    }
    assert!(state.viewport.left() > 0);

    for _ in 0..5 {
        state = state.update(Action::Backspace);
    }
    assert_eq!(state.viewport.left(), 0);
}

#[test]
fn update_insert_newline_scrolls_viewport_when_past_bottom_edge() {
    let mut state = EditorState::new("", 2, 5);
    state = state.update(Action::EnterInsert);
    state = state.update(Action::InsertChar('\n'));
    state = state.update(Action::InsertChar('\n'));
    assert!(state.viewport.top() > 0);
}

#[test]
fn update_undo_after_insert_restores_buffer_and_head() {
    let state = EditorState::new("AB", 5, 5);
    let state = state.update(Action::InsertChar('X'));
    let next = state.update(Action::Undo);

    assert_eq!(next.buffer.slice(0, next.buffer.len()), "AB");
    assert_eq!(next.selections.primary().head(), 0);
}

#[test]
fn update_undo_after_backspace_restores_buffer_and_head() {
    let state = EditorState::new("AB", 5, 5);
    let state = state.update(Action::MoveRight);
    let state = state.update(Action::EnterInsert);
    let state = state.update(Action::Backspace);
    let next = state.update(Action::Undo);

    assert_eq!(next.buffer.slice(0, next.buffer.len()), "AB");
    assert_eq!(next.selections.primary().head(), 1);
}

#[test]
fn update_consecutive_inserts_undo_as_one_step() {
    let mut state = EditorState::new("", 3, 5);
    state = state.update(Action::EnterInsert);
    state = state.update(Action::InsertChar('a'));
    state = state.update(Action::InsertChar('b'));
    state = state.update(Action::InsertChar('c'));
    assert_eq!(state.buffer.slice(0, state.buffer.len()), "abc");

    let next = state.update(Action::Undo);
    assert_eq!(next.buffer.slice(0, next.buffer.len()), "");
    assert_eq!(next.selections.primary().head(), 0);
}

#[test]
fn update_undo_with_empty_history_is_noop() {
    let state = EditorState::new("AB", 5, 5);
    let next = state.update(Action::Undo);

    assert_eq!(next.buffer.slice(0, next.buffer.len()), "AB");
    assert_eq!(next.selections.primary().head(), 0);
}

#[test]
fn redo_restores_buffer_and_head_after_undo() {
    let state = EditorState::new("AB", 5, 5);
    let state = state.update(Action::InsertChar('X'));
    let state = state.update(Action::Undo);
    let next = state.update(Action::Redo);
    assert_eq!(next.buffer.slice(0, next.buffer.len()), "XAB");
    assert_eq!(next.selections.primary().head(), 1);
}

#[test]
fn update_enter_select_sets_select_mode() {
    let state = EditorState::new("ABC", 5, 5);
    let next = state.update(Action::EnterSelect);
    assert_eq!(next.mode, Mode::Select);
}

#[test]
fn update_move_right_in_select_mode_extends_selection() {
    let state = EditorState::new("ABCDE", 5, 5);
    let state = state.update(Action::EnterSelect);
    let next = state.update(Action::MoveRight);

    let primary = next.selections.primary();
    assert_eq!(primary.anchor(), 0);
    assert_eq!(primary.head(), 1);
    assert_eq!(next.mode, Mode::Select);
}

#[test]
fn update_delete_in_select_mode_deletes_range_and_returns_to_normal() {
    let state = EditorState::new("hello world", 5, 5);
    let state = state.update(Action::EnterSelect);
    let state = state.update(Action::MoveRight);
    let state = state.update(Action::MoveRight);
    let next = state.update(Action::Delete);

    assert_eq!(next.buffer.slice(0, next.buffer.len()), "llo world");
    assert_eq!(next.mode, Mode::Normal);
    assert_eq!(next.selections.primary().head(), 0);
}

#[test]
fn update_change_in_select_mod_deletes_range_and_enters_insert() {
    let state = EditorState::new("hello world", 5, 5);
    let state = state.update(Action::EnterSelect);
    let state = state.update(Action::MoveRight);
    let state = state.update(Action::MoveRight);
    let next = state.update(Action::Change);

    assert_eq!(next.buffer.slice(0, next.buffer.len()), "llo world");
    assert_eq!(next.mode, Mode::Insert);
    assert_eq!(next.selections.primary().head(), 0);
}

#[test]
fn update_yank_copies_selected_text_to_register() {
    let state = EditorState::new("hello world", 5, 5);
    let mut state = state.update(Action::EnterSelect);
    for _ in 0..5 {
        state = state.update(Action::MoveRight);
    }

    let next = state.update(Action::Yank);

    assert_eq!(next.register.as_deref(), Some("hello"));
    assert_eq!(next.mode, Mode::Normal);
    assert_eq!(next.buffer.slice(0, next.buffer.len()), "hello world");
}

#[test]
fn update_paste_inserts_register_text_and_records_in_history() {
    let state = EditorState::new(" world", 5, 5);
    let mut state = state;
    state.register = Some("hello".to_string());

    let next = state.update(Action::Paste);

    assert_eq!(next.buffer.slice(0, next.buffer.len()), "hello world");
    assert_eq!(next.selections.primary().head(), 5);
    assert_eq!(next.mode, Mode::Normal);

    let undone = next.update(Action::Undo);
    assert_eq!(undone.buffer.slice(0, undone.buffer.len()), " world");
}

#[test]
fn update_yank_collapses_selection_to_point_cursor() {
    let state = EditorState::new("hello world", 5, 5);
    let mut state = state.update(Action::EnterSelect);
    for _ in 0..5 {
        state = state.update(Action::MoveRight);
    }
    let next = state.update(Action::Yank);

    let primary = next.selections.primary();
    assert!(primary.is_empty());
    assert_eq!(primary.head(), 5);
}

#[test]
fn register_persists_across_motions_and_mode_changes() {
    let state = EditorState::new("hello world", 5, 5);
    let state = state.update(Action::EnterSelect);
    let state = state.update(Action::MoveRight);
    let state = state.update(Action::Yank);
    let next = state.update(Action::MoveRight);

    assert_eq!(next.register.as_deref(), Some("h"));
}

#[test]
fn restore_cursor_clamps_to_buffer_len() {
    let mut state = EditorState::new("hi", 5, 5);
    state.restore_cursor(999);
    let head = state.selections.primary().head();
    assert_eq!(head, 2);
}

#[test]
fn backspace_removes_whole_grapheme_and_undo_brings_it_back() {
    let mut state = EditorState::new("ae\u{301}b", 5, 10);
    state.restore_cursor(4);
    let state = state.update(Action::Backspace);
    assert_eq!(state.buffer.slice(0, state.buffer.len()), "ab");
    assert_eq!(state.selections.primary().head(), 1);
    assert!(state.is_dirty);
    let state = state.update(Action::Undo);
    assert_eq!(state.buffer.slice(0, state.buffer.len()), "ae\u{301}b");
    assert_eq!(state.selections.primary().head(), 4);
}

#[test]
fn paste_with_empty_register_changes_nothing() {
    let mut state = EditorState::new("abc", 5, 5);
    state.register = Some(String::new());
    let next = state.update(Action::Paste);
    assert_eq!(next.buffer.slice(0, next.buffer.len()), "abc");
    assert!(!next.is_dirty);
    assert_eq!(next.selections.primary().head(), 0);
}

#[test]
fn yank_of_cursor_copies_byte_under_it() {
    let state = EditorState::new("xyz", 5, 5);
    let next = state.update(Action::Yank);
    assert_eq!(next.register.as_deref(), Some("x"));
    assert_eq!(next.selections.primary().head(), 1);
}

#[test]
fn undo_at_root_changes_nothing() {
    let mut state = EditorState::new("abc", 5, 5);
    state.register = Some("kept".to_string());
    let next = state.update(Action::Undo);
    assert_eq!(next.register.as_deref(), Some("kept"));
    assert_eq!(next.buffer.slice(0, next.buffer.len()), "abc");
    assert!(!next.is_dirty);
}

#[test]
fn redo_with_nothing_to_redo_marks_dirty_and_clears_register() {
    let mut state = EditorState::new("abc", 5, 5);
    state.register = Some("kept".to_string());
    let next = state.update(Action::Redo);
    assert_eq!(next.register, None);
    assert!(next.is_dirty);
    assert_eq!(next.buffer.slice(0, next.buffer.len()), "abc");
}

#[test]
fn undo_then_redo_of_delete_gives_same_text() {
    let state = EditorState::new("hello", 5, 5);
    let state = state.update(Action::Delete);
    assert_eq!(state.buffer.slice(0, state.buffer.len()), "ello");
    let state = state.update(Action::Undo);
    assert_eq!(state.buffer.slice(0, state.buffer.len()), "hello");
    let state = state.update(Action::Redo);
    assert_eq!(state.buffer.slice(0, state.buffer.len()), "ello");
    assert_eq!(state.selections.primary().head(), 0);
}

#[test]
fn delete_at_end_of_text_keeps_text() {
    let mut state = EditorState::new("ab", 5, 5);
    state.restore_cursor(2);
    let next = state.update(Action::Delete);
    assert_eq!(next.buffer.slice(0, next.buffer.len()), "ab");
    assert!(next.is_dirty);
}

#[test]
fn can_update_refuses_insert_inside_a_character() {
    let mut state = EditorState::new("é", 5, 5);
    state.restore_cursor(1);
    assert!(!state.can_update(&Action::InsertChar('x')));
    assert!(state.can_update(&Action::MoveLeft));
    state.restore_cursor(2);
    assert!(state.can_update(&Action::InsertChar('x')));
}

#[test]
fn yank_then_paste_duplicates_selection() {
    let state = EditorState::new("ab", 5, 5);
    let state = state.update(Action::EnterSelect);
    let state = state.update(Action::MoveRight);
    let state = state.update(Action::MoveRight);
    let state = state.update(Action::Yank);
    assert_eq!(state.register.as_deref(), Some("ab"));
    let state = state.update(Action::Paste);
    assert_eq!(state.buffer.slice(0, state.buffer.len()), "abab");
    assert_eq!(state.selections.primary().head(), 4);
    assert_eq!(state.mode, Mode::Normal);
}

#[test]
fn can_update_tests_every_selection_of_a_delete() {
    let mut state = EditorState::new("abc", 5, 5);
    let mut set = SelectionSet::single(Selection::cursor(0));
    set.add(Selection::cursor(1));
    state.selections = set;
    assert!(state.can_update(&Action::Delete));
    let next = state.update(Action::Delete);
    assert_eq!(next.buffer.slice(0, next.buffer.len()), "c");

    // the second cursor sits inside a two-byte character
    let mut state = EditorState::new("aéb", 5, 5);
    let mut set = SelectionSet::single(Selection::cursor(0));
    set.add(Selection::cursor(2));
    state.selections = set;
    assert!(!state.can_update(&Action::Delete));
    assert!(!state.can_update(&Action::Change));

    // the cursors a delete leaves at 0 and 3 would lie past the end of "é"
    let mut state = EditorState::new("aéb", 5, 5);
    let mut set = SelectionSet::single(Selection::cursor(0));
    set.add(Selection::cursor(3));
    state.selections = set;
    assert!(!state.can_update(&Action::Delete));
}

#[test]
fn newline_typed_while_scrolled_right_scrolls_back_to_column_zero() {
    let mut state = EditorState::new("abcdefgh", 5, 5);
    state.restore_cursor(8);
    state.viewport = Viewport::new(0, 4, 5, 5);
    let state = state.update(Action::EnterInsert);
    let next = state.update(Action::InsertChar('\n'));
    assert_eq!(next.selections.primary().head(), 9);
    assert_eq!(next.viewport.left(), 0);
    assert_eq!(next.viewport.top(), 0);
}

#[test]
fn yank_scrolls_to_the_cursor_it_leaves() {
    let mut state = EditorState::new("abcdefgh", 5, 3);
    state.viewport = Viewport::new(0, 0, 5, 3);
    let state = state.update(Action::EnterSelect);
    let mut state = state;
    for _ in 0..5 {
        state = state.update(Action::MoveRight);
    }
    state.viewport = Viewport::new(0, 0, 5, 3);
    let next = state.update(Action::Yank);
    assert_eq!(next.selections.primary().head(), 5);
    assert_eq!(next.viewport.left(), 3);
}

#[test]
fn the_head_stays_in_view_through_a_run_of_actions() {
    let mut state = EditorState::new("abc\ndefghij\nk", 2, 3);
    let actions = [
        Action::MoveDown,
        Action::MoveRight,
        Action::MoveRight,
        Action::MoveRight,
        Action::EnterInsert,
        Action::InsertChar('\n'),
        Action::MoveUp,
        Action::EnterNormal,
        Action::Undo,
        Action::Redo,
    ];
    for a in actions {
        if !state.can_update(&a) {
            continue;
        }
        state = state.update(a);
        let text = state.buffer.slice(0, state.buffer.len()).to_string();
        let (l, c) = manotz::render::byte_to_line_col(&text, state.selections.primary().head()).unwrap();
        let vp = &state.viewport;
        assert!(vp.top() <= l && l < vp.top() + vp.rows());
        assert!(vp.left() <= c && c < vp.left() + vp.cols());
    }
}
