use manotz::session::SessionState;

#[test]
fn update_cursor_records_last_file_and_offset() {
    let mut state = SessionState::default();
    state.update_cursor("notes/a.md".to_string(), 42);
    assert_eq!(state.last_open_file.as_deref(), Some("notes/a.md"));
    assert_eq!(state.cursor_for(&"notes/a.md".to_string()), Some(42));
    assert_eq!(state.cursor_for(&"notes/b.md".to_string()), None);
}

#[test]
fn update_cursor_replaces_offset_of_same_file() {
    let mut state = SessionState::default();
    state.update_cursor("a.md".to_string(), 1);
    state.update_cursor("b.md".to_string(), 2);
    state.update_cursor("a.md".to_string(), 3);
    assert_eq!(state.cursors.len(), 2);
    assert_eq!(state.cursor_for(&"a.md".to_string()), Some(3));
    assert_eq!(state.cursor_for(&"b.md".to_string()), Some(2));
    assert_eq!(state.last_open_file.as_deref(), Some("a.md"));
}

#[test]
fn has_unique_paths_finds_a_repeated_path() {
    let mut state = SessionState::default();
    state.update_cursor("a.md".to_string(), 1);
    state.update_cursor("b.md".to_string(), 2);
    assert!(state.has_unique_paths());
    state.cursors.push(("a.md".to_string(), 3));
    assert!(!state.has_unique_paths());
}
