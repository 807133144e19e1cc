use manotz::buffer::{Buffer, GapBuffer};
use manotz::command::{Edit, Transaction};
use manotz::history::{History, MergeKey, MERGE_WINDOW_NANOS};
use manotz::selection::{Selection, SelectionSet};

#[test]
fn undo_restores_buffer_after_one_edit() {
    let mut buffer = GapBuffer::new("hello");
    let mut history = History::new();
    let prior = SelectionSet::single(Selection::cursor(0));

    history.record(
        Transaction::new(
            vec![Edit::new(0, 5, "hello", "goodbye")],
            SelectionSet::single(Selection::cursor(0)),
        ),
        &mut buffer,
        prior,
        MergeKey::Other,
    );
    assert_eq!(buffer.slice(0, buffer.len()), "goodbye");

    history.undo(&mut buffer);
    assert_eq!(buffer.slice(0, buffer.len()), "hello");
}

#[test]
fn undo_restores_selections_after_one_edit() {
    let mut buffer = GapBuffer::new("hello");
    let mut history = History::new();
    let prior = SelectionSet::single(Selection::cursor(0));
    let after = SelectionSet::single(Selection::cursor(7));

    history.record(
        Transaction::new(vec![Edit::new(0, 5, "hello", "goodbye")], after),
        &mut buffer,
        prior.clone(),
        MergeKey::Other,
    );

    let restored = history.undo(&mut buffer);
    assert_eq!(buffer.slice(0, buffer.len()), "hello");
    assert_eq!(restored, Some(prior));
}

#[test]
fn redo_reapplies_after_undo() {
    let mut buffer = GapBuffer::new("hello world");
    let mut history = History::new();
    let prior = SelectionSet::single(Selection::cursor(0));
    let after = SelectionSet::single(Selection::cursor(7));

    history.record(
        Transaction::new(vec![Edit::new(0, 5, "hello", "goodbye")], after.clone()),
        &mut buffer,
        prior,
        MergeKey::Other,
    );
    history.undo(&mut buffer);

    let restored = history.redo(&mut buffer);
    assert_eq!(buffer.slice(0, buffer.len()), "goodbye world");
    assert_eq!(restored, Some(after));
}

#[test]
fn record_after_undo_creates_new_branch() {
    let mut buffer = GapBuffer::new("hello");
    let mut history = History::new();
    let prior = SelectionSet::single(Selection::cursor(0));

    history.record(
        Transaction::new(
            vec![Edit::new(0, 5, "hello", "goodbye")],
            SelectionSet::single(Selection::cursor(0)),
        ),
        &mut buffer,
        prior.clone(),
        MergeKey::Other,
    );
    history.undo(&mut buffer);

    history.record(
        Transaction::new(
            vec![Edit::new(0, 5, "hello", "hey")],
            SelectionSet::single(Selection::cursor(0)),
        ),
        &mut buffer,
        prior,
        MergeKey::Other,
    );
    assert_eq!(buffer.slice(0, buffer.len()), "hey");

    history.undo(&mut buffer);
    history.redo(&mut buffer);
    assert_eq!(buffer.slice(0, buffer.len()), "hey");
}

#[test]
fn consecutive_inserts_undo_as_one_step() {
    let mut history = History::new();
    let mut buffer = GapBuffer::new("");
    let prior = SelectionSet::single(Selection::cursor(0));

    history.record(
        Transaction::new(
            vec![Edit::new(0, 0, "", "a")],
            SelectionSet::single(Selection::cursor(1)),
        ),
        &mut buffer,
        prior.clone(),
        MergeKey::Insert,
    );
    history.record(
        Transaction::new(
            vec![Edit::new(1, 1, "", "b")],
            SelectionSet::single(Selection::cursor(2)),
        ),
        &mut buffer,
        SelectionSet::single(Selection::cursor(1)),
        MergeKey::Insert,
    );
    history.record(
        Transaction::new(
            vec![Edit::new(2, 2, "", "c")],
            SelectionSet::single(Selection::cursor(3)),
        ),
        &mut buffer,
        SelectionSet::single(Selection::cursor(2)),
        MergeKey::Insert,
    );

    assert_eq!(buffer.slice(0, buffer.len()), "abc");

    history.undo(&mut buffer);
    assert_eq!(buffer.slice(0, buffer.len()), "");
}

#[test]
fn undo_on_fresh_history_returns_none_and_keeps_text() {
    let mut buffer = GapBuffer::new("abc");
    let mut history = History::new();
    assert!(!history.can_undo());
    assert_eq!(history.undo(&mut buffer), None);
    assert_eq!(buffer.slice(0, buffer.len()), "abc");
    assert_eq!(history.redo(&mut buffer), None);
}

#[test]
fn other_edits_are_never_merged() {
    let mut buffer = GapBuffer::new("");
    let mut history = History::new();
    history.record(
        Transaction::new(
            vec![Edit::new(0, 0, "", "a")],
            SelectionSet::single(Selection::cursor(1)),
        ),
        &mut buffer,
        SelectionSet::single(Selection::cursor(0)),
        MergeKey::Other,
    );
    history.record(
        Transaction::new(
            vec![Edit::new(1, 1, "", "b")],
            SelectionSet::single(Selection::cursor(2)),
        ),
        &mut buffer,
        SelectionSet::single(Selection::cursor(1)),
        MergeKey::Other,
    );
    let restored = history.undo(&mut buffer);
    assert_eq!(buffer.slice(0, buffer.len()), "a");
    assert_eq!(restored, Some(SelectionSet::single(Selection::cursor(1))));
    assert!(history.can_redo());
}

#[test]
fn can_replay_follows_the_current_text() {
    let mut buffer = GapBuffer::new("hello");
    let mut history = History::new();
    assert!(history.can_replay(&buffer));
    history.record(
        Transaction::new(
            vec![Edit::new(0, 5, "hello", "bye")],
            SelectionSet::single(Selection::cursor(3)),
        ),
        &mut buffer,
        SelectionSet::single(Selection::cursor(0)),
        MergeKey::Other,
    );
    history.undo(&mut buffer);
    assert!(history.can_replay(&buffer));
    let other = GapBuffer::new("world");
    assert!(!history.can_replay(&other));
}

#[test]
fn record_keeps_selections_that_lie_past_the_text() {
    let mut buffer = GapBuffer::new("hello");
    let mut history = History::new();
    let prior = SelectionSet::single(Selection::cursor(100));
    let after = SelectionSet::single(Selection::cursor(200));
    history.record(
        Transaction::new(vec![Edit::new(0, 5, "hello", "hey")], after.clone()),
        &mut buffer,
        prior.clone(),
        MergeKey::Other,
    );
    assert_eq!(buffer.slice(0, buffer.len()), "hey");
    assert_eq!(history.undo(&mut buffer), Some(prior));
    assert_eq!(buffer.slice(0, buffer.len()), "hello");
    assert_eq!(history.redo(&mut buffer), Some(after));
    assert_eq!(buffer.slice(0, buffer.len()), "hey");
}

#[test]
fn inserts_within_the_window_merge_and_undo_as_one_step() {
    let mut history = History::new();
    let mut buffer = GapBuffer::new("");
    let inserts = [(0, "a"), (1, "b"), (2, "c")];
    for (k, (at, text)) in inserts.iter().enumerate() {
        history.record_waited(
            Transaction::new(
                vec![Edit::new(*at, *at, "", text)],
                SelectionSet::single(Selection::cursor(at + 1)),
            ),
            &mut buffer,
            SelectionSet::single(Selection::cursor(*at)),
            MergeKey::Insert,
            if k == 0 { None } else { Some(1_000) },
        );
    }
    assert_eq!(buffer.slice(0, buffer.len()), "abc");
    assert_eq!(history.undo(&mut buffer), Some(SelectionSet::single(Selection::cursor(0))));
    assert_eq!(buffer.slice(0, buffer.len()), "");
}

#[test]
fn an_insert_after_the_window_is_a_step_of_its_own() {
    let mut history = History::new();
    let mut buffer = GapBuffer::new("");
    history.record_waited(
        Transaction::new(vec![Edit::new(0, 0, "", "a")], SelectionSet::single(Selection::cursor(1))),
        &mut buffer,
        SelectionSet::single(Selection::cursor(0)),
        MergeKey::Insert,
        None,
    );
    history.record_waited(
        Transaction::new(vec![Edit::new(1, 1, "", "b")], SelectionSet::single(Selection::cursor(2))),
        &mut buffer,
        SelectionSet::single(Selection::cursor(1)),
        MergeKey::Insert,
        Some(MERGE_WINDOW_NANOS + 1),
    );
    assert_eq!(history.undo(&mut buffer), Some(SelectionSet::single(Selection::cursor(1))));
    assert_eq!(buffer.slice(0, buffer.len()), "a");
}
