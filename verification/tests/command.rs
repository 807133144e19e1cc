use manotz::buffer::{Buffer, GapBuffer};
use manotz::command::{Edit, Transaction, action_delete};
use manotz::selection::{Selection, SelectionSet};

#[test]
fn edit_records_change() {
    let edit = Edit::new(0, 5, "hello", "world");
    assert_eq!(edit.range(), (0, 5));
    assert_eq!(edit.old_text(), "hello");
    assert_eq!(edit.new_text(), "world");
}

#[test]
fn transaction_applied_edits() {
    let mut buf = GapBuffer::new("hello world");
    let tx = Transaction::new(
        vec![Edit::new(0, 5, "hello", "goodbye")],
        SelectionSet::single(Selection::cursor(7)),
    );
    tx.apply(&mut buf);
    assert_eq!(buf.slice(0, 13), "goodbye world");
}

#[test]
fn transaction_unapply_restores_buffer() {
    let mut buf = GapBuffer::new("hello world");
    let tx = Transaction::new(
        vec![Edit::new(0, 5, "hello", "goodbye")],
        SelectionSet::single(Selection::cursor(7)),
    );
    tx.apply(&mut buf);
    tx.unapply(&mut buf);
    assert_eq!(buf.slice(0, buf.len()), "hello world");
}

#[test]
fn action_delete_selection() {
    let mut buf = GapBuffer::new("hello world");
    let selections = SelectionSet::single(Selection::new(0, 4));
    let tx = action_delete(&selections, &buf);
    tx.apply(&mut buf);
    assert_eq!(buf.slice(0, buf.len()), "o world");
}

#[test]
fn action_delete_point_cursor() {
    let mut buffer = GapBuffer::new("hello world");
    let selections = SelectionSet::single(Selection::cursor(0));
    let tx = action_delete(&selections, &buffer);
    tx.apply(&mut buffer);
    assert_eq!(buffer.slice(0, buffer.len()), "ello world")
}

#[test]
fn action_delete_range_selection() {
    let mut buffer = GapBuffer::new("hello world");
    let selections = SelectionSet::single(Selection::new(0, 5));
    let tx = action_delete(&selections, &buffer);
    tx.apply(&mut buffer);
    assert_eq!(buffer.slice(0, buffer.len()), " world");
}

#[test]
fn action_delete_at_eof_does_not_panic() {
    let buf = GapBuffer::new("ABC");
    let selections = SelectionSet::single(Selection::cursor(3));
    let tx = action_delete(&selections, &buf);
    assert_eq!(tx.new_selections().primary().head(), 3);
}

#[test]
fn transaction_with_two_edits_applies_last_first_and_undoes() {
    let mut buf = GapBuffer::new("abcdef");
    let tx = Transaction::new(
        vec![Edit::new(0, 1, "a", "XX"), Edit::new(3, 4, "d", "")],
        SelectionSet::single(Selection::cursor(0)),
    );
    tx.apply(&mut buf);
    assert_eq!(buf.slice(0, buf.len()), "XXbcef");
    tx.unapply(&mut buf);
    assert_eq!(buf.slice(0, buf.len()), "abcdef");
}

#[test]
fn action_delete_backward_selection_deletes_low_to_high() {
    let mut buf = GapBuffer::new("hello world");
    let selections = SelectionSet::single(Selection::new(4, 1));
    let tx = action_delete(&selections, &buf);
    tx.apply(&mut buf);
    assert_eq!(buf.slice(0, buf.len()), "ho world");
    assert_eq!(tx.new_selections().primary().head(), 1);
}

#[test]
fn coalesce_insert_joins_adjacent_inserts() {
    let first = Transaction::new(
        vec![Edit::new(0, 0, "", "a")],
        SelectionSet::single(Selection::cursor(1)),
    );
    let second = Transaction::new(
        vec![Edit::new(1, 1, "", "b")],
        SelectionSet::single(Selection::cursor(2)),
    );
    let merged = first.coalesce_insert(&second).unwrap();
    let mut buf = GapBuffer::new("");
    merged.apply(&mut buf);
    assert_eq!(buf.slice(0, buf.len()), "ab");
    assert_eq!(merged.new_selections().primary().head(), 2);
}

#[test]
fn coalesce_insert_refuses_non_adjacent_inserts() {
    let first = Transaction::new(
        vec![Edit::new(0, 0, "", "a")],
        SelectionSet::single(Selection::cursor(1)),
    );
    let second = Transaction::new(
        vec![Edit::new(3, 3, "", "b")],
        SelectionSet::single(Selection::cursor(4)),
    );
    assert!(first.coalesce_insert(&second).is_none());
}

#[test]
fn transaction_fits_checks_ranges_and_old_text() {
    let tx = Transaction::new(
        vec![Edit::new(0, 5, "hello", "bye")],
        SelectionSet::single(Selection::cursor(0)),
    );
    assert!(tx.fits("hello world"));
    assert!(!tx.fits("howdy world"));
    assert!(!tx.fits("hell"));
    let unordered = Transaction::new(
        vec![Edit::new(3, 4, "d", ""), Edit::new(0, 1, "a", "")],
        SelectionSet::single(Selection::cursor(0)),
    );
    assert!(!unordered.fits("abcdef"));
}

#[test]
fn coalesce_insert_refuses_when_the_end_overflows() {
    let first = Transaction::new(
        vec![Edit::new(usize::MAX, usize::MAX, "", "ab")],
        SelectionSet::single(Selection::cursor(0)),
    );
    let next = Transaction::new(
        vec![Edit::new(1, 1, "", "c")],
        SelectionSet::single(Selection::cursor(0)),
    );
    assert!(first.coalesce_insert(&next).is_none());
}

#[test]
fn delete_of_one_selection_removes_its_range_and_leaves_a_cursor_at_its_start() {
    let buf = GapBuffer::new("hello world");
    let tx = action_delete(&SelectionSet::single(Selection::new(0, 4)), &buf);
    let mut b2 = GapBuffer::new("hello world");
    tx.apply(&mut b2);
    assert_eq!(b2.slice(0, b2.len()), "o world");
    assert_eq!(*tx.new_selections(), SelectionSet::single(Selection::cursor(0)));
    assert_eq!(buf.slice(0, buf.len()), "hello world");
}
