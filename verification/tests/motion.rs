use manotz::command::motion::{motion_down, motion_left, motion_right, motion_up};
use manotz::input::Mode;
use manotz::selection::{Selection, SelectionSet};

#[test]
fn motion_move_left() {
    let selection_set = SelectionSet::single(Selection::cursor(5));
    let new_selection_set = motion_left(&selection_set, Mode::Normal);
    assert_eq!(*new_selection_set.primary(), Selection::cursor(4));
}

#[test]
fn motion_move_left_clamps_at_zero() {
    let selection_set = SelectionSet::single(Selection::cursor(0));
    let new_selection_set = motion_left(&selection_set, Mode::Select);
    assert_eq!(*new_selection_set.primary(), Selection::cursor(0));
}

#[test]
fn motion_move_right() {
    let selection_set = SelectionSet::single(Selection::cursor(5));
    let new_selection_set = motion_right(&selection_set, 10, Mode::Normal);
    assert_eq!(*new_selection_set.primary(), Selection::cursor(6));
}

#[test]
fn motion_move_right_clamps_at_end() {
    let selection_set = SelectionSet::single(Selection::cursor(9));
    let new_selection_set = motion_right(&selection_set, 10, Mode::Normal);
    assert_eq!(*new_selection_set.primary(), Selection::cursor(10));
}

#[test]
fn motion_move_right_past_end_stays_at_len() {
    let selection_set = SelectionSet::single(Selection::cursor(10));
    let new_selection_set = motion_right(&selection_set, 10, Mode::Normal);
    assert_eq!(*new_selection_set.primary(), Selection::cursor(10));
}

#[test]
fn motion_move_right_single_char() {
    let selection_set = SelectionSet::single(Selection::cursor(0));
    let new_selection_set = motion_right(&selection_set, 1, Mode::Normal);
    assert_eq!(*new_selection_set.primary(), Selection::cursor(1));
}

#[test]
fn motion_move_right_empty_buffer_stays_at_zero() {
    let selection_set = SelectionSet::single(Selection::cursor(0));
    let new_selection_set = motion_right(&selection_set, 0, Mode::Normal);
    assert_eq!(*new_selection_set.primary(), Selection::cursor(0));
}

#[test]
fn motion_down_same_column() {
    let selection_set = SelectionSet::single(Selection::cursor(0));
    let new_selection_set = motion_down(&selection_set, "AB\nCD", Mode::Normal);
    assert_eq!(new_selection_set.primary().head(), 3);
}

#[test]
fn motion_down_clamps_on_last_line() {
    let selection_set = SelectionSet::single(Selection::cursor(3));
    let new_selection_set = motion_down(&selection_set, "AB\nCD", Mode::Normal);
    assert_eq!(new_selection_set.primary().head(), 3);
}

#[test]
fn motion_up_same_column() {
    let selection_set = SelectionSet::single(Selection::cursor(3));
    let new_selection_set = motion_up(&selection_set, "AB\nCD", Mode::Normal);
    assert_eq!(new_selection_set.primary().head(), 0);
}

#[test]
fn motion_right_in_select_mode_keeps_anchor() {
    let selection_set = SelectionSet::single(Selection::cursor(2));
    let moved = motion_right(&selection_set, 10, Mode::Select);
    assert_eq!(*moved.primary(), Selection::new(2, 3));
}

#[test]
fn motion_down_to_shorter_line_clamps_to_its_end() {
    let selection_set = SelectionSet::single(Selection::cursor(3));
    let moved = motion_down(&selection_set, "ABCD\nE\nFGH", Mode::Normal);
    assert_eq!(moved.primary().head(), 6);
}

#[test]
fn motion_up_from_first_line_stays() {
    let selection_set = SelectionSet::single(Selection::cursor(1));
    let moved = motion_up(&selection_set, "AB\nCD", Mode::Normal);
    assert_eq!(moved.primary().head(), 1);
}

#[test]
fn motion_up_lands_at_the_end_of_a_shorter_line() {
    let text = "abc\nabcdef";
    let sels = SelectionSet::single(Selection::cursor(9));
    let up = motion_up(&sels, text, Mode::Normal);
    assert_eq!(up.primary().head(), 3);
    let sels = SelectionSet::single(Selection::cursor(6));
    let up = motion_up(&sels, text, Mode::Normal);
    assert_eq!(up.primary().head(), 2);
}
