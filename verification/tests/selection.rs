use manotz::selection::{Selection, SelectionSet};

#[test]
fn selection_at_start() {
    let sel = Selection::cursor(0);

    assert!(sel.is_empty());
    assert_eq!(sel.head(), 0);
    assert_eq!(sel.anchor(), 0);
}

#[test]
fn selection_with_range() {
    let sel = Selection::new(3, 7);

    assert!(!sel.is_empty());
    assert_eq!(sel.head(), 7);
    assert_eq!(sel.anchor(), 3);
}

#[test]
fn selection_direction_forward() {
    let sel = Selection::new(2, 5);
    assert!(sel.is_forward());
}

#[test]
fn selection_direction_backward() {
    let sel = Selection::new(5, 2);
    assert!(sel.is_backward());
}

#[test]
fn selection_move_head() {
    let mut sel = Selection::cursor(5);
    sel.move_head(10);
    assert_eq!(sel.head(), 10);
    assert_eq!(sel.anchor(), 10);
    assert!(sel.is_empty());
}

#[test]
fn selection_extend() {
    let mut sel = Selection::cursor(5);
    sel.extend(10);
    assert_eq!(sel.head(), 10);
    assert_eq!(sel.anchor(), 5);
    assert!(!sel.is_empty());
}

#[test]
fn selection_flip() {
    let mut sel = Selection::new(3, 7);
    sel.flip();
    assert_eq!(sel.head(), 3);
    assert_eq!(sel.anchor(), 7);
}

#[test]
fn selection_set_single() {
    let set = SelectionSet::single(Selection::cursor(5));
    assert_eq!(*set.primary(), Selection::cursor(5));
    assert_eq!(set.len(), 1);
}

#[test]
fn selection_set_add_non_overlapping() {
    let mut set = SelectionSet::single(Selection::cursor(5));
    set.add(Selection::cursor(10));
    assert_eq!(set.len(), 2);
}

#[test]
fn selection_set_add_sorted() {
    let mut set = SelectionSet::single(Selection::cursor(10));
    set.add(Selection::cursor(5));
    assert_eq!(set.len(), 2);
    assert_eq!(set.selections[0].head(), 5);
    assert_eq!(set.selections[1].head(), 10);
}

#[test]
fn selection_set_add_overlapping_merges() {
    let mut set = SelectionSet::single(Selection::new(3, 7));
    set.add(Selection::new(5, 10));
    assert_eq!(set.len(), 1);
    assert_eq!(*set.primary(), Selection::new(3, 10));
}

#[test]
fn selection_set_change_primary() {
    let mut set = SelectionSet::single(Selection::cursor(5));
    set.add(Selection::cursor(10));
    set.set_primary(1);
    assert_eq!(*set.primary(), Selection::cursor(10));
}

#[test]
fn selection_overlaps_and_merge() {
    let a = Selection::new(1, 4);
    let b = Selection::new(4, 6);
    let c = Selection::new(5, 6);
    assert!(a.overlaps(&b));
    assert!(!a.overlaps(&c));
    assert_eq!(a.merge(&b), Selection::new(1, 6));
}

#[test]
fn from_vec_sorts_and_merges() {
    let set = SelectionSet::from_vec(vec![
        Selection::cursor(9),
        Selection::new(2, 4),
        Selection::cursor(3),
    ]);
    assert_eq!(set.len(), 2);
    assert_eq!(set.selections[0], Selection::new(2, 4));
    assert_eq!(set.selections[1], Selection::cursor(9));
    assert!(!set.is_empty());
}

#[test]
fn add_merges_every_overlapping_selection() {
    let mut set = SelectionSet::from_vec(vec![Selection::cursor(1), Selection::cursor(3), Selection::cursor(8)]);
    set.add(Selection::new(0, 4));
    assert_eq!(set.len(), 2);
    assert_eq!(set.selections[0], Selection::new(0, 4));
    assert_eq!(set.selections[1], Selection::cursor(8));
}

#[test]
fn iterating_a_set_walks_selections_in_order() {
    let mut set = SelectionSet::single(Selection::new(10, 12));
    set.add(Selection::new(0, 2));
    set.add(Selection::new(5, 6));
    let mut heads: Vec<usize> = Vec::new();
    for sel in &set {
        heads.push(sel.head());
    }
    assert_eq!(heads, vec![2, 6, 12]);
}

#[test]
fn add_keeps_the_primary_within_the_set() {
    let mut set = SelectionSet::single(Selection::new(0, 2));
    set.add(Selection::new(4, 6));
    set.add(Selection::new(8, 10));
    set.set_primary(2);
    set.add(Selection::new(1, 9));
    assert_eq!(set.len(), 1);
    assert_eq!(*set.primary(), Selection::new(0, 10));

    let mut set = SelectionSet::single(Selection::new(0, 2));
    set.add(Selection::new(4, 6));
    set.set_primary(1);
    set.add(Selection::new(8, 10));
    assert_eq!(*set.primary(), Selection::new(4, 6));
}

#[test]
fn from_vec_is_no_longer_than_its_input_and_empty_only_for_none() {
    assert_eq!(SelectionSet::from_vec(vec![]).len(), 0);
    let set = SelectionSet::from_vec(vec![Selection::new(0, 3), Selection::new(2, 5), Selection::cursor(9)]);
    assert_eq!(set.len(), 2);
}
