//! Cursor motions. In select mode a motion moves the head and keeps the
//! anchor; otherwise it leaves a collapsed cursor at the new head.

use vstd::prelude::*;
use vstd::utf8::*;
use vstd::string::*;
use crate::input::Mode;
use crate::render::{
    byte_to_line_col, find_line_col, lemma_find_line_col_exists, lemma_find_line_col_result,
    line_col, line_col_at, line_col_to_byte, lemma_find_line_col_found, is_newline, lemma_line_start, lemma_line_col_mono, line_start_at};
use crate::selection::{Selection, SelectionSet};
use crate::selection::cursor::{group_selection, make};
use crate::selection::selection_set::add_all;

verus! {

broadcast use group_selection;

/// The selection a motion to `new_head` leaves.
pub open spec fn mode_selection(anchor: usize, new_head: usize, mode: Mode) -> Selection {
    match mode {
        Mode::Select => make(anchor, new_head),
        _ => make(new_head, new_head),
    }
}

fn selection_for_mode(anchor: usize, new_head: usize, mode: Mode) -> (s: Selection)
    ensures
        s == mode_selection(anchor, new_head, mode),
{
    match mode {
        Mode::Select => Selection::new(anchor, new_head),
        Mode::Normal | Mode::Insert => Selection::cursor(new_head),
    }
}

/// One byte to the left, stopping at 0.
pub open spec fn left_head(h: usize) -> usize {
    if h == 0 {
        0
    } else {
        (h - 1) as usize
    }
}

/// One byte to the right, stopping at `len`.
pub open spec fn right_head(h: usize, len: usize) -> usize {
    if h + 1 <= len {
        (h + 1) as usize
    } else {
        len
    }
}

/// Same column of the next line (clamped to its end); stays put on the last line.
pub open spec fn down_head(b: Seq<u8>, h: usize) -> usize {
    let lc = line_col_at(b, h as int);
    match find_line_col(b, lc.0 + 1, lc.1, 0) {
        Some(q) => q as usize,
        None => h,
    }
}

/// Same column of the previous line (clamped to its end); stays put on the first line.
pub open spec fn up_head(b: Seq<u8>, h: usize) -> usize {
    let lc = line_col_at(b, h as int);
    if lc.0 == 0 {
        h
    } else {
        find_line_col(b, lc.0 - 1, lc.1, 0)->Some_0 as usize
    }
}

/// The selections every selection of `sels` becomes under a head motion.
pub open spec fn moved(sels: Seq<Selection>, heads: spec_fn(Selection) -> usize, mode: Mode) -> Seq<Selection> {
    Seq::new(sels.len(), |i: int| mode_selection(sels[i].spec_anchor(), heads(sels[i]), mode))
}

pub fn motion_left(selections: &SelectionSet, mode: Mode) -> (r: SelectionSet)
    ensures
        r.primary == 0,
        r.selections@ == add_all(
            Seq::empty(),
            moved(selections.selections@, |s: Selection| left_head(s.spec_head()), mode),
        ),
{
    let ghost sels = selections.selections@;
    let mut new_selections: Vec<Selection> = Vec::new();
    let mut i: usize = 0;
    while i < selections.selections.len()
        invariant
            i <= sels.len(),
            sels == selections.selections@,
            new_selections@ == moved(sels, |s: Selection| left_head(s.spec_head()), mode).subrange(0, i as int),
        decreases sels.len() - i,
    {
        let selection = &selections.selections[i];
        let h = selection.head();
        let new_head = if h == 0 { 0 } else { h - 1 };
        let new_sel = selection_for_mode(selection.anchor(), new_head, mode);
        new_selections.push(new_sel);
        i += 1;
        assert(new_selections@ =~= moved(sels, |s: Selection| left_head(s.spec_head()), mode).subrange(0, i as int));
    }
    assert(new_selections@ =~= moved(sels, |s: Selection| left_head(s.spec_head()), mode));
    SelectionSet::from_vec(new_selections)
}

pub fn motion_right(selections: &SelectionSet, buf_len: usize, mode: Mode) -> (r: SelectionSet)
    ensures
        r.primary == 0,
        r.selections@ == add_all(
            Seq::empty(),
            moved(selections.selections@, |s: Selection| right_head(s.spec_head(), buf_len), mode),
        ),
{
    let ghost sels = selections.selections@;
    let mut new_selections: Vec<Selection> = Vec::new();
    let mut i: usize = 0;
    while i < selections.selections.len()
        invariant
            i <= sels.len(),
            sels == selections.selections@,
            new_selections@ == moved(sels, |s: Selection| right_head(s.spec_head(), buf_len), mode).subrange(0, i as int),
        decreases sels.len() - i,
    {
        let selection = &selections.selections[i];
        let h = selection.head();
        let new_head = if h < buf_len { h + 1 } else { buf_len };
        let new_sel = selection_for_mode(selection.anchor(), new_head, mode);
        new_selections.push(new_sel);
        i += 1;
        assert(new_selections@ =~= moved(sels, |s: Selection| right_head(s.spec_head(), buf_len), mode).subrange(0, i as int));
    }
    assert(new_selections@ =~= moved(sels, |s: Selection| right_head(s.spec_head(), buf_len), mode));
    SelectionSet::from_vec(new_selections)
}

/// Every head lies within the text.
pub open spec fn heads_within(sels: Seq<Selection>, len: int) -> bool {
    forall|i: int| 0 <= i < sels.len() ==> (#[trigger] sels[i]).spec_head() <= len
}

pub fn motion_down(selections: &SelectionSet, text: &str, mode: Mode) -> (r: SelectionSet)
    requires
        heads_within(selections.selections@, text.spec_bytes().len() as int),
        text.spec_bytes().len() < usize::MAX,
    ensures
        r.primary == 0,
        r.selections@ == add_all(
            Seq::empty(),
            moved(selections.selections@, |s: Selection| down_head(text.spec_bytes(), s.spec_head()), mode),
        ),
{
    let ghost sels = selections.selections@;
    let ghost b = text.spec_bytes();
    let mut new_selections: Vec<Selection> = Vec::new();
    let mut i: usize = 0;
    while i < selections.selections.len()
        invariant
            i <= sels.len(),
            sels == selections.selections@,
            b == text.spec_bytes(),
            b.len() < usize::MAX,
            heads_within(sels, b.len() as int),
            new_selections@ == moved(sels, |s: Selection| down_head(b, s.spec_head()), mode).subrange(0, i as int),
        decreases sels.len() - i,
    {
        let selection = &selections.selections[i];
        let head = selection.head();
        assert(sels[i as int] == *selection);
        let (line, col) = byte_to_line_col(text, head).unwrap();
        proof {
            lemma_line_col_bounded(b, head as int);
        }
        let target_line = line + 1;
        let new_head = match line_col_to_byte(text, target_line, col) {
            None => head,
            Some(byte) => byte,
        };
        let new_sel = selection_for_mode(selection.anchor(), new_head, mode);
        new_selections.push(new_sel);
        i += 1;
        assert(new_selections@ =~= moved(sels, |s: Selection| down_head(b, s.spec_head()), mode).subrange(0, i as int));
    }
    assert(new_selections@ =~= moved(sels, |s: Selection| down_head(b, s.spec_head()), mode));
    SelectionSet::from_vec(new_selections)
}

pub fn motion_up(selections: &SelectionSet, text: &str, mode: Mode) -> (r: SelectionSet)
    requires
        heads_within(selections.selections@, text.spec_bytes().len() as int),
    ensures
        r.primary == 0,
        r.selections@ == add_all(
            Seq::empty(),
            moved(selections.selections@, |s: Selection| up_head(text.spec_bytes(), s.spec_head()), mode),
        ),
{
    let ghost sels = selections.selections@;
    let ghost b = text.spec_bytes();
    let mut new_selections: Vec<Selection> = Vec::new();
    let mut i: usize = 0;
    while i < selections.selections.len()
        invariant
            i <= sels.len(),
            sels == selections.selections@,
            b == text.spec_bytes(),
            heads_within(sels, b.len() as int),
            new_selections@ == moved(sels, |s: Selection| up_head(b, s.spec_head()), mode).subrange(0, i as int),
        decreases sels.len() - i,
    {
        let selection = &selections.selections[i];
        let head = selection.head();
        assert(sels[i as int] == *selection);
        let (line, col) = byte_to_line_col(text, head).unwrap();
        let new_head = if line == 0 {
            head
        } else {
            let target_line = line - 1;
            proof {
                lemma_line_col_upto_end(b, head as int);
                lemma_find_line_col_exists(b, target_line as int, col as int, 0);
                assert(b.subrange(0, 0) =~= Seq::<u8>::empty());
                lemma_find_line_col_result(b, target_line as int, col as int, 0);
            }
            line_col_to_byte(text, target_line, col).unwrap()
        };
        let new_sel = selection_for_mode(selection.anchor(), new_head, mode);
        new_selections.push(new_sel);
        i += 1;
        assert(new_selections@ =~= moved(sels, |s: Selection| up_head(b, s.spec_head()), mode).subrange(0, i as int));
    }
    assert(new_selections@ =~= moved(sels, |s: Selection| up_head(b, s.spec_head()), mode));
    SelectionSet::from_vec(new_selections)
}

/// Line and column of an offset are at most the offset.
pub proof fn lemma_line_col_bounded(b: Seq<u8>, p: int)
    requires
        0 <= p <= b.len(),
    ensures
        0 <= line_col_at(b, p).0 <= p,
        0 <= line_col_at(b, p).1 <= p,
    decreases p,
{
    if p > 0 {
        lemma_line_col_bounded(b, p - 1);
        assert(b.subrange(0, p).drop_last() =~= b.subrange(0, p - 1));
    }
}

proof fn lemma_line_col_upto_end(b: Seq<u8>, p: int)
    requires
        0 <= p <= b.len(),
    ensures
        line_col_at(b, p).0 <= line_col(b).0,
    decreases b.len() - p,
{
    if p < b.len() {
        lemma_line_col_upto_end(b, p + 1);
        assert(b.subrange(0, p + 1).drop_last() =~= b.subrange(0, p));
    } else {
        assert(b.subrange(0, p) =~= b);
    }
}


/// Moving up stays within the text.
pub proof fn lemma_up_head_within(b: Seq<u8>, h: usize)
    requires
        h <= b.len(),
    ensures
        up_head(b, h) <= b.len(),
{
    let lc = line_col_at(b, h as int);
    if lc.0 != 0 {
        lemma_line_col_upto_end(b, h as int);
        crate::render::lemma_line_col_nonneg(b.subrange(0, h as int));
        assert(b.subrange(0, 0) =~= Seq::<u8>::empty());
        lemma_find_line_col_exists(b, lc.0 - 1, lc.1, 0);
        lemma_find_line_col_result(b, lc.0 - 1, lc.1, 0);
    }
}

/// Moving down stays within the text.
pub proof fn lemma_down_head_within(b: Seq<u8>, h: usize)
    requires
        h <= b.len(),
    ensures
        down_head(b, h) <= b.len(),
{
    let lc = line_col_at(b, h as int);
    lemma_find_line_col_result(b, lc.0 + 1, lc.1, 0);
}

/// Moving up from line `l > 0` at column `c` lands on line `l - 1`, at
/// column `c`, or at the end of that line when it is shorter; on the first
/// line the head stays.
pub proof fn lemma_up_head_moves_up(b: Seq<u8>, h: usize)
    requires
        h <= b.len(),
        b.len() <= usize::MAX,
    ensures
        ({
            let lc = line_col_at(b, h as int);
            let q = up_head(b, h) as int;
            let nc = line_col_at(b, q);
            &&& lc.0 == 0 ==> q == h
            &&& lc.0 > 0 ==> {
                let n = line_col_at(b, line_start_at(b, h as int) - 1).1;
                &&& nc.0 == lc.0 - 1
                &&& nc.1 <= lc.1
                &&& (nc.1 == lc.1 || (q < b.len() && is_newline(b[q])))
                &&& nc.1 == if lc.1 <= n {
                    lc.1
                } else {
                    n
                }
            }
        }),
{
    let lc = line_col_at(b, h as int);
    if lc.0 != 0 {
        lemma_up_head_within(b, h);
        lemma_line_col_upto_end(b, h as int);
        crate::render::lemma_line_col_nonneg(b.subrange(0, h as int));
        assert(b.subrange(0, 0) =~= Seq::<u8>::empty());
        crate::render::lemma_find_line_col_exists(b, lc.0 - 1, lc.1, 0);
        crate::render::lemma_find_line_col_result(b, lc.0 - 1, lc.1, 0);
        lemma_find_line_col_found(b, lc.0 - 1, lc.1, 0);
        let q = up_head(b, h) as int;
        lemma_line_start(b, h as int);
        let ls = line_start_at(b, h as int);
        let e = ls - 1;
        crate::render::lemma_line_col_counts(b, h as int);
        assert(b.subrange(0, ls).drop_last() =~= b.subrange(0, e));
        assert(line_col_at(b, e).0 == lc.0 - 1);
        if q > e {
            lemma_line_col_mono(b, e, q);
        } else if q < e {
            lemma_line_col_mono(b, q, e);
        }
    }
}

} // verus!
