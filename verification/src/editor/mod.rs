//! The editor state and its update function: each action maps the state to
//! the next one, recording edits in the history and scrolling the viewport
//! so that the primary head stays in view.

use std::path::PathBuf;
use vstd::prelude::*;
use vstd::utf8::*;
use vstd::string::*;
use crate::buffer::{Buffer, GapBuffer};
use crate::command::{
    Edit, EditModel, Transaction, action_delete, apply_all, copy_selections, delete_model,
    delete_end, delete_start, delta, edits_fit, lemma_unapply_undoes_apply, len_fits,
};
use crate::command::motion::{
    down_head, lemma_down_head_within, lemma_up_head_within, left_head, moved, motion_down,
    motion_left, motion_right, motion_up, right_head, up_head,
};
use crate::encoding::{lemma_boundary_prefix, lemma_valid_between, str_len};
use crate::history::{
    History, MergeKey, lemma_current_node, lemma_node_selections_fit, lemma_redo_after_undo,
    lemma_undo_after_record, lemma_undo_leaves_replayable, merge_possible, record_post, redo_post,
    replay_fits, replayable, undo_post,
};
use crate::input::{Action, Mode};
use crate::render::{Viewport, byte_to_line_col, line_col_at};
use crate::selection::{Selection, SelectionSet};
use crate::selection::cursor::{group_selection, make};
use crate::selection::selection_set::{add_all, fits_text, lemma_add_all_within, within};
use crate::text::{grapheme_len, grapheme_offset, grapheme_starts, grapheme_to_byte_offset};

verus! {

broadcast use group_selection;

#[verifier::external_type_specification]
#[verifier::external_body]
pub struct ExPathBuf(PathBuf);

pub struct EditorState {
    pub buffer: GapBuffer,
    pub viewport: Viewport,
    pub selections: SelectionSet,
    pub mode: Mode,
    pub history: History,
    pub register: Option<String>,
    pub is_dirty: bool,
    pub file_path: Option<PathBuf>,
}

/// The first line shown after scrolling to show `line`: up to it when it
/// lies above the view, down to it when it lies below.
pub open spec fn shown_line(vp: (usize, usize, usize, usize), line: int) -> int {
    if line < vp.0 {
        line
    } else if line >= vp.0 + vp.2 {
        line - vp.2 + 1
    } else {
        vp.0 as int
    }
}

/// The first column shown after scrolling to show `col`, in the same way.
pub open spec fn shown_col(vp: (usize, usize, usize, usize), col: int) -> int {
    if col < vp.1 {
        col
    } else if col >= vp.1 + vp.3 {
        col - vp.3 + 1
    } else {
        vp.1 as int
    }
}

/// The viewport after scrolling to show `(line, col)`; its size is kept.
pub open spec fn scrolled(vp: (usize, usize, usize, usize), line: int, col: int) -> (usize, usize, usize, usize) {
    (shown_line(vp, line) as usize, shown_col(vp, col) as usize, vp.2, vp.3)
}

/// `(line, col)` lies in the view.
pub open spec fn shows(vp: (usize, usize, usize, usize), pos: (int, int)) -> bool {
    &&& vp.0 <= pos.0 < vp.0 + vp.2
    &&& vp.1 <= pos.1 < vp.1 + vp.3
}

fn scroll(viewport: &Viewport, line: usize, col: usize) -> (v: Viewport)
    ensures
        v@ == scrolled(viewport@, line as int, col as int),
{
    let top = viewport.top();
    let left = viewport.left();
    let rows = viewport.rows();
    let cols = viewport.cols();
    let new_top = if line < top {
        line
    } else if line - top >= rows {
        line - rows + 1
    } else {
        top
    };
    let new_left = if col < left {
        col
    } else if col - left >= cols {
        col - cols + 1
    } else {
        left
    };
    Viewport::new(new_top, new_left, rows, cols)
}

/// The selections of `s` after a head motion.
pub open spec fn motion_result(s: EditorState, heads: spec_fn(Selection) -> usize) -> (usize, Seq<Selection>) {
    (0, add_all(Seq::empty(), moved(s.selections@.1, heads, s.mode)))
}

/// A collapsed selection at `p`, alone.
pub open spec fn cursor_at(p: int) -> (usize, Seq<Selection>) {
    (0, seq![make(p as usize, p as usize)])
}

/// Text position of the primary head of `sels` in `b`.
pub open spec fn head_pos(b: Seq<u8>, sels: (usize, Seq<Selection>)) -> (int, int) {
    line_col_at(b, sels.1[sels.0 as int].spec_head() as int)
}

/// Bytes of `b` with `t` put in at `p`.
pub open spec fn inserted_at(b: Seq<u8>, p: int, t: Seq<u8>) -> Seq<u8> {
    b.subrange(0, p) + t + b.subrange(p, b.len() as int)
}

/// The edit that inserts `t` at `p`.
pub open spec fn insert_model(p: int, t: Seq<u8>) -> EditModel {
    EditModel { start: p, end: p, old: Seq::empty(), new: t }
}

/// Buffer, history, mode, register, dirty flag and path are unchanged.
pub open spec fn same_document(s: EditorState, r: EditorState) -> bool {
    &&& r.buffer == s.buffer
    &&& r.history == s.history
    &&& r.mode == s.mode
    &&& r.register == s.register
    &&& r.is_dirty == s.is_dirty
    &&& r.file_path == s.file_path
}

/// A single cursor at `p` fits any text at least `p` bytes long.
pub proof fn lemma_cursor_fits(p: int, len: int)
    requires
        0 <= p <= len,
        p <= usize::MAX,
    ensures
        fits_text(cursor_at(p), len),
{
    let s = cursor_at(p);
    crate::selection::cursor::lemma_make_fields(p as usize, p as usize);
    assert(s.1[0] == make(p as usize, p as usize));
}


/// A head motion to the selections `sels`, scrolling to show the new
/// primary head; nothing else changes.
pub open spec fn moved_to(s: EditorState, r: EditorState, sels: (usize, Seq<Selection>)) -> bool {
    &&& same_document(s, r)
    &&& r.selections@ == sels
    &&& r.viewport@ == scrolled(s.viewport@, head_pos(s.text(), sels).0, head_pos(s.text(), sels).1)
}

/// `t` was put in at the primary head as one recorded edit, a cursor left
/// after it and the view scrolled to show it.
pub open spec fn inserted(s: EditorState, r: EditorState, t: Seq<u8>, key: MergeKey, mode: Mode) -> bool {
    let b = s.text();
    let h = s.head();
    &&& r.text() == inserted_at(b, h, t)
    &&& r.selections@ == cursor_at(h + t.len())
    &&& record_post(s.history, r.history, b, seq![insert_model(h, t)], s.selections@, r.selections@, key)
    &&& r.viewport@ == scrolled(s.viewport@, head_pos(r.text(), r.selections@).0, head_pos(r.text(), r.selections@).1)
    &&& r.mode == mode
    &&& r.register == s.register
    &&& r.is_dirty
    &&& r.file_path == s.file_path
}

/// The grapheme before the primary head was removed as one recorded edit, a
/// cursor left where it started and the view scrolled to show it.
pub open spec fn backspaced(s: EditorState, r: EditorState) -> bool {
    let b = s.text();
    let h = s.head();
    let start = last_grapheme_start(b, h);
    &&& 0 <= start < h
    &&& is_char_boundary(b, start)
    &&& r.text() == b.subrange(0, start) + b.subrange(h, b.len() as int)
    &&& r.selections@ == cursor_at(start)
    &&& record_post(
        s.history,
        r.history,
        b,
        seq![removal_model(b, start, h)],
        s.selections@,
        r.selections@,
        MergeKey::Other,
    )
    &&& r.viewport@ == scrolled(s.viewport@, head_pos(r.text(), r.selections@).0, head_pos(r.text(), r.selections@).1)
    &&& r.mode == s.mode
    &&& r.register == s.register
    &&& r.is_dirty
    &&& r.file_path == s.file_path
}

/// The yanked bytes are in the register and a cursor is left at their end,
/// in normal mode, with the view scrolled to show it.
pub open spec fn yanked(s: EditorState, r: EditorState) -> bool {
    &&& r.register matches Some(t) && encode_utf8(t@) == s.text().subrange(yank_range(s).0, yank_range(s).1)
    &&& r.selections@ == cursor_at(yank_range(s).1)
    &&& r.mode == Mode::Normal
    &&& r.buffer == s.buffer
    &&& r.viewport@ == scrolled(s.viewport@, head_pos(s.text(), r.selections@).0, head_pos(s.text(), r.selections@).1)
    &&& r.history == s.history
    &&& r.is_dirty == s.is_dirty
    &&& r.file_path == s.file_path
}

/// What every selection selects was deleted as one recorded edit, cursors
/// left at the starts and the view scrolled to show the primary one.
pub open spec fn deleted(s: EditorState, r: EditorState, mode: Mode) -> bool {
    &&& r.text() == apply_all(s.text(), delete_edits(s))
    &&& r.selections@ == delete_after(s)
    &&& record_post(s.history, r.history, s.text(), delete_edits(s), s.selections@, r.selections@, MergeKey::Other)
    &&& r.viewport@ == scrolled(s.viewport@, head_pos(r.text(), r.selections@).0, head_pos(r.text(), r.selections@).1)
    &&& r.mode == mode
    &&& r.register == s.register
    &&& r.is_dirty
    &&& r.file_path == s.file_path
}

/// The history was undone one step: the selections from before the step
/// are back and the view follows their primary head both ways; at the root
/// nothing changes.
pub open spec fn undone(s: EditorState, r: EditorState) -> bool {
    &&& undo_post(s.history, r.history, s.text(), r.text(), restored(s.history, false))
    &&& r.mode == s.mode
    &&& r.file_path == s.file_path
    &&& match restored(s.history, false) {
        Some(sels) => {
            &&& r.selections@ == sels
            &&& r.viewport@ == scrolled(s.viewport@, head_pos(r.text(), sels).0, head_pos(r.text(), sels).1)
            &&& r.register == s.register
            &&& r.is_dirty
        },
        None => {
            &&& r.selections == s.selections
            &&& r.viewport == s.viewport
            &&& r.register == s.register
            &&& r.is_dirty == s.is_dirty
        },
    }
}

/// The history was redone one step: the selections after the step are in
/// place and the view follows their primary head both ways; with nothing
/// to redo only the register is cleared. The state is marked dirty either
/// way.
pub open spec fn redone(s: EditorState, r: EditorState) -> bool {
    &&& redo_post(s.history, r.history, s.text(), r.text(), restored(s.history, true))
    &&& r.mode == s.mode
    &&& r.file_path == s.file_path
    &&& r.is_dirty
    &&& match restored(s.history, true) {
        Some(sels) => {
            &&& r.selections@ == sels
            &&& r.viewport@ == scrolled(s.viewport@, head_pos(r.text(), sels).0, head_pos(r.text(), sels).1)
            &&& r.register == s.register
        },
        None => {
            &&& r.selections == s.selections
            &&& r.viewport == s.viewport
            &&& r.register is None
        },
    }
}

/// Only the mode changed.
pub open spec fn mode_set(s: EditorState, r: EditorState, mode: Mode) -> bool {
    &&& r.mode == mode
    &&& r.buffer == s.buffer
    &&& r.viewport == s.viewport
    &&& r.selections == s.selections
    &&& r.history == s.history
    &&& r.register == s.register
    &&& r.is_dirty == s.is_dirty
    &&& r.file_path == s.file_path
}

/// The register's text, when it holds a non-empty one.
pub open spec fn paste_text(s: EditorState) -> Option<Seq<u8>> {
    match s.register {
        Some(t) => if t@.len() > 0 {
            Some(encode_utf8(t@))
        } else {
            None
        },
        None => None,
    }
}

/// `update` can make `action` without a panic: the positions it edits at or
/// copies from lie on character boundaries, the texts fit in a `usize`, the
/// cursors a delete leaves lie within the new text, and the step a redo
/// replays fits the current text.
pub open spec fn update_ok(s: EditorState, action: Action) -> bool {
    let b = s.text();
    let len = b.len() as int;
    let h = s.head();
    match action {
        Action::Paste => match paste_text(s) {
            Some(t) => is_char_boundary(b, h) && len + t.len() <= usize::MAX,
            None => true,
        },
        Action::Yank => {
            &&& is_char_boundary(b, yank_range(s).0)
            &&& is_char_boundary(b, yank_range(s).1)
        },
        Action::Change | Action::Delete => {
            &&& edits_fit(b, delete_edits(s))
            &&& fits_text(delete_after(s), apply_all(b, delete_edits(s)).len() as int)
        },
        Action::Redo => replayable(s.history, s.text()) && replay_fits(s.history, s.text()),
        Action::Backspace => h > 0 ==> is_char_boundary(b, h),
        Action::InsertChar(c) => {
            &&& is_char_boundary(b, h)
            &&& len + encode_utf8(seq![c]).len() <= usize::MAX
        },
        Action::MoveDown => len < usize::MAX,
        _ => true,
    }
}

/// The state `update` gives for `action`.
pub open spec fn updated(s: EditorState, action: Action, r: EditorState) -> bool {
    match action {
        Action::Paste => match paste_text(s) {
            Some(t) => inserted(s, r, t, MergeKey::Other, Mode::Normal),
            None => r == s,
        },
        Action::Yank => yanked(s, r),
        Action::Change => deleted(s, r, Mode::Insert),
        Action::Delete => deleted(s, r, Mode::Normal),
        Action::Redo => redone(s, r),
        Action::Undo => undone(s, r),
        Action::Backspace => if s.head() == 0 {
            r == s
        } else {
            backspaced(s, r)
        },
        Action::InsertChar(c) => inserted(s, r, encode_utf8(seq![c]), MergeKey::Insert, s.mode),
        Action::MoveLeft => moved_to(s, r, motion_result(s, |x: Selection| left_head(x.spec_head()))),
        Action::MoveRight => moved_to(
            s,
            r,
            motion_result(s, |x: Selection| right_head(x.spec_head(), s.text().len() as usize))),
        Action::MoveUp => moved_to(s, r, motion_result(s, |x: Selection| up_head(s.text(), x.spec_head()))),
        Action::MoveDown => moved_to(s, r, motion_result(s, |x: Selection| down_head(s.text(), x.spec_head()))),
        Action::EnterInsert => mode_set(s, r, Mode::Insert),
        Action::EnterNormal => mode_set(s, r, Mode::Normal),
        Action::EnterSelect => mode_set(s, r, Mode::Select),
        Action::Quit => r == s,
    }
}

impl EditorState {
    /// The text.
    pub open spec fn text(&self) -> Seq<u8> {
        self.buffer.bytes()
    }

    /// The primary selection.
    pub open spec fn primary_sel(&self) -> Selection {
        self.selections@.1[self.selections@.0 as int]
    }

    /// The primary head.
    pub open spec fn head(&self) -> int {
        self.primary_sel().spec_head() as int
    }

    /// The history describes the text, the selections lie within it, and
    /// the text's length and the view's size are valid.
    pub open spec fn wf(&self) -> bool {
        &&& self.history.wf()
        &&& self.history.sels_fit()
        &&& self.history.at_text(self.text())
        &&& fits_text(self.selections@, self.text().len() as int)
        &&& self.text().len() <= usize::MAX
        &&& self.viewport@.2 >= 1
        &&& self.viewport@.3 >= 1
    }

    /// An editor for `text` in a window of `rows` by `cols` cells: a cursor
    /// at the start, normal mode, an empty history and register, clean.
    pub fn new(text: &str, rows: usize, cols: usize) -> (s: EditorState)
        requires
            rows >= 1,
            cols >= 1,
        ensures
            s.wf(),
            s.text() == text.spec_bytes(),
            s.viewport@ == (0usize, 0usize, rows, cols),
            s.selections@ == cursor_at(0),
            s.mode == Mode::Normal,
            s.history.is_fresh(),
            !s.history.has_transaction(0),
            s.history.children_at(0).len() == 0,
            s.register is None,
            !s.is_dirty,
            s.file_path is None,
    {
        let n = str_len(text);
        let buffer = GapBuffer::new(text);
        let viewport = Viewport::new(0, 0, rows, cols);
        let selections = SelectionSet::single(Selection::cursor(0));
        proof {
            lemma_cursor_fits(0, n as int);
        }
        EditorState {
            buffer,
            viewport,
            selections,
            mode: Mode::Normal,
            history: History::new(),
            register: None,
            is_dirty: false,
            file_path: None,
        }
    }

    /// Puts a single cursor at `offset`, clamped to the end of the text.
    pub fn restore_cursor(&mut self, offset: usize)
        ensures
            final(self).selections@ == cursor_at(
                if offset <= old(self).text().len() {
                    offset as int
                } else {
                    old(self).text().len() as int
                },
            ),
            final(self).buffer == old(self).buffer,
            final(self).viewport == old(self).viewport,
            final(self).mode == old(self).mode,
            final(self).history == old(self).history,
            final(self).register == old(self).register,
            final(self).is_dirty == old(self).is_dirty,
            final(self).file_path == old(self).file_path,
            old(self).wf() ==> final(self).wf(),
    {
        let len = self.buffer.len();
        let safe = if offset <= len { offset } else { len };
        self.selections = SelectionSet::single(Selection::cursor(safe));
        proof {
            lemma_cursor_fits(safe as int, len as int);
        }
    }
}


/// A head motion keeps every head and anchor within the text when each new
/// head is.
proof fn lemma_moved_fits(s: (usize, Seq<Selection>), heads: spec_fn(Selection) -> usize, mode: Mode, len: int)
    requires
        fits_text(s, len),
        forall|i: int| 0 <= i < s.1.len() ==> heads(#[trigger] s.1[i]) <= len,
    ensures
        fits_text((0, add_all(Seq::empty(), moved(s.1, heads, mode))), len),
{
    let m = moved(s.1, heads, mode);
    assert forall|i: int| 0 <= i < m.len() implies (#[trigger] m[i]).spec_head() <= len && m[i].spec_anchor() <= len by {
        assert(s.1[i].spec_anchor() <= len);
        assert(heads(s.1[i]) <= len);
    }
    lemma_add_all_within(Seq::empty(), m, len);
}

/// Line and column of the primary head.
fn head_position(buffer: &GapBuffer, selections: &SelectionSet) -> (lc: (usize, usize))
    requires
        fits_text(selections@, buffer.bytes().len() as int),
    ensures
        (lc.0 as int, lc.1 as int) == head_pos(buffer.bytes(), selections@),
        buffer.bytes().len() <= usize::MAX,
{
    let ghost b = buffer.bytes();
    proof {
        buffer.lemma_valid();
        is_char_boundary_start_end_of_seq(b);
    }
    let head = selections.primary().head();
    let text = buffer.slice(0, buffer.len());
    assert(text.spec_bytes() =~= b);
    match byte_to_line_col(text, head) {
        Some(lc) => lc,
        None => (0, 0),
    }
}

impl EditorState {
    fn with_mode(self, mode: Mode) -> (r: EditorState)
        ensures
            r.mode == mode,
            r.buffer == self.buffer,
            r.viewport == self.viewport,
            r.selections == self.selections,
            r.history == self.history,
            r.register == self.register,
            r.is_dirty == self.is_dirty,
            r.file_path == self.file_path,
    {
        EditorState { mode, ..self }
    }

    fn with_motion(self, selections: SelectionSet, viewport: Viewport) -> (r: EditorState)
        ensures
            same_document(self, r),
            r.selections == selections,
            r.viewport == viewport,
    {
        EditorState { selections, viewport, ..self }
    }

    fn move_left(self) -> (r: EditorState)
        requires
            self.wf(),
        ensures
            r.wf(),
            moved_to(self, r, motion_result(self, |x: Selection| left_head(x.spec_head()))),
    {
        let ghost heads = |x: Selection| left_head(x.spec_head());
        let new_selections = motion_left(&self.selections, self.mode);
        proof {
            lemma_moved_fits(self.selections@, heads, self.mode, self.text().len() as int);
        }
        let (line, col) = head_position(&self.buffer, &new_selections);
        let viewport = scroll(&self.viewport, line, col);
        self.with_motion(new_selections, viewport)
    }

    fn move_right(self) -> (r: EditorState)
        requires
            self.wf(),
        ensures
            r.wf(),
            moved_to(
                self,
                r,
                motion_result(self, |x: Selection| right_head(x.spec_head(), self.text().len() as usize))),
    {
        let len = self.buffer.len();
        let ghost heads = |x: Selection| right_head(x.spec_head(), len);
        let new_selections = motion_right(&self.selections, len, self.mode);
        proof {
            lemma_moved_fits(self.selections@, heads, self.mode, self.text().len() as int);
        }
        let (line, col) = head_position(&self.buffer, &new_selections);
        let viewport = scroll(&self.viewport, line, col);
        self.with_motion(new_selections, viewport)
    }

    fn move_up(self) -> (r: EditorState)
        requires
            self.wf(),
        ensures
            r.wf(),
            moved_to(self, r, motion_result(self, |x: Selection| up_head(self.text(), x.spec_head()))),
    {
        let ghost b = self.text();
        let ghost heads = |x: Selection| up_head(b, x.spec_head());
        proof {
            self.buffer.lemma_valid();
            is_char_boundary_start_end_of_seq(b);
        }
        let text = self.buffer.slice(0, self.buffer.len());
        assert(text.spec_bytes() =~= b);
        let new_selections = motion_up(&self.selections, text, self.mode);
        proof {
            assert forall|i: int| 0 <= i < self.selections@.1.len() implies heads(#[trigger] self.selections@.1[i]) <= b.len() by {
                lemma_up_head_within(b, self.selections@.1[i].spec_head());
            }
            lemma_moved_fits(self.selections@, heads, self.mode, b.len() as int);
        }
        let (line, col) = head_position(&self.buffer, &new_selections);
        let viewport = scroll(&self.viewport, line, col);
        self.with_motion(new_selections, viewport)
    }

    fn move_down(self) -> (r: EditorState)
        requires
            self.wf(),
            self.text().len() < usize::MAX,
        ensures
            r.wf(),
            moved_to(self, r, motion_result(self, |x: Selection| down_head(self.text(), x.spec_head()))),
    {
        let ghost b = self.text();
        let ghost heads = |x: Selection| down_head(b, x.spec_head());
        proof {
            self.buffer.lemma_valid();
            is_char_boundary_start_end_of_seq(b);
        }
        let text = self.buffer.slice(0, self.buffer.len());
        assert(text.spec_bytes() =~= b);
        let new_selections = motion_down(&self.selections, text, self.mode);
        proof {
            assert forall|i: int| 0 <= i < self.selections@.1.len() implies heads(#[trigger] self.selections@.1[i]) <= b.len() by {
                lemma_down_head_within(b, self.selections@.1[i].spec_head());
            }
            lemma_moved_fits(self.selections@, heads, self.mode, b.len() as int);
        }
        let (line, col) = head_position(&self.buffer, &new_selections);
        let viewport = scroll(&self.viewport, line, col);
        self.with_motion(new_selections, viewport)
    }
}


/// `char::to_string`: a string holding exactly `c`.
#[verifier::external_body]
fn char_string(c: char) -> (s: String)
    ensures
        s@ == seq![c],
{
    c.to_string()
}

/// One edit that fits `b` is applied by a single replacement.
proof fn lemma_single_edit(b: Seq<u8>, e: EditModel)
    requires
        valid_utf8(b),
        0 <= e.start <= e.end <= b.len(),
        is_char_boundary(b, e.start),
        is_char_boundary(b, e.end),
        e.old == b.subrange(e.start, e.end),
        valid_utf8(e.new),
        b.len() - (e.end - e.start) + e.new.len() <= usize::MAX,
        b.len() <= usize::MAX,
    ensures
        edits_fit(b, seq![e]),
        apply_all(b, seq![e]) == b.subrange(0, e.start) + e.new + b.subrange(e.end, b.len() as int),
{
    let es = seq![e];
    reveal_with_fuel(apply_all, 2);
    reveal_with_fuel(len_fits, 2);
    reveal_with_fuel(delta, 2);
    assert(es.drop_last() =~= Seq::<EditModel>::empty());
    assert(es.drop_first() =~= Seq::<EditModel>::empty());
    assert(es[0] == e);
    assert(delta(es) == e.new.len() - (e.end - e.start));
    assert(len_fits(b.len() as int, es));
}

impl EditorState {
    /// Puts `t` in at the primary head as one recorded edit and leaves a
    /// cursor after it, scrolling to keep it in view.
    fn insert_text(self, t: &str, key: MergeKey, mode: Mode) -> (r: EditorState)
        requires
            self.wf(),
            is_char_boundary(self.text(), self.head()),
            self.text().len() + t.spec_bytes().len() <= usize::MAX,
        ensures
            r.wf(),
            inserted(self, r, t.spec_bytes(), key, mode),
    {
        let ghost b = self.text();
        let head = self.selections.primary().head();
        let n = str_len(t);
        let new_head = head + n;
        let new_selections = SelectionSet::single(Selection::cursor(new_head));
        let edit = Edit::new(head, head, "", t);
        proof {
            reveal_strlit("");
            assert(""@ =~= Seq::<char>::empty());
            assert("".spec_bytes() =~= b.subrange(head as int, head as int));
            self.buffer.lemma_valid();
            encode_utf8_valid_utf8(t@);
            lemma_single_edit(b, edit@);
            assert(edit@ == insert_model(head as int, t.spec_bytes()));
            lemma_cursor_fits(new_head as int, b.len() + n);
        }
        let mut edits: Vec<Edit> = Vec::new();
        edits.push(edit);
        assert(edits@.map_values(|e: Edit| e@) =~= seq![insert_model(head as int, t.spec_bytes())]);
        let tx = Transaction::new(edits, copy_selections(&new_selections));
        let prior = copy_selections(&self.selections);
        let EditorState { mut buffer, viewport, selections, mode: _, mut history, register, is_dirty: _, file_path } = self;
        history.record(tx, &mut buffer, prior, key);
        let (line, col) = head_position(&buffer, &new_selections);
        let new_viewport = scroll(&viewport, line, col);
        EditorState {
            buffer,
            viewport: new_viewport,
            selections: new_selections,
            mode,
            history,
            register,
            is_dirty: true,
            file_path,
        }
    }
}


/// Start of the last grapheme of the first `h` bytes of `b`.
pub open spec fn last_grapheme_start(b: Seq<u8>, h: int) -> int {
    let prefix = b.subrange(0, h);
    let st = grapheme_starts(decode_utf8(prefix));
    grapheme_offset(prefix, st, st.len() - 1)
}

/// The edit that removes bytes `start..end` of `b`.
pub open spec fn removal_model(b: Seq<u8>, start: int, end: int) -> EditModel {
    EditModel { start, end, old: b.subrange(start, end), new: Seq::empty() }
}

/// The bytes a yank copies: the byte under a collapsed primary selection
/// (none at the end of the text), otherwise its lowest offset up to its
/// highest.
pub open spec fn yank_range(s: EditorState) -> (int, int) {
    let p = s.primary_sel();
    let len = s.text().len() as int;
    if p.spec_anchor() == p.spec_head() {
        (p.spec_head() as int, if p.spec_head() + 1 <= len { p.spec_head() + 1 } else { len })
    } else {
        (p.low(), p.high())
    }
}

/// The edits a delete makes: one per selection.
pub open spec fn delete_edits(s: EditorState) -> Seq<EditModel> {
    Seq::new(s.selections@.1.len(), |i: int| delete_model(s.selections@.1[i], s.text()))
}

/// The cursors a delete leaves: one at the start of each deletion.
pub open spec fn delete_after(s: EditorState) -> (usize, Seq<Selection>) {
    (
        0,
        add_all(
            Seq::empty(),
            Seq::new(
                s.selections@.1.len(),
                |i: int| make(delete_start(s.selections@.1[i]) as usize, delete_start(s.selections@.1[i]) as usize),
            ),
        ),
    )
}

/// The selections `undo` or `redo` hands back, as the history holds them.
pub open spec fn restored(h: History, redo: bool) -> Option<(usize, Seq<Selection>)> {
    let c = h.current_index();
    if redo {
        if h.children_at(c).len() > 0 {
            Some(h.after_at(h.children_at(c).last() as int))
        } else {
            None
        }
    } else if h.has_transaction(c) {
        Some(h.prior_at(c))
    } else {
        None
    }
}

impl EditorState {
    /// Removes the grapheme before the primary head as one recorded edit.
    fn backspace(self) -> (r: EditorState)
        requires
            self.wf(),
            self.head() > 0,
            is_char_boundary(self.text(), self.head()),
        ensures
            r.wf(),
            backspaced(self, r),
    {
        let ghost b = self.text();
        let head = self.selections.primary().head();
        let len = self.buffer.len();
        proof {
            self.buffer.lemma_valid();
            lemma_valid_between(b, 0, head as int);
            is_char_boundary_start_end_of_seq(b);
            lemma_valid_between(b, head as int, b.len() as int);
        }
        let prefix = self.buffer.slice(0, head);
        let ghost pb = prefix.spec_bytes();
        let k = grapheme_len(prefix);
        proof {
            encode_utf8_decode_utf8(prefix@);
            assert(k > 0);
        }
        let start = grapheme_to_byte_offset(prefix, k - 1);
        proof {
            let rest = b.subrange(head as int, b.len() as int);
            assert(b =~= pb + rest);
            lemma_boundary_prefix(pb, rest, start as int);
            assert(start == last_grapheme_start(b, head as int));
        }
        let deleted = self.buffer.slice(start, head);
        let edit = Edit::new(start, head, deleted, "");
        let new_selections = SelectionSet::single(Selection::cursor(start));
        proof {
            reveal_strlit("");
            assert(""@ =~= Seq::<char>::empty());
            assert("".spec_bytes() =~= Seq::<u8>::empty());
            lemma_single_edit(b, edit@);
            assert(edit@ == removal_model(b, start as int, head as int));
            lemma_cursor_fits(start as int, len - (head - start));
        }
        let mut edits: Vec<Edit> = Vec::new();
        edits.push(edit);
        assert(edits@.map_values(|e: Edit| e@) =~= seq![removal_model(b, start as int, head as int)]);
        let tx = Transaction::new(edits, copy_selections(&new_selections));
        let prior = copy_selections(&self.selections);
        let EditorState { mut buffer, viewport, selections, mode, mut history, register, is_dirty, file_path } = self;
        history.record(tx, &mut buffer, prior, MergeKey::Other);
        let (line, col) = head_position(&buffer, &new_selections);
        let new_viewport = scroll(&viewport, line, col);
        EditorState {
            buffer,
            viewport: new_viewport,
            selections: new_selections,
            mode,
            history,
            register,
            is_dirty: true,
            file_path,
        }
    }

    /// Copies the primary selection's bytes into the register and leaves a
    /// cursor at their end.
    fn yank(self) -> (r: EditorState)
        requires
            self.wf(),
            is_char_boundary(self.text(), yank_range(self).0),
            is_char_boundary(self.text(), yank_range(self).1),
        ensures
            r.wf(),
            yanked(self, r),
    {
        let ghost b = self.text();
        let primary = self.selections.primary();
        let len = self.buffer.len();
        let head = primary.head();
        let anchor = primary.anchor();
        let (start, end) = if primary.is_empty() {
            (head, if head < len { head + 1 } else { len })
        } else if anchor <= head {
            (anchor, head)
        } else {
            (head, anchor)
        };
        proof {
            self.buffer.lemma_valid();
            lemma_valid_between(b, start as int, end as int);
            lemma_cursor_fits(end as int, b.len() as int);
        }
        let yanked = self.buffer.slice(start, end).to_owned();
        let new_selections = SelectionSet::single(Selection::cursor(end));
        let (line, col) = head_position(&self.buffer, &new_selections);
        let viewport = scroll(&self.viewport, line, col);
        EditorState {
            selections: new_selections,
            viewport,
            mode: Mode::Normal,
            register: Some(yanked),
            ..self
        }
    }

    /// Deletes what every selection selects as one recorded edit and leaves
    /// a cursor at the start of each deletion.
    fn delete_selections(self, mode: Mode) -> (r: EditorState)
        requires
            self.wf(),
            edits_fit(self.text(), delete_edits(self)),
            fits_text(delete_after(self), apply_all(self.text(), delete_edits(self)).len() as int),
        ensures
            r.wf(),
            deleted(self, r, mode),
    {
        let ghost b = self.text();
        proof {
            let es = delete_edits(self);
            assert forall|i: int| 0 <= i < self.selections@.1.len() implies {
                &&& is_char_boundary(b, delete_start(#[trigger] self.selections@.1[i]))
                &&& is_char_boundary(b, crate::command::delete_end(self.selections@.1[i], b.len() as int))
            } by {
                assert(es[i] == delete_model(self.selections@.1[i], b));
            }
        }
        let tx = action_delete(&self.selections, &self.buffer);
        assert(tx.edit_models() =~= delete_edits(self));
        let new_selections = copy_selections(tx.new_selections());
        let prior = copy_selections(&self.selections);
        let EditorState { mut buffer, viewport, selections, mode: _, mut history, register, is_dirty: _, file_path } = self;
        history.record(tx, &mut buffer, prior, MergeKey::Other);
        let (line, col) = head_position(&buffer, &new_selections);
        let new_viewport = scroll(&viewport, line, col);
        EditorState {
            buffer,
            viewport: new_viewport,
            selections: new_selections,
            mode,
            history,
            register,
            is_dirty: true,
            file_path,
        }
    }

    /// Reverses the current node of the history; at the root nothing
    /// changes.
    fn undo(self) -> (r: EditorState)
        requires
            self.wf(),
        ensures
            r.wf(),
            undone(self, r),
    {
        let ghost h0 = self.history;
        let EditorState { mut buffer, viewport, selections, mode, mut history, register, is_dirty, file_path } = self;
        match history.undo(&mut buffer) {
            Some(restored_selections) => {
                proof {
                    lemma_current_node(h0);
                    lemma_node_selections_fit(h0, h0.current_index());
                }
                let (line, col) = head_position(&buffer, &restored_selections);
                let new_viewport = scroll(&viewport, line, col);
                EditorState {
                    buffer,
                    viewport: new_viewport,
                    selections: restored_selections,
                    mode,
                    history,
                    register,
                    is_dirty: true,
                    file_path,
                }
            },
            None => EditorState { buffer, viewport, selections, mode, history, register, is_dirty, file_path },
        }
    }

    /// Applies the newest child of the current node of the history; with no
    /// child the register is cleared. The state is marked dirty either way.
    fn redo(self) -> (r: EditorState)
        requires
            self.wf(),
            replayable(self.history, self.text()),
            replay_fits(self.history, self.text()),
        ensures
            r.wf(),
            redone(self, r),
    {
        let EditorState { mut buffer, viewport, selections, mode, mut history, register, is_dirty: _, file_path } = self;
        match history.redo(&mut buffer) {
            Some(restored_selections) => {
                let (line, col) = head_position(&buffer, &restored_selections);
                let new_viewport = scroll(&viewport, line, col);
                EditorState {
                    buffer,
                    viewport: new_viewport,
                    selections: restored_selections,
                    mode,
                    history,
                    register,
                    is_dirty: true,
                    file_path,
                }
            },
            None => EditorState {
                buffer,
                viewport,
                selections,
                mode,
                history,
                register: None,
                is_dirty: true,
                file_path,
            },
        }
    }
}


impl EditorState {
    /// The next state after `action`.
    pub fn update(self, action: Action) -> (r: EditorState)
        requires
            self.wf(),
            update_ok(self, action),
        ensures
            r.wf(),
            updated(self, action, r),
    {
        match action {
            Action::Paste => {
                let text = match &self.register {
                    Some(t) => if str_len(t.as_str()) > 0 {
                        t.clone()
                    } else {
                        return self;
                    },
                    None => return self,
                };
                self.insert_text(text.as_str(), MergeKey::Other, Mode::Normal)
            },
            Action::Yank => self.yank(),
            Action::Change => self.delete_selections(Mode::Insert),
            Action::Delete => self.delete_selections(Mode::Normal),
            Action::Redo => self.redo(),
            Action::Undo => self.undo(),
            Action::Backspace => {
                if self.selections.primary().head() == 0 {
                    return self;
                }
                self.backspace()
            },
            Action::InsertChar(c) => {
                let t = char_string(c);
                let mode = self.mode;
                self.insert_text(t.as_str(), MergeKey::Insert, mode)
            },
            Action::MoveLeft => self.move_left(),
            Action::MoveRight => self.move_right(),
            Action::MoveUp => self.move_up(),
            Action::MoveDown => self.move_down(),
            Action::EnterInsert => self.with_mode(Mode::Insert),
            Action::EnterNormal => self.with_mode(Mode::Normal),
            Action::EnterSelect => self.with_mode(Mode::Select),
            Action::Quit => self,
        }
    }
}


impl EditorState {
    /// Whether `update` can make `action` here, tested on the state's
    /// values: `true` exactly when the action's requirements hold.
    pub fn can_update(&self, action: &Action) -> (ok: bool)
        requires
            self.wf(),
        ensures
            ok == update_ok(*self, *action),
    {
        let ghost b = self.text();
        proof {
            self.buffer.lemma_valid();
            is_char_boundary_start_end_of_seq(b);
        }
        let len = self.buffer.len();
        let text = self.buffer.slice(0, len);
        assert(text.spec_bytes() =~= b);
        let head = self.selections.primary().head();
        match action {
            Action::Paste => match &self.register {
                Some(t) => {
                    let n = str_len(t.as_str());
                    n == 0 || (text.is_char_boundary(head) && len.checked_add(n).is_some())
                },
                None => true,
            },
            Action::Yank => {
                let primary = self.selections.primary();
                let anchor = primary.anchor();
                if primary.is_empty() {
                    text.is_char_boundary(head) && text.is_char_boundary(
                        if head < len {
                            head + 1
                        } else {
                            len
                        },
                    )
                } else if anchor <= head {
                    text.is_char_boundary(anchor) && text.is_char_boundary(head)
                } else {
                    text.is_char_boundary(head) && text.is_char_boundary(anchor)
                }
            },
            Action::Change | Action::Delete => {
                let ghost sels = self.selections@.1;
                let k = self.selections.selections.len();
                let mut i: usize = 0;
                while i < k
                    invariant
                        i <= k,
                        k == sels.len(),
                        sels == self.selections.selections@,
                        sels == self.selections@.1,
                        *action is Change || *action is Delete,
                        b == text.spec_bytes(),
                        b == self.text(),
                        len == b.len(),
                        forall|j: int|
                            0 <= j < i ==> {
                                &&& is_char_boundary(b, delete_start(#[trigger] sels[j]))
                                &&& is_char_boundary(b, delete_end(sels[j], len as int))
                            },
                    decreases k - i,
                {
                    let s = self.selections.selections[i];
                    assert(s == sels[i as int]);
                    let anchor = s.anchor();
                    let h = s.head();
                    let start = if anchor <= h {
                        anchor
                    } else {
                        h
                    };
                    let end = if anchor == h {
                        if start < len {
                            start + 1
                        } else {
                            len
                        }
                    } else if anchor <= h {
                        h
                    } else {
                        anchor
                    };
                    if !(text.is_char_boundary(start) && text.is_char_boundary(end)) {
                        proof {
                            let es = delete_edits(*self);
                            let e = es[i as int];
                            assert(e == delete_model(sels[i as int], b));
                            assert(e.start == start && e.end == end);
                            assert(!edits_fit(b, es));
                        }
                        return false;
                    }
                    i += 1;
                }
                let tx = action_delete(&self.selections, &self.buffer);
                assert(tx.edit_models() =~= delete_edits(*self));
                if !tx.fits(text) {
                    return false;
                }
                let mut scratch = GapBuffer::new(text);
                proof {
                    lemma_unapply_undoes_apply(b, tx.edit_models());
                }
                tx.apply(&mut scratch);
                tx.new_selections().fits(scratch.len())
            },
            Action::Redo => self.history.can_replay(&self.buffer),
            Action::Backspace => head == 0 || text.is_char_boundary(head),
            Action::InsertChar(c) => {
                let t = char_string(*c);
                text.is_char_boundary(head) && len.checked_add(str_len(t.as_str())).is_some()
            },
            Action::MoveDown => len < usize::MAX,
            _ => true,
        }
    }
}


/// The actions that edit the text when `update` makes them: a paste with a
/// non-empty register, a backspace after the start, a delete, a change and
/// an inserted character.
pub open spec fn edits_text(s: EditorState, action: Action) -> bool {
    match action {
        Action::Paste => paste_text(s) is Some,
        Action::Backspace => s.head() > 0,
        Action::Delete | Action::Change | Action::InsertChar(_) => true,
        _ => false,
    }
}

/// The edits `update` records for an editing action, and the merge key.
pub open spec fn recorded_edits(s: EditorState, action: Action) -> (Seq<EditModel>, MergeKey) {
    let b = s.text();
    let h = s.head();
    match action {
        Action::Paste => (seq![insert_model(h, paste_text(s)->0)], MergeKey::Other),
        Action::Backspace => (seq![removal_model(b, last_grapheme_start(b, h), h)], MergeKey::Other),
        Action::InsertChar(c) => (seq![insert_model(h, encode_utf8(seq![c]))], MergeKey::Insert),
        _ => (delete_edits(s), MergeKey::Other),
    }
}

proof fn lemma_edit_recorded(s: EditorState, action: Action, r: EditorState)
    requires
        s.wf(),
        update_ok(s, action),
        updated(s, action, r),
        edits_text(s, action),
    ensures
        r.text() == apply_all(s.text(), recorded_edits(s, action).0),
        record_post(
            s.history,
            r.history,
            s.text(),
            recorded_edits(s, action).0,
            s.selections@,
            r.selections@,
            recorded_edits(s, action).1,
        ),
{
    let b = s.text();
    let h = s.head();
    s.buffer.lemma_valid();
    assert(fits_text(s.selections@, b.len() as int));
    assert(s.selections@.1[s.selections@.0 as int].spec_head() <= b.len());
    match action {
        Action::Paste => {
            let t = paste_text(s)->0;
            encode_utf8_valid_utf8(s.register->0@);
            assert(b.subrange(h, h) =~= Seq::<u8>::empty());
            lemma_single_edit(b, insert_model(h, t));
        },
        Action::InsertChar(c) => {
            encode_utf8_valid_utf8(seq![c]);
            assert(b.subrange(h, h) =~= Seq::<u8>::empty());
            lemma_single_edit(b, insert_model(h, encode_utf8(seq![c])));
        },
        Action::Backspace => {
            lemma_single_edit(b, removal_model(b, last_grapheme_start(b, h), h));
        },
        _ => {},
    }
}

/// Undo right after an edit gives back the text and the selections from
/// before the edit, when the edit was recorded as a step of its own; an
/// inserted character merged into the insert before it is undone together
/// with that whole run of inserts.
pub proof fn lemma_undo_after_edit(s: EditorState, action: Action, r: EditorState, u: EditorState)
    requires
        s.wf(),
        update_ok(s, action),
        updated(s, action, r),
        edits_text(s, action),
        updated(r, Action::Undo, u),
    ensures
        !(action is InsertChar) ==> u.text() == s.text() && u.selections@ == s.selections@,
        !merge_possible(s.history, recorded_edits(s, action).0, recorded_edits(s, action).1) ==> u.text()
            == s.text() && u.selections@ == s.selections@,
        merge_possible(s.history, recorded_edits(s, action).0, recorded_edits(s, action).1) ==> (
        u.text() == s.text() && u.selections@ == s.selections@) || (u.text() == s.history.base_at(
            s.history.current_index(),
        ) && u.selections@ == s.history.prior_at(s.history.current_index())),
{
    let es = recorded_edits(s, action);
    lemma_edit_recorded(s, action, r);
    lemma_undo_after_record(
        s.history,
        r.history,
        u.history,
        s.text(),
        es.0,
        s.selections@,
        r.selections@,
        es.1,
        u.text(),
        restored(r.history, false),
    );
}

/// After an undo that moved, a redo can be made,
/// and it gives back the text the undo started from.
pub proof fn lemma_redo_after_undo_edit(s: EditorState, u: EditorState, v: EditorState)
    requires
        s.wf(),
        s.history.has_transaction(s.history.current_index()),
        updated(s, Action::Undo, u),
        updated(u, Action::Redo, v),
    ensures
        replayable(u.history, u.text()),
        replay_fits(u.history, u.text()),
        v.text() == s.text(),
        v.selections@ == s.history.after_at(s.history.current_index()),
{
    lemma_undo_leaves_replayable(s.history, u.history, s.text(), u.text(), restored(s.history, false));
    lemma_redo_after_undo(
        s.history,
        u.history,
        v.history,
        s.text(),
        u.text(),
        v.text(),
        restored(s.history, false),
        restored(u.history, true),
    );
}

/// Scrolling to a position ends showing it: `line` is one of the shown
/// lines and `col` one of the shown columns.
pub proof fn lemma_scrolled_shows(vp: (usize, usize, usize, usize), line: int, col: int)
    requires
        vp.2 >= 1,
        vp.3 >= 1,
        0 <= line <= usize::MAX,
        0 <= col <= usize::MAX,
    ensures
        ({
            let v = scrolled(vp, line, col);
            &&& v.0 <= line < v.0 + v.2
            &&& v.1 <= col < v.1 + v.3
            &&& shows(v, (line, col))
        }),
{
}

/// The view follows the cursor on every edge: after any action the primary
/// head is in view, unless the action left the selections and the view as
/// they were.
pub proof fn lemma_update_shows_head(s: EditorState, action: Action, r: EditorState)
    requires
        s.wf(),
        update_ok(s, action),
        updated(s, action, r),
        r.wf(),
    ensures
        shows(r.viewport@, head_pos(r.text(), r.selections@)) || (r.selections == s.selections
            && r.viewport == s.viewport),
{
    let sels = r.selections@;
    let h = sels.1[sels.0 as int].spec_head() as int;
    assert(h <= r.text().len());
    crate::command::motion::lemma_line_col_bounded(r.text(), h);
    let p = head_pos(r.text(), sels);
    lemma_scrolled_shows(s.viewport@, p.0, p.1);
    if r.text() == s.text() {
        assert(head_pos(s.text(), sels) == p);
    }
}

/// A view scrolled to the primary head shows it.
proof fn lemma_show_after(s: EditorState, r: EditorState)
    requires
        s.wf(),
        r.wf(),
    ensures
        r.viewport@ == scrolled(s.viewport@, head_pos(r.text(), r.selections@).0, head_pos(r.text(), r.selections@).1)
            ==> shows(r.viewport@, head_pos(r.text(), r.selections@)),
{
    let sels = r.selections@;
    let h = sels.1[sels.0 as int].spec_head() as int;
    assert(h <= r.text().len());
    crate::command::motion::lemma_line_col_bounded(r.text(), h);
    lemma_scrolled_shows(s.viewport@, head_pos(r.text(), sels).0, head_pos(r.text(), sels).1);
}

/// The view keeps following the cursor: when the primary head is in view
/// before an action, it is in view after it.
pub proof fn lemma_update_keeps_head_shown(s: EditorState, action: Action, r: EditorState)
    requires
        s.wf(),
        update_ok(s, action),
        updated(s, action, r),
        r.wf(),
        shows(s.viewport@, head_pos(s.text(), s.selections@)),
    ensures
        shows(r.viewport@, head_pos(r.text(), r.selections@)),
{
    match action {
        Action::Undo | Action::Redo => {
            if restored(s.history, action is Redo) is None {
                assert(r.text() == s.text());
            } else {
                lemma_show_after(s, r);
            }
        },
        Action::EnterInsert | Action::EnterNormal | Action::EnterSelect | Action::Quit => {
            assert(r.text() == s.text());
        },
        _ => {
            lemma_show_after(s, r);
            if r.buffer == s.buffer {
                assert(r.text() == s.text());
            }
        },
    }
}

} // verus!
