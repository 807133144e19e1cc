//! Edits and transactions: replacing byte ranges of a buffer, and undoing
//! those replacements.

use vstd::prelude::*;
use vstd::utf8::*;
use vstd::string::*;
use crate::buffer::Buffer;
use crate::encoding::{
    lemma_boundary_iff, lemma_boundary_prefix, lemma_encode_concat, lemma_valid_between, str_len, substr,
};
use crate::selection::{Selection, SelectionSet};
use crate::selection::cursor::{group_selection, make};
use crate::selection::selection_set::{absorb, add_all, well_ordered};

pub mod motion;
pub use motion::{motion_down, motion_left, motion_right, motion_up};





verus! {

broadcast use group_selection;

pub struct Edit {
    start: usize,
    end: usize,
    old_text: String,
    new_text: String,
}

/// What an edit says: replace bytes `start..end` (which held `old`) with `new`.
pub struct EditModel {
    pub start: int,
    pub end: int,
    pub old: Seq<u8>,
    pub new: Seq<u8>,
}

impl View for Edit {
    type V = EditModel;

    closed spec fn view(&self) -> EditModel {
        EditModel {
            start: self.start as int,
            end: self.end as int,
            old: encode_utf8(self.old_text@),
            new: encode_utf8(self.new_text@),
        }
    }
}

/// The replacement of one edit.
pub open spec fn apply_one(b: Seq<u8>, e: EditModel) -> Seq<u8> {
    b.subrange(0, e.start) + e.new + b.subrange(e.end, b.len() as int)
}

/// The reversal of one edit whose new text starts at its start offset.
pub open spec fn unapply_one(b: Seq<u8>, e: EditModel) -> Seq<u8> {
    b.subrange(0, e.start) + e.old + b.subrange(e.start + e.new.len(), b.len() as int)
}

/// Applying edits from the last to the first.
pub open spec fn apply_all(b: Seq<u8>, es: Seq<EditModel>) -> Seq<u8>
    decreases es.len(),
{
    if es.len() == 0 {
        b
    } else {
        apply_all(apply_one(b, es.last()), es.drop_last())
    }
}

/// Reversing edits from the first to the last.
pub open spec fn unapply_all(b: Seq<u8>, es: Seq<EditModel>) -> Seq<u8>
    decreases es.len(),
{
    if es.len() == 0 {
        b
    } else {
        unapply_all(unapply_one(b, es[0]), es.drop_first())
    }
}

/// One replacement can be made without a panic: its range lies on character
/// boundaries and the result fits in memory.
pub open spec fn step_ok(b: Seq<u8>, e: EditModel) -> bool {
    &&& e.start <= e.end
    &&& is_char_boundary(b, e.start)
    &&& is_char_boundary(b, e.end)
    &&& b.len() - (e.end - e.start) + e.new.len() <= usize::MAX
}

/// One reversal can be made without a panic.
pub open spec fn unstep_ok(b: Seq<u8>, e: EditModel) -> bool {
    &&& e.start + e.new.len() <= usize::MAX
    &&& is_char_boundary(b, e.start)
    &&& is_char_boundary(b, e.start + e.new.len())
    &&& b.len() - e.new.len() + e.old.len() <= usize::MAX
}

/// Every replacement of `apply` can be made in turn.
pub open spec fn applicable(b: Seq<u8>, es: Seq<EditModel>) -> bool
    decreases es.len(),
{
    es.len() == 0 || (step_ok(b, es.last()) && applicable(apply_one(b, es.last()), es.drop_last()))
}

/// Every reversal of `unapply` can be made in turn.
pub open spec fn unapplicable(b: Seq<u8>, es: Seq<EditModel>) -> bool
    decreases es.len(),
{
    es.len() == 0 || (unstep_ok(b, es[0]) && unapplicable(unapply_one(b, es[0]), es.drop_first()))
}

/// How much an edit lengthens the text.
pub open spec fn growth(e: EditModel) -> int {
    e.new.len() - (e.end - e.start)
}

/// How much a sequence of edits lengthens the text.
pub open spec fn delta(es: Seq<EditModel>) -> int
    decreases es.len(),
{
    if es.len() == 0 {
        0
    } else {
        growth(es[0]) + delta(es.drop_first())
    }
}

/// A text of `n` bytes stays addressable while any tail of the edits is
/// applied to it (which is every length met while applying or reversing).
pub open spec fn len_fits(n: int, es: Seq<EditModel>) -> bool
    decreases es.len(),
{
    &&& n + delta(es) <= usize::MAX
    &&& (es.len() > 0 ==> len_fits(n, es.drop_first()))
}

/// The edits describe `b`: each range lies on character boundaries of `b` and
/// holds its old text, the ranges are in increasing order without overlap,
/// every new text is valid UTF-8, and the edited text fits in memory.
pub open spec fn edits_fit(b: Seq<u8>, es: Seq<EditModel>) -> bool {
    &&& valid_utf8(b)
    &&& len_fits(b.len() as int, es)
    &&& forall|i: int|
        0 <= i < es.len() ==> {
            let e = #[trigger] es[i];
            &&& 0 <= e.start <= e.end <= b.len()
            &&& is_char_boundary(b, e.start)
            &&& is_char_boundary(b, e.end)
            &&& e.old == b.subrange(e.start, e.end)
            &&& valid_utf8(e.new)
        }
    &&& forall|i: int, j: int| 0 <= i < j < es.len() ==> (#[trigger] es[i]).end <= (#[trigger] es[j]).start
}

pub struct Transaction {
    edits: Vec<Edit>,
    new_selections: SelectionSet,
}

impl Transaction {
    /// The edits, in order.
    pub closed spec fn edit_models(&self) -> Seq<EditModel> {
        self.edits@.map_values(|e: Edit| e@)
    }

    /// The selections after the transaction.
    pub closed spec fn spec_new_selections(&self) -> SelectionSet {
        self.new_selections
    }

    pub fn new(edits: Vec<Edit>, new_selections: SelectionSet) -> (t: Transaction)
        ensures
            t.edit_models() == edits@.map_values(|e: Edit| e@),
            t.spec_new_selections() == new_selections,
    {
        Transaction { edits, new_selections }
    }

    /// Replaces each edit's range with its new text, last edit first.
    pub fn apply(&self, buf: &mut impl Buffer)
        requires
            applicable(old(buf).bytes(), self.edit_models()),
        ensures
            final(buf).bytes() == apply_all(old(buf).bytes(), self.edit_models()),
            ordered_within(self.edit_models(), old(buf).bytes().len() as int) ==> final(buf).bytes()
                == spliced(old(buf).bytes(), self.edit_models()),
    {
        let ghost es = self.edit_models();
        let ghost b0 = buf.bytes();
        proof {
            if ordered_within(es, b0.len() as int) {
                lemma_apply_in_order(b0, es);
            }
        }
        let mut i = self.edits.len();
        assert(es.subrange(0, i as int) =~= es);
        while i > 0
            invariant
                i <= self.edits@.len(),
                es == self.edit_models(),
                applicable(buf.bytes(), es.subrange(0, i as int)),
                apply_all(buf.bytes(), es.subrange(0, i as int)) == apply_all(b0, es),
            decreases i,
        {
            let ghost cur = buf.bytes();
            let ghost sub = es.subrange(0, i as int);
            i -= 1;
            let edit = &self.edits[i];
            assert(sub.last() == edit@);
            assert(sub.drop_last() =~= es.subrange(0, i as int));
            proof {
                buf.lemma_valid();
                lemma_boundary_iff(cur, edit.end as int);
                valid_utf8_split(cur, edit.start as int);
                valid_utf8_split(cur, edit.end as int);
            }
            buf.delete(edit.start, edit.end);
            let ghost mid = buf.bytes();
            proof {
                let x = cur.subrange(0, edit.start as int);
                let y = cur.subrange(edit.end as int, cur.len() as int);
                lemma_boundary_prefix(x, y, edit.start as int);
                is_char_boundary_start_end_of_seq(x);
                lemma_encode_concat(Seq::empty(), Seq::empty());
            }
            buf.insert(edit.start, edit.new_text.as_str());
            assert(buf.bytes() =~= apply_one(cur, edit@));
        }
        assert(es.subrange(0, 0) =~= Seq::<EditModel>::empty());
    }

    /// Puts each edit's old text back in place of its new text, first edit
    /// first.
    pub fn unapply(&self, buf: &mut impl Buffer)
        requires
            unapplicable(old(buf).bytes(), self.edit_models()),
        ensures
            final(buf).bytes() == unapply_all(old(buf).bytes(), self.edit_models()),
    {
        let ghost es = self.edit_models();
        let ghost b0 = buf.bytes();
        let mut i: usize = 0;
        assert(es.subrange(0, es.len() as int) =~= es);
        while i < self.edits.len()
            invariant
                i <= self.edits@.len(),
                es == self.edit_models(),
                unapplicable(buf.bytes(), es.subrange(i as int, es.len() as int)),
                unapply_all(buf.bytes(), es.subrange(i as int, es.len() as int)) == unapply_all(
                    b0,
                    es,
                ),
            decreases self.edits@.len() - i,
        {
            let ghost cur = buf.bytes();
            let ghost sub = es.subrange(i as int, es.len() as int);
            let edit = &self.edits[i];
            assert(sub[0] == edit@);
            assert(sub.drop_first() =~= es.subrange(i + 1, es.len() as int));
            let start = edit.start;
            let new_end = start + str_len(edit.new_text.as_str());
            proof {
                buf.lemma_valid();
                lemma_boundary_iff(cur, new_end as int);
                lemma_boundary_iff(cur, start as int);
                valid_utf8_split(cur, start as int);
                valid_utf8_split(cur, new_end as int);
            }
            buf.delete(start, new_end);
            proof {
                let x = cur.subrange(0, start as int);
                let y = cur.subrange(new_end as int, cur.len() as int);
                lemma_boundary_prefix(x, y, start as int);
                is_char_boundary_start_end_of_seq(x);
            }
            buf.insert(start, edit.old_text.as_str());
            assert(buf.bytes() =~= unapply_one(cur, edit@));
            i += 1;
        }
        assert(es.subrange(i as int, es.len() as int) =~= Seq::<EditModel>::empty());
    }

    pub fn new_selections(&self) -> (s: &SelectionSet)
        ensures
            *s == self.spec_new_selections(),
    {
        &self.new_selections
    }
}


impl Edit {
    pub fn new(start: usize, end: usize, old_text: &str, new_text: &str) -> (e: Edit)
        ensures
            e@ == (EditModel {
                start: start as int,
                end: end as int,
                old: old_text.spec_bytes(),
                new: new_text.spec_bytes(),
            }),
    {
        Edit { start, end, old_text: old_text.to_owned(), new_text: new_text.to_owned() }
    }

    pub fn range(&self) -> (r: (usize, usize))
        ensures
            r.0 == self@.start,
            r.1 == self@.end,
    {
        (self.start, self.end)
    }

    pub fn old_text(&self) -> (s: String)
        ensures
            encode_utf8(s@) == self@.old,
    {
        self.old_text.clone()
    }

    pub fn new_text(&self) -> (s: String)
        ensures
            encode_utf8(s@) == self@.new,
    {
        self.new_text.clone()
    }
}

/// A transaction of one edit followed by a transaction of one pure insert at
/// the end of that edit's new text.
pub open spec fn can_coalesce(a: Seq<EditModel>, n: Seq<EditModel>) -> bool {
    &&& a.len() == 1
    &&& n.len() == 1
    &&& n[0].start == n[0].end
    &&& n[0].old.len() == 0
    &&& n[0].start == a[0].start + a[0].new.len()
}

/// The single edit that does what the two coalesced edits do.
pub open spec fn coalesced(a: EditModel, n: EditModel) -> EditModel {
    EditModel { start: a.start, end: a.end, old: a.old, new: a.new + n.new }
}

/// Selections as a new value equal to the given one.
pub fn copy_selections(s: &SelectionSet) -> (r: SelectionSet)
    ensures
        r@ == s@,
{
    let mut v: Vec<Selection> = Vec::new();
    let mut i: usize = 0;
    while i < s.selections.len()
        invariant
            i <= s.selections@.len(),
            v@ == s.selections@.subrange(0, i as int),
        decreases s.selections@.len() - i,
    {
        v.push(s.selections[i]);
        i += 1;
        assert(v@ =~= s.selections@.subrange(0, i as int));
    }
    assert(v@ =~= s.selections@);
    SelectionSet { primary: s.primary, selections: v }
}

impl Transaction {
    /// Merges a pure insert that continues immediately after this
    /// transaction's new text. Returns `None` if the edits can't be coalesced.
    pub fn coalesce_insert(&self, next: &Transaction) -> (r: Option<Transaction>)
        ensures
            r is Some <==> can_coalesce(self.edit_models(), next.edit_models()),
            r matches Some(t) ==> {
                &&& t.edit_models() == seq![
                    coalesced(self.edit_models()[0], next.edit_models()[0]),
                ]
                &&& t.spec_new_selections()@ == next.spec_new_selections()@
            },
    {
        if self.edits.len() != 1 || next.edits.len() != 1 {
            return None;
        }
        let prev = &self.edits[0];
        let ins = &next.edits[0];
        assert(self.edit_models()[0] == prev@);
        assert(next.edit_models()[0] == ins@);
        let (ins_start, ins_end) = ins.range();
        proof {
            lemma_encode_len_zero(ins.old_text@);
        }
        if ins_start != ins_end || str_len(ins.old_text.as_str()) != 0 {
            return None;
        }
        let (prev_start, prev_end) = prev.range();
        let expected = match prev_start.checked_add(str_len(prev.new_text.as_str())) {
            Some(e) => e,
            None => return None,
        };
        if ins_start != expected {
            return None;
        }
        let mut merged_new = String::from_str(prev.new_text.as_str());
        merged_new.append(ins.new_text.as_str());
        proof {
            lemma_encode_concat(prev.new_text@, ins.new_text@);
        }
        let edit = Edit::new(prev_start, prev_end, prev.old_text.as_str(), merged_new.as_str());
        let t = Transaction::new(vec![edit], copy_selections(next.new_selections()));
        assert(t.edit_models() =~= seq![coalesced(prev@, ins@)]);
        Some(t)
    }
}

proof fn lemma_encode_len_zero(c: Seq<char>)
    ensures
        (encode_utf8(c).len() == 0) == (c.len() == 0),
{
    if c.len() > 0 {
        lemma_encode_concat(seq![c[0]], c.drop_first());
        assert(seq![c[0]] + c.drop_first() =~= c);
        assert(seq![c[0]].drop_first() =~= Seq::<char>::empty());
        assert(encode_utf8(seq![c[0]]) =~= encode_scalar(c[0] as u32) + encode_utf8(Seq::<char>::empty()));
    }
}

/// Applying the coalesced edit does what applying the two transactions one
/// after the other does: when the first can be applied to valid UTF-8 and
/// the result with the inserted text fits in memory, the insert can be
/// applied after it, the coalesced edit can be applied, and both ways give
/// the same text.
pub proof fn lemma_coalesce_same_result(b: Seq<u8>, a: Seq<EditModel>, n: Seq<EditModel>)
    requires
        can_coalesce(a, n),
        applicable(b, a),
        valid_utf8(b),
        valid_utf8(a[0].new),
        apply_all(b, a).len() + n[0].new.len() <= usize::MAX,
    ensures
        applicable(apply_all(b, a), n),
        applicable(b, seq![coalesced(a[0], n[0])]),
        apply_all(b, seq![coalesced(a[0], n[0])]) == apply_all(apply_all(b, a), n),
{
    let e = a[0];
    let f = n[0];
    let m = coalesced(e, f);
    assert(a.drop_last() =~= Seq::<EditModel>::empty());
    assert(n.drop_last() =~= Seq::<EditModel>::empty());
    let ms = seq![m];
    assert(ms.drop_last() =~= Seq::<EditModel>::empty());
    let c = apply_one(b, e);
    reveal_with_fuel(apply_all, 2);
    reveal_with_fuel(applicable, 2);
    assert(apply_all(b, a) == c);
    assert(step_ok(b, e));
    // the insert's offset is the end of the first edit's new text in `c`
    lemma_boundary_iff(b, e.start);
    lemma_boundary_iff(b, e.end);
    lemma_valid_between(b, 0, e.start);
    is_char_boundary_start_end_of_seq(b);
    lemma_valid_between(b, e.end, b.len() as int);
    let x = b.subrange(0, e.start) + e.new;
    let y = b.subrange(e.end, b.len() as int);
    valid_utf8_concat(b.subrange(0, e.start), e.new);
    assert(c =~= x + y);
    is_char_boundary_start_end_of_seq(x);
    lemma_boundary_prefix(x, y, x.len() as int);
    assert(step_ok(c, f));
    assert(applicable(c, n));
    assert(apply_all(c, n) == apply_one(c, f));
    assert(apply_all(b, ms) == apply_one(b, m));
    assert(c.subrange(0, f.start) =~= b.subrange(0, e.start) + e.new);
    assert(c.subrange(f.end, c.len() as int) =~= b.subrange(e.end, b.len() as int));
    assert(apply_one(b, m) =~= apply_one(c, f));
}

/// The start of a deletion is the selection's lowest offset.
pub open spec fn delete_start(s: Selection) -> int {
    s.low()
}

/// A collapsed selection deletes one byte (none at the end of the text); any
/// other selection deletes up to its highest offset.
pub open spec fn delete_end(s: Selection, len: int) -> int {
    if s.spec_anchor() == s.spec_head() {
        if s.low() < len {
            s.low() + 1
        } else {
            len
        }
    } else {
        s.high()
    }
}

/// The edit that deletes what `s` selects in `b`.
pub open spec fn delete_model(s: Selection, b: Seq<u8>) -> EditModel {
    EditModel {
        start: delete_start(s),
        end: delete_end(s, b.len() as int),
        old: b.subrange(delete_start(s), delete_end(s, b.len() as int)),
        new: Seq::empty(),
    }
}

/// The deletion ranges of every selection lie on character boundaries.
pub open spec fn deletable(sels: Seq<Selection>, b: Seq<u8>) -> bool {
    forall|i: int|
        0 <= i < sels.len() ==> {
            &&& is_char_boundary(b, delete_start(#[trigger] sels[i]))
            &&& is_char_boundary(b, delete_end(sels[i], b.len() as int))
        }
}

/// Deletes what each selection selects (a collapsed selection deletes the
/// byte under it) and leaves a cursor at the start of each deletion.
pub fn action_delete(selections: &SelectionSet, buf: &impl Buffer) -> (t: Transaction)
    requires
        deletable(selections.selections@, buf.bytes()),
    ensures
        t.edit_models() == Seq::new(
            selections.selections@.len(),
            |i: int| delete_model(selections.selections@[i], buf.bytes()),
        ),
        t.spec_new_selections().primary == 0,
        t.spec_new_selections().selections@ == add_all(
            Seq::empty(),
            Seq::new(
                selections.selections@.len(),
                |i: int| make(delete_start(selections.selections@[i]) as usize, delete_start(selections.selections@[i]) as usize),
            ),
        ),
{
    let ghost sels = selections.selections@;
    let ghost b = buf.bytes();
    let mut edits: Vec<Edit> = Vec::new();
    let mut cursors: Vec<Selection> = Vec::new();
    let len = buf.len();
    let mut i: usize = 0;
    while i < selections.selections.len()
        invariant
            i <= sels.len(),
            sels == selections.selections@,
            b == buf.bytes(),
            len == b.len(),
            deletable(sels, b),
            edits@.len() == i,
            cursors@.len() == i,
            forall|k: int| 0 <= k < i ==> (#[trigger] edits@[k])@ == delete_model(sels[k], b),
            forall|k: int|
                0 <= k < i ==> #[trigger] cursors@[k] == make(
                    delete_start(sels[k]) as usize,
                    delete_start(sels[k]) as usize,
                ),
        decreases sels.len() - i,
    {
        let selection = &selections.selections[i];
        let start = if selection.anchor() <= selection.head() {
            selection.anchor()
        } else {
            selection.head()
        };
        let end = if selection.is_empty() {
            if start < len {
                start + 1
            } else {
                len
            }
        } else if selection.anchor() >= selection.head() {
            selection.anchor()
        } else {
            selection.head()
        };
        assert(sels[i as int] == *selection);
        proof {
            buf.lemma_valid();
            lemma_boundary_iff(b, start as int);
            lemma_boundary_iff(b, end as int);
        }
        let old_text = buf.slice(start, end);
        edits.push(Edit::new(start, end, old_text, ""));
        cursors.push(Selection::cursor(start));
        proof {
            reveal_strlit("");
        }
        i += 1;
    }
    let new_selections = SelectionSet::from_vec(cursors);
    let t = Transaction::new(edits, new_selections);
    assert(t.edit_models() =~= Seq::new(sels.len(), |k: int| delete_model(sels[k], b)));
    assert(cursors@ =~= Seq::new(
        sels.len(),
        |k: int| make(delete_start(sels[k]) as usize, delete_start(sels[k]) as usize),
    ));
    t
}


/// Applying `[f] + r` applies `r` first and `f` last.
proof fn lemma_apply_all_cons(b: Seq<u8>, f: EditModel, r: Seq<EditModel>)
    ensures
        apply_all(b, seq![f] + r) == apply_one(apply_all(b, r), f),
        applicable(b, seq![f] + r) == (applicable(b, r) && step_ok(apply_all(b, r), f)),
    decreases r.len(),
{
    let e = seq![f] + r;
    if r.len() == 0 {
        assert(e.drop_last() =~= Seq::<EditModel>::empty());
        reveal_with_fuel(apply_all, 2);
        reveal_with_fuel(applicable, 2);
    } else {
        let l = r.last();
        let r2 = r.drop_last();
        assert(e.last() == l);
        assert(e.drop_last() =~= seq![f] + r2);
        lemma_apply_all_cons(apply_one(b, l), f, r2);
    }
}

proof fn lemma_delta_drop_last(es: Seq<EditModel>)
    requires
        es.len() > 0,
    ensures
        delta(es) == delta(es.drop_last()) + growth(es.last()),
    decreases es.len(),
{
    if es.len() > 1 {
        let t = es.drop_first();
        lemma_delta_drop_last(t);
        assert(t.drop_last() =~= es.drop_last().drop_first());
        assert(t.last() == es.last());
    } else {
        assert(es.drop_last() =~= Seq::<EditModel>::empty());
        assert(es.drop_first() =~= Seq::<EditModel>::empty());
    }
}

proof fn lemma_len_fits_bound(n: int, es: Seq<EditModel>)
    requires
        len_fits(n, es),
    ensures
        n <= usize::MAX,
    decreases es.len(),
{
    if es.len() > 0 {
        lemma_len_fits_bound(n, es.drop_first());
    }
}

proof fn lemma_len_fits_drop_last(n: int, es: Seq<EditModel>)
    requires
        es.len() > 0,
        len_fits(n, es),
    ensures
        len_fits(n + growth(es.last()), es.drop_last()),
        n + growth(es.last()) <= usize::MAX,
    decreases es.len(),
{
    lemma_delta_drop_last(es);
    let d = es.drop_last();
    if d.len() > 0 {
        let t = es.drop_first();
        lemma_len_fits_drop_last(n, t);
        assert(t.drop_last() =~= d.drop_first());
        assert(t.last() == es.last());
    }
    lemma_len_fits_bound(n + growth(es.last()), d);
}

/// Edits that all lie at or after `p` leave the bytes before `p` alone and
/// leave valid UTF-8 after it.
proof fn lemma_apply_keeps_prefix(b: Seq<u8>, es: Seq<EditModel>, p: int)
    requires
        edits_fit(b, es),
        0 <= p <= b.len(),
        is_char_boundary(b, p),
        forall|i: int| 0 <= i < es.len() ==> p <= (#[trigger] es[i]).start,
    ensures
        applicable(b, es),
        apply_all(b, es).subrange(0, p) == b.subrange(0, p),
        p <= apply_all(b, es).len(),
        apply_all(b, es).len() == b.len() + delta(es),
        valid_utf8(apply_all(b, es).subrange(p, apply_all(b, es).len() as int)),
        valid_utf8(apply_all(b, es)),
    decreases es.len(),
{
    if es.len() == 0 {
        valid_utf8_split(b, p);
    } else {
        let l = es.last();
        let r = es.drop_last();
        assert(es[es.len() - 1] == l);
        let b1 = apply_one(b, l);
        lemma_delta_drop_last(es);
        lemma_len_fits_drop_last(b.len() as int, es);
        is_char_boundary_start_end_of_seq(b);
        lemma_valid_between(b, 0, l.start);
        lemma_valid_between(b, l.end, b.len() as int);
        let x = b.subrange(0, l.start);
        let y = l.new + b.subrange(l.end, b.len() as int);
        valid_utf8_concat(l.new, b.subrange(l.end, b.len() as int));
        assert(b1 =~= x + y);
        assert(b =~= x + b.subrange(l.start, b.len() as int));
        lemma_valid_between(b, l.start, b.len() as int);
        assert forall|i: int| 0 <= i <= l.start implies is_char_boundary(b1, i) == is_char_boundary(b, i) by {
            lemma_boundary_prefix(x, y, i);
            lemma_boundary_prefix(x, b.subrange(l.start, b.len() as int), i);
        }
        assert(step_ok(b, l));
        assert(edits_fit(b1, r)) by {
            lemma_boundary_prefix(x, y, 0);
            assert forall|i: int| 0 <= i < r.len() implies {
                let e = #[trigger] r[i];
                &&& 0 <= e.start <= e.end <= b1.len()
                &&& is_char_boundary(b1, e.start)
                &&& is_char_boundary(b1, e.end)
                &&& e.old == b1.subrange(e.start, e.end)
                &&& valid_utf8(e.new)
            } by {
                assert(r[i] == es[i]);
                assert(es[i].end <= es[es.len() - 1].start);
                assert(b1.subrange(r[i].start, r[i].end) =~= b.subrange(r[i].start, r[i].end));
            }
            assert forall|i: int, j: int| 0 <= i < j < r.len() implies (#[trigger] r[i]).end <= (
            #[trigger] r[j]).start by {
                assert(r[i] == es[i] && r[j] == es[j]);
            }
        }
        assert forall|i: int| 0 <= i < r.len() implies p <= (#[trigger] r[i]).start by {
            assert(r[i] == es[i]);
        }
        assert(p <= l.start);
        lemma_apply_keeps_prefix(b1, r, p);
        let d = apply_all(b1, r);
        assert(apply_all(b, es) == d);
        assert(b1.subrange(0, p) =~= b.subrange(0, p));
    }
}

/// Taking back an edit right after making it gives the text before it.
proof fn lemma_unapply_one_after_apply(d: Seq<u8>, f: EditModel)
    requires
        0 <= f.start <= f.end <= d.len(),
        f.old == d.subrange(f.start, f.end),
    ensures
        unapply_one(apply_one(d, f), f) == d,
{
    let c = apply_one(d, f);
    assert(c.subrange(0, f.start) =~= d.subrange(0, f.start));
    assert(c.subrange(f.start + f.new.len(), c.len() as int) =~= d.subrange(f.end, d.len() as int));
    assert(unapply_one(c, f) =~= d);
}

/// Undo restores the text: for edits that fit the text, `apply` can be made,
/// `unapply` can then be made, and it gives back the original bytes.
pub proof fn lemma_unapply_undoes_apply(b: Seq<u8>, es: Seq<EditModel>)
    requires
        edits_fit(b, es),
    ensures
        applicable(b, es),
        unapplicable(apply_all(b, es), es),
        unapply_all(apply_all(b, es), es) == b,
    decreases es.len(),
{
    if es.len() > 0 {
        let f = es[0];
        let r = es.drop_first();
        assert(es =~= seq![f] + r);
        assert(delta(es) == growth(f) + delta(r));
        assert(edits_fit(b, r)) by {
            assert forall|i: int| 0 <= i < r.len() implies {
                let e = #[trigger] r[i];
                &&& 0 <= e.start <= e.end <= b.len()
                &&& is_char_boundary(b, e.start)
                &&& is_char_boundary(b, e.end)
                &&& e.old == b.subrange(e.start, e.end)
                &&& valid_utf8(e.new)
            } by {
                assert(r[i] == es[i + 1]);
            }
            assert forall|i: int, j: int| 0 <= i < j < r.len() implies (#[trigger] r[i]).end <= (
            #[trigger] r[j]).start by {
                assert(r[i] == es[i + 1] && r[j] == es[j + 1]);
            }
        }
        assert(f == es[0]);
        let p = f.end;
        assert forall|i: int| 0 <= i < r.len() implies p <= (#[trigger] r[i]).start by {
            assert(r[i] == es[i + 1]);
        }
        lemma_apply_keeps_prefix(b, r, p);
        lemma_unapply_undoes_apply(b, r);
        let d = apply_all(b, r);
        lemma_apply_all_cons(b, f, r);
        lemma_valid_between(b, 0, p);
        let x = d.subrange(0, p);
        let y = d.subrange(p, d.len() as int);
        assert(d =~= x + y);
        assert(x == b.subrange(0, p));
        is_char_boundary_start_end_of_seq(x);
        lemma_boundary_prefix(x, y, p);
        lemma_boundary_prefix(x, y, f.start);
        lemma_valid_between(b, 0, p);
        assert(b =~= x + b.subrange(p, b.len() as int));
        is_char_boundary_start_end_of_seq(b);
        lemma_valid_between(b, p, b.len() as int);
        lemma_boundary_prefix(x, b.subrange(p, b.len() as int), f.start);
        assert(step_ok(d, f));
        let c = apply_one(d, f);
        assert(apply_all(b, es) == c);
        assert(d.subrange(f.start, f.end) =~= b.subrange(f.start, f.end));
        lemma_unapply_one_after_apply(d, f);
        // the reversal of f can be made on c
        is_char_boundary_start_end_of_seq(d);
        lemma_valid_between(d, 0, f.start);
        lemma_valid_between(d, f.end, d.len() as int);
        let cx = d.subrange(0, f.start);
        let cy = f.new + d.subrange(f.end, d.len() as int);
        valid_utf8_concat(f.new, d.subrange(f.end, d.len() as int));
        assert(c =~= cx + cy);
        is_char_boundary_start_end_of_seq(cx);
        lemma_boundary_prefix(cx, cy, f.start);
        let cx2 = d.subrange(0, f.start) + f.new;
        let cy2 = d.subrange(f.end, d.len() as int);
        valid_utf8_concat(d.subrange(0, f.start), f.new);
        assert(c =~= cx2 + cy2);
        is_char_boundary_start_end_of_seq(cx2);
        lemma_boundary_prefix(cx2, cy2, f.start + f.new.len());
        assert(unstep_ok(c, f));
        assert(unapply_all(c, es) == unapply_all(unapply_one(c, es[0]), es.drop_first()));
    }
}


proof fn lemma_shrinking_fits(n: int, es: Seq<EditModel>)
    requires
        n <= usize::MAX,
        forall|i: int| 0 <= i < es.len() ==> growth(#[trigger] es[i]) <= 0,
    ensures
        len_fits(n, es),
        delta(es) <= 0,
    decreases es.len(),
{
    if es.len() > 0 {
        let r = es.drop_first();
        assert forall|i: int| 0 <= i < r.len() implies growth(#[trigger] r[i]) <= 0 by {
            assert(r[i] == es[i + 1]);
        }
        lemma_shrinking_fits(n, r);
    }
}

/// The deletions of a sorted, non-overlapping set of forward selections fit
/// the text, so deleting them can be undone.
pub proof fn lemma_delete_edits_fit(sels: Seq<Selection>, b: Seq<u8>)
    requires
        well_ordered(sels),
        valid_utf8(b),
        deletable(sels, b),
        b.len() <= usize::MAX,
    ensures
        edits_fit(b, Seq::new(sels.len(), |i: int| delete_model(sels[i], b))),
{
    let es = Seq::new(sels.len(), |i: int| delete_model(sels[i], b));
    assert forall|i: int| 0 <= i < es.len() implies growth(#[trigger] es[i]) <= 0 by {
        let s = sels[i];
        assert(s.spec_forward());
        lemma_boundary_iff(b, delete_start(s));
        lemma_boundary_iff(b, delete_end(s, b.len() as int));
    }
    lemma_shrinking_fits(b.len() as int, es);
    assert forall|i: int| 0 <= i < es.len() implies {
        let e = #[trigger] es[i];
        &&& 0 <= e.start <= e.end <= b.len()
        &&& is_char_boundary(b, e.start)
        &&& is_char_boundary(b, e.end)
        &&& e.old == b.subrange(e.start, e.end)
        &&& valid_utf8(e.new)
    } by {
        let s = sels[i];
        assert(s.spec_forward());
        lemma_boundary_iff(b, delete_start(s));
        lemma_boundary_iff(b, delete_end(s, b.len() as int));
        assert(valid_utf8(Seq::<u8>::empty()));
    }
    assert forall|i: int, j: int| 0 <= i < j < es.len() implies (#[trigger] es[i]).end <= (
    #[trigger] es[j]).start by {
        let si = sels[i];
        let sj = sels[j];
        assert(si.high() < sj.low());
        lemma_boundary_iff(b, delete_start(sj));
    }
}


/// Deleting a sorted, non-overlapping set of forward selections and then
/// applying the deletions gives the text rebuilt from left to right with
/// each selection's range left out.
pub proof fn lemma_delete_then_apply(sels: Seq<Selection>, b: Seq<u8>)
    requires
        well_ordered(sels),
        valid_utf8(b),
        deletable(sels, b),
        b.len() <= usize::MAX,
    ensures
        apply_all(b, Seq::new(sels.len(), |i: int| delete_model(sels[i], b))) == spliced(
            b,
            Seq::new(sels.len(), |i: int| delete_model(sels[i], b)),
        ),
        forall|i: int| 0 <= i < sels.len() ==> (#[trigger] delete_model(sels[i], b)).new.len() == 0,
{
    let es = Seq::new(sels.len(), |i: int| delete_model(sels[i], b));
    lemma_delete_edits_fit(sels, b);
    assert(ordered_within(es, b.len() as int));
    lemma_apply_in_order(b, es);
}

/// Deleting one selection: `action_delete` makes the single edit that takes
/// out the bytes from its lowest offset up to its highest (the byte under a
/// collapsed one, none at the end of the text), applying it leaves the text
/// without them, and the cursor goes to where they started.
pub proof fn lemma_delete_one(sel: Selection, b: Seq<u8>)
    requires
        valid_utf8(b),
        b.len() <= usize::MAX,
        is_char_boundary(b, delete_start(sel)),
        is_char_boundary(b, delete_end(sel, b.len() as int)),
    ensures
        Seq::new(1, |i: int| delete_model(seq![sel][i], b)) == seq![delete_model(sel, b)],
        apply_all(b, seq![delete_model(sel, b)]) == b.subrange(0, delete_start(sel)) + b.subrange(
            delete_end(sel, b.len() as int),
            b.len() as int,
        ),
        add_all(
            Seq::empty(),
            Seq::new(1, |i: int| make(delete_start(seq![sel][i]) as usize, delete_start(seq![sel][i]) as usize)),
        ) == seq![make(delete_start(sel) as usize, delete_start(sel) as usize)],
{
    let e = delete_model(sel, b);
    assert(Seq::new(1, |i: int| delete_model(seq![sel][i], b)) =~= seq![e]);
    lemma_boundary_iff(b, delete_start(sel));
    lemma_boundary_iff(b, delete_end(sel, b.len() as int));
    assert(seq![e].drop_last() =~= Seq::<EditModel>::empty());
    reveal_with_fuel(apply_all, 2);
    assert(apply_one(b, e) =~= b.subrange(0, delete_start(sel)) + b.subrange(
        delete_end(sel, b.len() as int),
        b.len() as int,
    ));
    let m = make(delete_start(sel) as usize, delete_start(sel) as usize);
    let v = Seq::new(1, |i: int| make(delete_start(seq![sel][i]) as usize, delete_start(seq![sel][i]) as usize));
    assert(v =~= seq![m]);
    reveal_with_fuel(add_all, 2);
    assert(v.drop_first() =~= Seq::<Selection>::empty());
    assert(absorb(Seq::empty(), m) == (Seq::<Selection>::empty(), m));
    assert(Seq::<Selection>::empty().insert(0, m) =~= seq![m]);
}

/// When an edit that fits the text is followed by a pure insert that fits the
/// result and continues its new text, the coalesced edit fits the original
/// text and leads to the same result.
pub proof fn lemma_coalesced_fits(p: Seq<u8>, a: Seq<EditModel>, n: Seq<EditModel>)
    requires
        can_coalesce(a, n),
        edits_fit(p, a),
        edits_fit(apply_all(p, a), n),
    ensures
        edits_fit(p, seq![coalesced(a[0], n[0])]),
        apply_all(p, seq![coalesced(a[0], n[0])]) == apply_all(apply_all(p, a), n),
{
    let e = a[0];
    let f = n[0];
    let m = coalesced(e, f);
    let ms = seq![m];
    lemma_unapply_undoes_apply(p, a);
    lemma_unapply_undoes_apply(apply_all(p, a), n);
    lemma_coalesce_same_result(p, a, n);
    let c = apply_all(p, a);
    reveal_with_fuel(apply_all, 2);
    assert(c == apply_one(p, e));
    assert(c.len() == p.len() + growth(e));
    assert(ms.drop_first() =~= Seq::<EditModel>::empty());
    assert(n.drop_first() =~= Seq::<EditModel>::empty());
    assert(a.drop_first() =~= Seq::<EditModel>::empty());
    reveal_with_fuel(delta, 2);
    reveal_with_fuel(len_fits, 2);
    assert(ms[0] == m);
    assert(delta(ms) == growth(m));
    assert(delta(n) == growth(f));
    assert(delta(a) == growth(e));
    valid_utf8_concat(e.new, f.new);
    assert(ms[0] == m);
}


/// Applying edits that fit a text gives valid UTF-8 that fits in memory.
pub proof fn lemma_applied_text(b: Seq<u8>, es: Seq<EditModel>)
    requires
        edits_fit(b, es),
    ensures
        valid_utf8(apply_all(b, es)),
        apply_all(b, es).len() <= usize::MAX,
        b.len() <= usize::MAX,
{
    lemma_len_fits_bound(b.len() as int, es);
    is_char_boundary_start_end_of_seq(b);
    lemma_apply_keeps_prefix(b, es, 0);
}


/// The text rebuilt from left to right: the bytes before the first edit, its
/// new text, the bytes up to the next edit, its new text, and so on, then
/// the bytes after the last edit.
pub open spec fn spliced(b: Seq<u8>, es: Seq<EditModel>) -> Seq<u8>
    decreases es.len(),
{
    if es.len() == 0 {
        b
    } else {
        let x = es.last();
        spliced(b.subrange(0, x.start), es.drop_last()) + x.new + b.subrange(x.end, b.len() as int)
    }
}

/// Edits that lie in order within the first `n` bytes.
pub open spec fn ordered_within(es: Seq<EditModel>, n: int) -> bool {
    &&& forall|i: int| 0 <= i < es.len() ==> 0 <= (#[trigger] es[i]).start <= es[i].end <= n
    &&& forall|i: int, j: int| 0 <= i < j < es.len() ==> (#[trigger] es[i]).end <= (#[trigger] es[j]).start
}

/// Edits before the end of `p` leave what follows `p` alone.
proof fn lemma_apply_before_suffix(p: Seq<u8>, q: Seq<u8>, es: Seq<EditModel>)
    requires
        ordered_within(es, p.len() as int),
    ensures
        apply_all(p + q, es) == apply_all(p, es) + q,
    decreases es.len(),
{
    if es.len() > 0 {
        let x = es.last();
        let init = es.drop_last();
        assert(x == es[es.len() - 1]);
        let p1 = apply_one(p, x);
        assert(apply_one(p + q, x) =~= p1 + q);
        assert(ordered_within(init, p1.len() as int)) by {
            assert forall|i: int| 0 <= i < init.len() implies 0 <= (#[trigger] init[i]).start <= init[i].end
                <= p1.len() by {
                assert(init[i] == es[i]);
                assert(es[i].end <= es[es.len() - 1].start);
            }
            assert forall|i: int, j: int| 0 <= i < j < init.len() implies (#[trigger] init[i]).end <= (
            #[trigger] init[j]).start by {
                assert(init[i] == es[i] && init[j] == es[j]);
            }
        }
        lemma_apply_before_suffix(p1, q, init);
    }
}

/// Applying edits that lie in order, from the last to the first, gives the
/// text rebuilt from left to right with each range replaced by its new text.
pub proof fn lemma_apply_in_order(b: Seq<u8>, es: Seq<EditModel>)
    requires
        ordered_within(es, b.len() as int),
    ensures
        apply_all(b, es) == spliced(b, es),
    decreases es.len(),
{
    if es.len() > 0 {
        let x = es.last();
        let init = es.drop_last();
        assert(x == es[es.len() - 1]);
        let pre = b.subrange(0, x.start);
        let post = x.new + b.subrange(x.end, b.len() as int);
        assert(apply_one(b, x) =~= pre + post);
        assert(ordered_within(init, pre.len() as int)) by {
            assert forall|i: int| 0 <= i < init.len() implies 0 <= (#[trigger] init[i]).start <= init[i].end
                <= pre.len() by {
                assert(init[i] == es[i]);
                assert(es[i].end <= es[es.len() - 1].start);
            }
            assert forall|i: int, j: int| 0 <= i < j < init.len() implies (#[trigger] init[i]).end <= (
            #[trigger] init[j]).start by {
                assert(init[i] == es[i] && init[j] == es[j]);
            }
        }
        lemma_apply_before_suffix(pre, post, init);
        lemma_apply_in_order(pre, init);
        assert(spliced(pre, init) + post =~= spliced(pre, init) + x.new + b.subrange(x.end, b.len() as int));
    }
}

/// The bytes the edits remove, in total.
pub open spec fn removed_len(es: Seq<EditModel>) -> int
    decreases es.len(),
{
    if es.len() == 0 {
        0
    } else {
        (es[0].end - es[0].start) + removed_len(es.drop_first())
    }
}

/// The bytes the edits put in, in total.
pub open spec fn added_len(es: Seq<EditModel>) -> int
    decreases es.len(),
{
    if es.len() == 0 {
        0
    } else {
        es[0].new.len() + added_len(es.drop_first())
    }
}

proof fn lemma_delta_split(es: Seq<EditModel>)
    ensures
        delta(es) == added_len(es) - removed_len(es),
    decreases es.len(),
{
    if es.len() > 0 {
        lemma_delta_split(es.drop_first());
    }
}

/// The edits of `es` from `t` on fit a text of `n` bytes, whenever all of
/// them do.
proof fn lemma_len_fits_suffix(n: int, es: Seq<EditModel>, t: int)
    requires
        len_fits(n, es),
        0 <= t <= es.len(),
    ensures
        len_fits(n, es.subrange(t, es.len() as int)),
    decreases t,
{
    if t == 0 {
        assert(es.subrange(0, es.len() as int) =~= es);
    } else {
        lemma_len_fits_suffix(n, es, t - 1);
        let s = es.subrange(t - 1, es.len() as int);
        assert(s.drop_first() =~= es.subrange(t, es.len() as int));
    }
}

impl Transaction {
    /// Whether the edits describe the text `text`: they can be applied to it
    /// and undone again.
    pub fn fits(&self, text: &str) -> (ok: bool)
        ensures
            ok == edits_fit(text.spec_bytes(), self.edit_models()),
    {
        let ghost b = text.spec_bytes();
        let ghost es = self.edit_models();
        proof {
            encode_utf8_valid_utf8(text@);
        }
        let n = str_len(text);
        let k = self.edits.len();
        let mut i: usize = 0;
        while i < k
            invariant
                i <= k,
                k == es.len(),
                es == self.edit_models(),
                n == b.len(),
                b == text.spec_bytes(),
                valid_utf8(b),
                forall|j: int|
                    0 <= j < i ==> {
                        let e = #[trigger] es[j];
                        &&& 0 <= e.start <= e.end <= b.len()
                        &&& is_char_boundary(b, e.start)
                        &&& is_char_boundary(b, e.end)
                        &&& e.old == b.subrange(e.start, e.end)
                        &&& valid_utf8(e.new)
                    },
                forall|j1: int, j2: int| 0 <= j1 < j2 < i ==> (#[trigger] es[j1]).end <= (#[trigger] es[j2]).start,
            decreases k - i,
        {
            let e = &self.edits[i];
            assert(es[i as int] == e@);
            if !(e.start <= e.end && e.end <= n && text.is_char_boundary(e.start) && text.is_char_boundary(
                e.end,
            )) {
                return false;
            }
            if i > 0 && self.edits[i - 1].end > e.start {
                assert(es[i - 1] == self.edits@[i - 1]@);
                return false;
            }
            proof {
                if i > 0 {
                    assert(es[i - 1] == self.edits@[i - 1]@);
                }
            }
            let old = substr(text, e.start, e.end).to_owned();
            if !(e.old_text == old) {
                proof {
                    encode_utf8_decode_utf8(e.old_text@);
                    encode_utf8_decode_utf8(old@);
                }
                return false;
            }
            proof {
                encode_utf8_valid_utf8(e.new_text@);
                assert forall|j1: int, j2: int| 0 <= j1 < j2 < i + 1 implies (#[trigger] es[j1]).end <= (
                #[trigger] es[j2]).start by {
                    if j2 == i && j1 < i - 1 {
                        assert(es[j1].end <= es[i - 1].start);
                    }
                }
            }
            i += 1;
        }
        let mut t: usize = k;
        let mut removed: usize = 0;
        let mut added: usize = 0;
        assert(es.subrange(k as int, k as int) =~= Seq::<EditModel>::empty());
        while t > 0
            invariant
                t <= k,
                k == es.len(),
                es == self.edit_models(),
                b == text.spec_bytes(),
                n == b.len(),
                forall|j: int|
                    0 <= j < k ==> {
                        let e = #[trigger] es[j];
                        &&& 0 <= e.start <= e.end <= b.len()
                    },
                forall|j1: int, j2: int| 0 <= j1 < j2 < k ==> (#[trigger] es[j1]).end <= (#[trigger] es[j2]).start,
                removed == removed_len(es.subrange(t as int, k as int)),
                added == added_len(es.subrange(t as int, k as int)),
                removed <= n - (if t < k {
                    es[t as int].start
                } else {
                    n as int
                }),
                len_fits(n as int, es.subrange(t as int, k as int)),
            decreases t,
        {
            t -= 1;
            let e = &self.edits[t];
            assert(es[t as int] == e@);
            let ghost suffix = es.subrange(t as int, k as int);
            assert(suffix.drop_first() =~= es.subrange(t + 1, k as int));
            assert(suffix[0] == e@);
            proof {
                if t + 1 < k {
                    assert(es[t as int].end <= es[t + 1].start);
                }
            }
            removed = removed + (e.end - e.start);
            let grown = match added.checked_add(str_len(e.new_text.as_str())) {
                Some(a) => a,
                None => {
                    proof {
                        lemma_delta_split(suffix);
                        if len_fits(n as int, es) {
                            lemma_len_fits_suffix(n as int, es, t as int);
                        }
                    }
                    return false;
                },
            };
            added = grown;
            if added > usize::MAX - (n - removed) {
                proof {
                    lemma_delta_split(suffix);
                    if len_fits(n as int, es) {
                        lemma_len_fits_suffix(n as int, es, t as int);
                    }
                }
                return false;
            }
            proof {
                lemma_delta_split(suffix);
            }
        }
        assert(es.subrange(0, k as int) =~= es);
        true
    }
}

} // verus!
