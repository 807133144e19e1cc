//! A set of selections with a primary one. Built through `add`, the set is
//! kept sorted by position with no two selections overlapping.

use vstd::prelude::*;
use vstd::std_specs::iter::IteratorSpec;
use crate::selection::cursor::{Selection, group_selection, make};

verus! {

broadcast use group_selection;

#[derive(Debug, PartialEq, Clone)]
pub struct SelectionSet {
    pub primary: usize,
    pub selections: Vec<Selection>,
}

/// One left-to-right pass of `add`: every selection that overlaps the growing
/// merged selection is absorbed into it; the others are kept in order.
/// Returns the kept selections and the final merged selection.
pub open spec fn absorb(sels: Seq<Selection>, m: Selection) -> (Seq<Selection>, Selection)
    decreases sels.len(),
{
    if sels.len() == 0 {
        (sels, m)
    } else if m.spec_overlaps(sels[0]) {
        absorb(sels.drop_first(), m.spec_merge(sels[0]))
    } else {
        let r = absorb(sels.drop_first(), m);
        (seq![sels[0]] + r.0, r.1)
    }
}

/// Index of the first selection whose lowest offset is greater than `pos`
/// (the length when there is none).
pub open spec fn first_after(sels: Seq<Selection>, pos: int) -> int
    decreases sels.len(),
{
    if sels.len() == 0 {
        0
    } else if sels[0].low() > pos {
        0
    } else {
        1 + first_after(sels.drop_first(), pos)
    }
}

/// The selections after adding `sel`.
pub open spec fn spec_add(sels: Seq<Selection>, sel: Selection) -> Seq<Selection> {
    let r = absorb(sels, sel);
    r.0.insert(first_after(r.0, r.1.low()), r.1)
}

/// Where the added (merged) selection goes in the selections after adding
/// `sel`.
pub open spec fn added_index(sels: Seq<Selection>, sel: Selection) -> int {
    let r = absorb(sels, sel);
    first_after(r.0, r.1.low())
}

/// The primary index after adding `sel`: kept while it still names a
/// selection, otherwise the index of the added selection.
pub open spec fn primary_after_add(sels: Seq<Selection>, primary: usize, sel: Selection) -> int {
    if primary < spec_add(sels, sel).len() {
        primary as int
    } else {
        added_index(sels, sel)
    }
}

/// The selections after adding each of `v` in turn.
pub open spec fn add_all(sels: Seq<Selection>, v: Seq<Selection>) -> Seq<Selection>
    decreases v.len(),
{
    if v.len() == 0 {
        sels
    } else {
        add_all(spec_add(sels, v[0]), v.drop_first())
    }
}

/// Sorted by position, pairwise non-overlapping, all forward.
pub open spec fn well_ordered(sels: Seq<Selection>) -> bool {
    &&& forall|i: int| 0 <= i < sels.len() ==> (#[trigger] sels[i]).spec_forward()
    &&& forall|i: int, j: int|
        0 <= i < j < sels.len() ==> (#[trigger] sels[i]).high() < (#[trigger] sels[j]).low()
}

/// The offsets covered by some selection.
pub open spec fn covered(sels: Seq<Selection>) -> Set<int> {
    Set::new(|p: int| exists|i: int| 0 <= i < sels.len() && (#[trigger] sels[i]).covers(p))
}

/// The offsets a single selection covers.
pub open spec fn range_of(s: Selection) -> Set<int> {
    Set::new(|p: int| s.covers(p))
}

/// A selection set (as its primary index and selections) fits a text of
/// `len` bytes: the primary names a selection and every head and anchor lies
/// within the text.
pub open spec fn fits_text(s: (usize, Seq<Selection>), len: int) -> bool {
    &&& s.0 < s.1.len()
    &&& forall|i: int|
        0 <= i < s.1.len() ==> (#[trigger] s.1[i]).spec_head() <= len && s.1[i].spec_anchor() <= len
}

impl View for SelectionSet {
    type V = (usize, Seq<Selection>);

    open spec fn view(&self) -> (usize, Seq<Selection>) {
        (self.primary, self.selections@)
    }
}

/// Walks the selections in position order.
impl<'a> IntoIterator for &'a SelectionSet {
    type Item = &'a Selection;
    type IntoIter = std::slice::Iter<'a, Selection>;

    fn into_iter(self) -> (it: std::slice::Iter<'a, Selection>)
        ensures
            it.remaining() == self.selections@.as_ref(),
    {
        self.selections.as_slice().iter()
    }
}

impl SelectionSet {
    /// The primary index names one of the selections.
    pub open spec fn has_primary(&self) -> bool {
        self.primary < self.selections@.len()
    }

    pub fn len(&self) -> (n: usize)
        ensures
            n == self.selections@.len(),
    {
        self.selections.len()
    }

    pub fn is_empty(&self) -> (b: bool)
        ensures
            b == (self.selections@.len() == 0),
    {
        self.selections.len() == 0
    }

    pub fn primary(&self) -> (s: &Selection)
        requires
            self.has_primary(),
        ensures
            *s == self.selections@[self.primary as int],
    {
        &self.selections[self.primary]
    }

    pub fn set_primary(&mut self, index: usize)
        ensures
            final(self).primary == index,
            final(self).selections@ == old(self).selections@,
    {
        self.primary = index
    }

    /// The primary index names a selection and every head and anchor is at
    /// most `len`.
    pub fn fits(&self, len: usize) -> (b: bool)
        ensures
            b == fits_text(self@, len as int),
    {
        if self.primary >= self.selections.len() {
            return false;
        }
        let mut i: usize = 0;
        while i < self.selections.len()
            invariant
                i <= self.selections@.len(),
                forall|j: int| 0 <= j < i ==> (#[trigger] self.selections@[j]).spec_head() <= len
                    && self.selections@[j].spec_anchor() <= len,
            decreases self.selections@.len() - i,
        {
            let s = self.selections[i];
            if s.head() > len || s.anchor() > len {
                return false;
            }
            i += 1;
        }
        true
    }

    pub fn single(selection: Selection) -> (set: SelectionSet)
        ensures
            set.primary == 0,
            set.selections@ == seq![selection],
    {
        SelectionSet { primary: 0, selections: vec![selection] }
    }

    /// Adds a selection, merging every selection it overlaps into it, and
    /// places the result before the first selection that starts after it.
    /// The primary index is kept while it still names a selection; when the
    /// merges leave it past the end it names the added selection.
    pub fn add(&mut self, selection: Selection)
        ensures
            final(self).primary == primary_after_add(old(self).selections@, old(self).primary, selection),
            final(self).primary < final(self).selections@.len(),
            final(self).selections@ == spec_add(old(self).selections@, selection),
    {
        let ghost orig = self.selections@;
        let mut merged = selection;
        let mut i: usize = 0;
        proof {
            assert(orig.subrange(0, orig.len() as int) =~= orig);
            assert(orig.subrange(0, 0) + absorb(orig, selection).0 =~= absorb(orig, selection).0);
        }
        while i < self.selections.len()
            invariant
                i <= self.selections@.len(),
                self.primary == old(self).primary,
                ({
                    let r = absorb(
                        self.selections@.subrange(i as int, self.selections@.len() as int),
                        merged,
                    );
                    (self.selections@.subrange(0, i as int) + r.0, r.1) == absorb(orig, selection)
                }),
            decreases self.selections@.len() - i,
        {
            let ghost before = self.selections@;
            let ghost rest = before.subrange(i as int, before.len() as int);
            assert(rest.drop_first() =~= before.subrange(i + 1, before.len() as int));
            if merged.overlaps(&self.selections[i]) {
                let removed = self.selections.remove(i);
                merged = merged.merge(&removed);
                assert(self.selections@.subrange(i as int, self.selections@.len() as int)
                    =~= before.subrange(i + 1, before.len() as int));
                assert(self.selections@.subrange(0, i as int) =~= before.subrange(0, i as int));
            } else {
                let ghost r = absorb(rest.drop_first(), merged);
                assert(before.subrange(0, i + 1) =~= before.subrange(0, i as int) + seq![before[i as int]]);
                assert(before.subrange(0, i as int) + (seq![rest[0]] + r.0)
                    =~= before.subrange(0, i + 1) + r.0);
                i += 1;
            }
        }
        proof {
            assert(self.selections@.subrange(i as int, self.selections@.len() as int)
                =~= Seq::<Selection>::empty());
            assert(self.selections@.subrange(0, i as int) =~= self.selections@);
            assert(self.selections@ + Seq::<Selection>::empty() =~= self.selections@);
        }
        let pos = if merged.anchor() <= merged.head() { merged.anchor() } else { merged.head() };
        let mut j: usize = 0;
        while j < self.selections.len()
            invariant
                j <= self.selections@.len(),
                pos == merged.low(),
                first_after(self.selections@, pos as int) == j + first_after(
                    self.selections@.subrange(j as int, self.selections@.len() as int),
                    pos as int,
                ),
            ensures
                first_after(self.selections@, pos as int) == j,
            decreases self.selections@.len() - j,
        {
            let s = &self.selections[j];
            let s_pos = if s.anchor() <= s.head() { s.anchor() } else { s.head() };
            let ghost sub = self.selections@.subrange(j as int, self.selections@.len() as int);
            if s_pos > pos {
                assert(sub[0] == self.selections@[j as int]);
                break;
            }
            assert(sub.drop_first() =~= self.selections@.subrange(j + 1, self.selections@.len() as int));
            j += 1;
        }
        self.selections.insert(j, merged);
        if self.primary >= self.selections.len() {
            self.primary = j;
        }
    }

    /// The set built by adding each selection of `selections` in turn to an
    /// empty set; the primary index is 0.
    pub fn from_vec(selections: Vec<Selection>) -> (set: SelectionSet)
        ensures
            set.primary == 0,
            set.selections@ == add_all(Seq::empty(), selections@),
    {
        let mut set = SelectionSet { primary: 0, selections: Vec::new() };
        let mut k: usize = 0;
        assert(selections@.subrange(0, selections@.len() as int) =~= selections@);
        while k < selections.len()
            invariant
                k <= selections@.len(),
                set.primary == 0,
                add_all(set.selections@, selections@.subrange(k as int, selections@.len() as int))
                    == add_all(Seq::empty(), selections@),
            decreases selections@.len() - k,
        {
            let ghost sub = selections@.subrange(k as int, selections@.len() as int);
            assert(sub.drop_first() =~= selections@.subrange(k + 1, selections@.len() as int));
            set.add(selections[k]);
            k += 1;
        }
        proof {
            assert(selections@.subrange(k as int, selections@.len() as int) =~= Seq::<Selection>::empty());
        }
        set
    }
}


proof fn lemma_covered_cons(x: Selection, t: Seq<Selection>)
    ensures
        covered(seq![x] + t) == range_of(x) + covered(t),
{
    let c = seq![x] + t;
    assert forall|p: int| covered(c).contains(p) <==> (range_of(x) + covered(t)).contains(p) by {
        if covered(c).contains(p) {
            let i = choose|i: int| 0 <= i < c.len() && (#[trigger] c[i]).covers(p);
            if i > 0 {
                assert(t[i - 1] == c[i]);
            }
        }
        if covered(t).contains(p) {
            let i = choose|i: int| 0 <= i < t.len() && (#[trigger] t[i]).covers(p);
            assert(c[i + 1] == t[i]);
        }
        if range_of(x).contains(p) {
            assert(c[0] == x);
        }
    }
    assert(covered(c) =~= range_of(x) + covered(t));
}

proof fn lemma_covered_empty()
    ensures
        covered(Seq::<Selection>::empty()) == Set::<int>::empty(),
{
    assert(covered(Seq::<Selection>::empty()) =~= Set::<int>::empty());
}

proof fn lemma_covered_insert(k: Seq<Selection>, i: int, x: Selection)
    requires
        0 <= i <= k.len(),
    ensures
        covered(k.insert(i, x)) == covered(k) + range_of(x),
{
    let c = k.insert(i, x);
    assert forall|p: int| covered(c).contains(p) <==> (covered(k) + range_of(x)).contains(p) by {
        if covered(c).contains(p) {
            let j = choose|j: int| 0 <= j < c.len() && (#[trigger] c[j]).covers(p);
            if j < i {
                assert(k[j] == c[j]);
            } else if j > i {
                assert(k[j - 1] == c[j]);
            }
        }
        if covered(k).contains(p) {
            let j = choose|j: int| 0 <= j < k.len() && (#[trigger] k[j]).covers(p);
            if j < i {
                assert(c[j] == k[j]);
            } else {
                assert(c[j + 1] == k[j]);
            }
        }
        if range_of(x).contains(p) {
            assert(c[i] == x);
        }
    }
    assert(covered(c) =~= covered(k) + range_of(x));
}

proof fn lemma_absorb_none(s: Seq<Selection>, m: Selection)
    requires
        forall|i: int| 0 <= i < s.len() ==> (#[trigger] s[i]).low() > m.high(),
    ensures
        absorb(s, m) == (s, m),
    decreases s.len(),
{
    if s.len() > 0 {
        let rest = s.drop_first();
        assert forall|i: int| 0 <= i < rest.len() implies (#[trigger] rest[i]).low() > m.high() by {
            assert(rest[i] == s[i + 1]);
        }
        lemma_absorb_none(rest, m);
        assert(seq![s[0]] + rest =~= s);
    }
}

proof fn lemma_absorb(s: Seq<Selection>, m: Selection)
    requires
        well_ordered(s),
        m.spec_forward(),
    ensures
        ({
            let r = absorb(s, m);
            &&& r.1.spec_forward()
            &&& well_ordered(r.0)
            &&& forall|i: int|
                0 <= i < r.0.len() ==> exists|j: int| 0 <= j < s.len() && #[trigger] r.0[i] == s[j]
            &&& forall|i: int| 0 <= i < r.0.len() ==> !(#[trigger] r.0[i]).spec_overlaps(r.1)
            &&& r.1.low() <= m.low()
            &&& (s.len() > 0 ==> (r.1.low() >= m.low() || r.1.low() >= s[0].low()))
            &&& covered(r.0) + range_of(r.1) == covered(s) + range_of(m)
        }),
    decreases s.len(),
{
    let r = absorb(s, m);
    if s.len() == 0 {
    } else {
        let s0 = s[0];
        let rest = s.drop_first();
        assert(seq![s0] + rest =~= s);
        assert(well_ordered(rest)) by {
            assert forall|i: int, j: int| 0 <= i < j < rest.len() implies (#[trigger] rest[i]).high()
                < (#[trigger] rest[j]).low() by {
                assert(rest[i] == s[i + 1] && rest[j] == s[j + 1]);
            }
            assert forall|i: int| 0 <= i < rest.len() implies (#[trigger] rest[i]).spec_forward() by {
                assert(rest[i] == s[i + 1]);
            }
        }
        assert forall|j: int| 0 <= j < rest.len() implies (#[trigger] rest[j]).low() > s0.high() by {
            assert(rest[j] == s[j + 1]);
            assert(s[0].high() < s[j + 1].low());
        }
        assert(s0.spec_forward()) by {
            assert(s[0].spec_forward());
        }
        lemma_covered_cons(s0, rest);
        if m.spec_overlaps(s0) {
            let m2 = m.spec_merge(s0);
            assert(range_of(m2) =~= range_of(m) + range_of(s0));
            lemma_absorb(rest, m2);
            let rr = absorb(rest, m2);
            assert(r == rr);
            assert forall|i: int| 0 <= i < r.0.len() implies exists|j: int|
                0 <= j < s.len() && #[trigger] r.0[i] == s[j] by {
                let j = choose|j: int| 0 <= j < rest.len() && #[trigger] rr.0[i] == rest[j];
                assert(s[j + 1] == rest[j]);
            }
            if rest.len() > 0 {
                assert(rest[0].low() > s0.high());
            }
            assert(covered(r.0) + range_of(r.1) =~= covered(s) + range_of(m));
        } else if s0.low() > m.high() {
            assert forall|i: int| 0 <= i < s.len() implies (#[trigger] s[i]).low() > m.high() by {
                if i > 0 {
                    assert(s[i] == rest[i - 1]);
                }
            }
            lemma_absorb_none(s, m);
            assert forall|i: int| 0 <= i < r.0.len() implies exists|j: int|
                0 <= j < s.len() && #[trigger] r.0[i] == s[j] by {
                assert(r.0[i] == s[i]);
            }
            assert forall|i: int| 0 <= i < r.0.len() implies !(#[trigger] r.0[i]).spec_overlaps(r.1) by {
                assert(r.0[i] == s[i]);
            }
        } else {
            lemma_absorb(rest, m);
            let rr = absorb(rest, m);
            assert(r.0 == seq![s0] + rr.0);
            assert(r.1 == rr.1);
            assert(s0.high() < r.1.low()) by {
                if rest.len() > 0 {
                    assert(rest[0].low() > s0.high());
                }
            }
            assert forall|i: int| 0 <= i < r.0.len() implies exists|j: int|
                0 <= j < s.len() && #[trigger] r.0[i] == s[j] by {
                if i == 0 {
                    assert(r.0[0] == s[0]);
                } else {
                    assert(r.0[i] == rr.0[i - 1]);
                    let j = choose|j: int| 0 <= j < rest.len() && #[trigger] rr.0[i - 1] == rest[j];
                    assert(s[j + 1] == rest[j]);
                }
            }
            assert forall|i: int| 0 <= i < r.0.len() implies !(#[trigger] r.0[i]).spec_overlaps(r.1) by {
                if i > 0 {
                    assert(r.0[i] == rr.0[i - 1]);
                }
            }
            assert forall|i: int| 0 <= i < r.0.len() implies (#[trigger] r.0[i]).spec_forward() by {
                if i > 0 {
                    assert(r.0[i] == rr.0[i - 1]);
                }
            }
            assert forall|i: int, j: int| 0 <= i < j < r.0.len() implies (#[trigger] r.0[i]).high()
                < (#[trigger] r.0[j]).low() by {
                assert(r.0[j] == rr.0[j - 1]);
                if i > 0 {
                    assert(r.0[i] == rr.0[i - 1]);
                } else {
                    let k = choose|k: int| 0 <= k < rest.len() && #[trigger] rr.0[j - 1] == rest[k];
                }
            }
            lemma_covered_cons(s0, rr.0);
            assert(covered(r.0) == range_of(s0) + covered(rr.0));
            assert(covered(rr.0) + range_of(rr.1) == covered(rest) + range_of(m));
            assert(covered(s) == range_of(s0) + covered(rest));
            assert(range_of(s0) + covered(rr.0) + range_of(rr.1) =~= range_of(s0) + (covered(rr.0)
                + range_of(rr.1)));
            assert(range_of(s0) + covered(rest) + range_of(m) =~= range_of(s0) + (covered(rest)
                + range_of(m)));
        }
    }
}

proof fn lemma_first_after(k: Seq<Selection>, pos: int)
    requires
        well_ordered(k),
    ensures
        0 <= first_after(k, pos) <= k.len(),
        forall|j: int| 0 <= j < first_after(k, pos) ==> (#[trigger] k[j]).low() <= pos,
        forall|j: int| first_after(k, pos) <= j < k.len() ==> (#[trigger] k[j]).low() > pos,
    decreases k.len(),
{
    if k.len() > 0 {
        let rest = k.drop_first();
        assert(well_ordered(rest)) by {
            assert forall|i: int, j: int| 0 <= i < j < rest.len() implies (#[trigger] rest[i]).high()
                < (#[trigger] rest[j]).low() by {
                assert(rest[i] == k[i + 1] && rest[j] == k[j + 1]);
            }
            assert forall|i: int| 0 <= i < rest.len() implies (#[trigger] rest[i]).spec_forward() by {
                assert(rest[i] == k[i + 1]);
            }
        }
        lemma_first_after(rest, pos);
        if k[0].low() > pos {
            assert forall|j: int| 0 <= j < k.len() implies (#[trigger] k[j]).low() > pos by {
                if j > 0 {
                    assert(k[0].high() < k[j].low());
                    assert(k[0].spec_forward());
                }
            }
        } else {
            assert forall|j: int| 0 <= j < first_after(k, pos) implies (#[trigger] k[j]).low() <= pos by {
                if j > 0 {
                    assert(k[j] == rest[j - 1]);
                }
            }
            assert forall|j: int| first_after(k, pos) <= j < k.len() implies (#[trigger] k[j]).low() > pos by {
                assert(k[j] == rest[j - 1]);
            }
        }
    }
}

/// Adding a forward selection to a set that is sorted, non-overlapping and
/// forward keeps it so, and the offsets it covers grow by exactly the added
/// selection's range.
pub proof fn lemma_add_keeps_order(sels: Seq<Selection>, sel: Selection)
    requires
        well_ordered(sels),
        sel.spec_forward(),
    ensures
        well_ordered(spec_add(sels, sel)),
        covered(spec_add(sels, sel)) == covered(sels) + range_of(sel),
{
    lemma_absorb(sels, sel);
    let r = absorb(sels, sel);
    let k = r.0;
    let m = r.1;
    let idx = first_after(k, m.low());
    lemma_first_after(k, m.low());
    let c = k.insert(idx, m);
    lemma_covered_insert(k, idx, m);
    assert forall|i: int| 0 <= i < c.len() implies (#[trigger] c[i]).spec_forward() by {
        if i < idx {
            assert(c[i] == k[i]);
        } else if i > idx {
            assert(c[i] == k[i - 1]);
        }
    }
    assert forall|i: int, j: int| 0 <= i < j < c.len() implies (#[trigger] c[i]).high()
        < (#[trigger] c[j]).low() by {
        if j < idx {
            assert(c[i] == k[i] && c[j] == k[j]);
        } else if j == idx {
            assert(c[i] == k[i]);
            assert(!k[i].spec_overlaps(m));
            assert(k[i].low() <= m.low());
        } else if i < idx {
            assert(c[i] == k[i] && c[j] == k[j - 1]);
        } else if i == idx {
            assert(c[j] == k[j - 1]);
            assert(!k[j - 1].spec_overlaps(m));
            assert(k[j - 1].low() > m.low());
            assert(k[j - 1].spec_forward());
        } else {
            assert(c[i] == k[i - 1] && c[j] == k[j - 1]);
        }
    }
}

/// Adding forward selections one by one to a well-ordered set gives a
/// well-ordered set covering the old offsets and those of every added one.
pub proof fn lemma_add_all_keeps_order(sels: Seq<Selection>, v: Seq<Selection>)
    requires
        well_ordered(sels),
        forall|i: int| 0 <= i < v.len() ==> (#[trigger] v[i]).spec_forward(),
    ensures
        well_ordered(add_all(sels, v)),
        covered(add_all(sels, v)) == covered(sels) + covered(v),
    decreases v.len(),
{
    if v.len() == 0 {
        lemma_covered_empty();
        assert(covered(sels) + Set::<int>::empty() =~= covered(sels));
    } else {
        lemma_add_keeps_order(sels, v[0]);
        let rest = v.drop_first();
        assert forall|i: int| 0 <= i < rest.len() implies (#[trigger] rest[i]).spec_forward() by {
            assert(rest[i] == v[i + 1]);
        }
        lemma_add_all_keeps_order(spec_add(sels, v[0]), rest);
        assert(seq![v[0]] + rest =~= v);
        lemma_covered_cons(v[0], rest);
        assert(covered(sels) + range_of(v[0]) + covered(rest) =~= covered(sels) + covered(v));
    }
}

proof fn lemma_absorb_len(sels: Seq<Selection>, m: Selection)
    ensures
        absorb(sels, m).0.len() <= sels.len(),
    decreases sels.len(),
{
    if sels.len() > 0 {
        if m.spec_overlaps(sels[0]) {
            lemma_absorb_len(sels.drop_first(), m.spec_merge(sels[0]));
        } else {
            lemma_absorb_len(sels.drop_first(), m);
        }
    }
}

proof fn lemma_first_after_bounds(sels: Seq<Selection>, pos: int)
    ensures
        0 <= first_after(sels, pos) <= sels.len(),
    decreases sels.len(),
{
    if sels.len() > 0 && sels[0].low() <= pos {
        lemma_first_after_bounds(sels.drop_first(), pos);
    }
}

proof fn lemma_add_all_len(sels: Seq<Selection>, v: Seq<Selection>)
    ensures
        add_all(sels, v).len() <= sels.len() + v.len(),
        v.len() > 0 ==> add_all(sels, v).len() >= 1,
        v.len() == 0 ==> add_all(sels, v).len() == sels.len(),
    decreases v.len(),
{
    if v.len() > 0 {
        let r = absorb(sels, v[0]);
        lemma_absorb_len(sels, v[0]);
        lemma_first_after_bounds(r.0, r.1.low());
        let next = spec_add(sels, v[0]);
        assert(next.len() == r.0.len() + 1);
        lemma_add_all_len(next, v.drop_first());
    }
}

/// A set built by `from_vec` has no more selections than it was given, and
/// none only when it was given none.
pub proof fn lemma_from_vec_len(v: Seq<Selection>)
    ensures
        add_all(Seq::empty(), v).len() <= v.len(),
        (add_all(Seq::empty(), v).len() == 0) == (v.len() == 0),
{
    lemma_add_all_len(Seq::empty(), v);
}

/// A set built with `from_vec` from forward selections is well-ordered and
/// covers exactly the offsets that the given selections cover.
pub proof fn lemma_from_vec_well_ordered(v: Seq<Selection>)
    requires
        forall|i: int| 0 <= i < v.len() ==> (#[trigger] v[i]).spec_forward(),
    ensures
        well_ordered(add_all(Seq::empty(), v)),
        covered(add_all(Seq::empty(), v)) == covered(v),
{
    lemma_add_all_keeps_order(Seq::empty(), v);
    lemma_covered_empty();
    assert(Set::<int>::empty() + covered(v) =~= covered(v));
}


/// Every head and anchor of `sels` is at most `len`.
pub open spec fn within(sels: Seq<Selection>, len: int) -> bool {
    forall|i: int|
        0 <= i < sels.len() ==> (#[trigger] sels[i]).spec_head() <= len && sels[i].spec_anchor() <= len
}

proof fn lemma_absorb_within(sels: Seq<Selection>, m: Selection, len: int)
    requires
        within(sels, len),
        m.spec_head() <= len,
        m.spec_anchor() <= len,
    ensures
        within(absorb(sels, m).0, len),
        absorb(sels, m).1.spec_head() <= len,
        absorb(sels, m).1.spec_anchor() <= len,
    decreases sels.len(),
{
    if sels.len() > 0 {
        let rest = sels.drop_first();
        assert(within(rest, len)) by {
            assert forall|i: int| 0 <= i < rest.len() implies (#[trigger] rest[i]).spec_head() <= len
                && rest[i].spec_anchor() <= len by {
                assert(rest[i] == sels[i + 1]);
            }
        }
        assert(sels[0].spec_head() <= len && sels[0].spec_anchor() <= len);
        if m.spec_overlaps(sels[0]) {
            let o = sels[0];
            let mm = m.spec_merge(o);
            let a = if m.spec_anchor() <= o.spec_anchor() { m.spec_anchor() } else { o.spec_anchor() };
            let h = if m.spec_head() >= o.spec_head() { m.spec_head() } else { o.spec_head() };
            crate::selection::cursor::lemma_make_fields(a, h);
            assert(mm == make(a, h));
            assert(mm.spec_head() <= len && mm.spec_anchor() <= len);
            lemma_absorb_within(rest, mm, len);
        } else {
            lemma_absorb_within(rest, m, len);
            let r = absorb(rest, m);
            let out = seq![sels[0]] + r.0;
            assert forall|i: int| 0 <= i < out.len() implies (#[trigger] out[i]).spec_head() <= len
                && out[i].spec_anchor() <= len by {
                if i > 0 {
                    assert(out[i] == r.0[i - 1]);
                }
            }
        }
    }
}

/// Adding selections whose heads and anchors are at most `len` to such a
/// set keeps them so, and leaves at least one selection once any was added.
pub proof fn lemma_add_all_within(sels: Seq<Selection>, v: Seq<Selection>, len: int)
    requires
        within(sels, len),
        within(v, len),
    ensures
        within(add_all(sels, v), len),
        sels.len() > 0 || v.len() > 0 ==> add_all(sels, v).len() > 0,
    decreases v.len(),
{
    if v.len() > 0 {
        assert(v[0].spec_head() <= len && v[0].spec_anchor() <= len);
        lemma_absorb_within(sels, v[0], len);
        let r = absorb(sels, v[0]);
        let added = spec_add(sels, v[0]);
        let at = first_after(r.0, r.1.low());
        lemma_first_after_range(r.0, r.1.low());
        assert forall|i: int| 0 <= i < added.len() implies (#[trigger] added[i]).spec_head() <= len
            && added[i].spec_anchor() <= len by {
            if i < at {
                assert(added[i] == r.0[i]);
            } else if i > at {
                assert(added[i] == r.0[i - 1]);
            }
        }
        let rest = v.drop_first();
        assert(within(rest, len)) by {
            assert forall|i: int| 0 <= i < rest.len() implies (#[trigger] rest[i]).spec_head() <= len
                && rest[i].spec_anchor() <= len by {
                assert(rest[i] == v[i + 1]);
            }
        }
        lemma_add_all_within(added, rest, len);
    }
}

proof fn lemma_first_after_range(k: Seq<Selection>, pos: int)
    ensures
        0 <= first_after(k, pos) <= k.len(),
    decreases k.len(),
{
    if k.len() > 0 && k[0].low() <= pos {
        lemma_first_after_range(k.drop_first(), pos);
    }
}

} // verus!
