//! A single selection. Direction is implicit: `head < anchor` is backward.
//! Ranges are inclusive: a selection with `anchor == head` covers one position.

use vstd::prelude::*;

verus! {

#[derive(PartialEq, Eq, Structural, Debug, Clone, Copy)]
pub struct Selection {
    head: usize,
    anchor: usize,
}

/// The selection with the given anchor and head.
pub closed spec fn make(anchor: usize, head: usize) -> Selection {
    Selection { head, anchor }
}

impl Selection {
    /// Where the cursor is (a byte offset).
    pub closed spec fn spec_head(self) -> usize {
        self.head
    }

    /// Where the selection started (a byte offset).
    pub closed spec fn spec_anchor(self) -> usize {
        self.anchor
    }

    /// Lowest offset the selection covers.
    pub open spec fn low(self) -> int {
        if self.spec_anchor() <= self.spec_head() {
            self.spec_anchor() as int
        } else {
            self.spec_head() as int
        }
    }

    /// Highest offset the selection covers.
    pub open spec fn high(self) -> int {
        if self.spec_anchor() <= self.spec_head() {
            self.spec_head() as int
        } else {
            self.spec_anchor() as int
        }
    }

    /// The inclusive ranges of two selections share a position.
    pub open spec fn spec_overlaps(self, other: Selection) -> bool {
        self.low() <= other.high() && other.low() <= self.high()
    }

    /// A merge keeps the lower anchor and the higher head.
    pub open spec fn spec_merge(self, other: Selection) -> Selection {
        make(
            if self.spec_anchor() <= other.spec_anchor() {
                self.spec_anchor()
            } else {
                other.spec_anchor()
            },
            if self.spec_head() >= other.spec_head() {
                self.spec_head()
            } else {
                other.spec_head()
            },
        )
    }

    /// A forward selection: the anchor does not come after the head.
    pub open spec fn spec_forward(self) -> bool {
        self.spec_anchor() <= self.spec_head()
    }

    /// Offset `p` lies in the selection's inclusive range.
    pub open spec fn covers(self, p: int) -> bool {
        self.low() <= p <= self.high()
    }
}

/// A selection is determined by its anchor and head.
pub broadcast proof fn lemma_make_fields(anchor: usize, head: usize)
    ensures
        #[trigger] make(anchor, head).spec_anchor() == anchor,
        make(anchor, head).spec_head() == head,
{
}

/// Every selection is the one made from its own anchor and head.
pub broadcast proof fn lemma_make_eta(s: Selection)
    ensures
        make(#[trigger] s.spec_anchor(), s.spec_head()) == s,
{
}

pub broadcast group group_selection {
    lemma_make_fields,
    lemma_make_eta,
}

impl Selection {
    pub fn overlaps(&self, other: &Selection) -> (b: bool)
        ensures
            b == self.spec_overlaps(*other),
    {
        let a_start = if self.anchor <= self.head { self.anchor } else { self.head };
        let a_end = if self.anchor >= self.head { self.anchor } else { self.head };
        let b_start = if other.anchor <= other.head { other.anchor } else { other.head };
        let b_end = if other.anchor >= other.head { other.anchor } else { other.head };
        a_start <= b_end && b_start <= a_end
    }

    pub fn merge(&self, other: &Selection) -> (m: Selection)
        ensures
            m == self.spec_merge(*other),
    {
        Selection::new(
            if self.anchor <= other.anchor { self.anchor } else { other.anchor },
            if self.head >= other.head { self.head } else { other.head },
        )
    }

    pub fn new(anchor: usize, head: usize) -> (s: Selection)
        ensures
            s == make(anchor, head),
    {
        Selection { anchor, head }
    }

    pub fn head(&self) -> (h: usize)
        ensures
            h == self.spec_head(),
    {
        self.head
    }

    pub fn anchor(&self) -> (a: usize)
        ensures
            a == self.spec_anchor(),
    {
        self.anchor
    }

    pub fn is_empty(&self) -> (b: bool)
        ensures
            b == (self.spec_anchor() == self.spec_head()),
    {
        self.anchor == self.head
    }

    pub fn is_forward(&self) -> (b: bool)
        ensures
            b == (self.spec_anchor() <= self.spec_head()),
    {
        self.anchor <= self.head
    }

    pub fn is_backward(&self) -> (b: bool)
        ensures
            b == (self.spec_anchor() >= self.spec_head()),
    {
        self.anchor >= self.head
    }

    /// Moves the cursor to `offset`, collapsing the selection there.
    pub fn move_head(&mut self, offset: usize)
        ensures
            *final(self) == make(offset, offset),
    {
        self.head = offset;
        self.anchor = offset;
    }

    /// Moves the head to `offset`, keeping the anchor.
    pub fn extend(&mut self, offset: usize)
        ensures
            *final(self) == make(old(self).spec_anchor(), offset),
    {
        self.head = offset
    }

    /// Swaps head and anchor.
    pub fn flip(&mut self)
        ensures
            *final(self) == make(old(self).spec_head(), old(self).spec_anchor()),
    {
        let h = self.head;
        self.head = self.anchor;
        self.anchor = h;
    }

    /// A collapsed selection at `offset`.
    pub fn cursor(offset: usize) -> (s: Selection)
        ensures
            s == make(offset, offset),
    {
        Selection { head: offset, anchor: offset }
    }
}

} // verus!
