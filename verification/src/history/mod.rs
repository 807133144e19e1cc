//! A branching undo tree. Each node holds the transaction that led to it;
//! undo reverses the current node's transaction and moves to its parent,
//! redo moves to the newest child and applies its transaction. A pure insert
//! recorded within the merge window right after another insert is merged
//! into that insert's node, so consecutive typing undoes as one step.

use std::time::{Duration, Instant};
use vstd::prelude::*;
use vstd::utf8::*;
use vstd::string::*;
use crate::buffer::{Buffer, GapBuffer};
use crate::command::{
    Transaction, EditModel, apply_all, unapply_all, edits_fit, can_coalesce, coalesced,
    copy_selections, lemma_unapply_undoes_apply, lemma_coalesced_fits, lemma_applied_text,
};
use crate::selection::{Selection, SelectionSet};
use crate::selection::selection_set::fits_text;

verus! {

#[verifier::external_type_specification]
#[verifier::external_body]
pub struct ExInstant(Instant);

/// `Instant::now` reads the monotonic clock; nothing is promised of it.
pub assume_specification[ Instant::now ]() -> Instant;

/// `Instant::duration_since` measures between two readings of the clock;
/// nothing is promised of the result.
pub assume_specification[ Instant::duration_since ](t: &Instant, earlier: Instant) -> Duration;

/// `Duration::as_nanos` gives the whole duration in nanoseconds; this
/// library states nothing of the value, which comes from the clock.
pub assume_specification[ Duration::as_nanos ](d: &Duration) -> u128;

/// An insert recorded no later than this after the previous one is merged
/// into it.
pub const MERGE_WINDOW_NANOS: u128 = 200_000_000;

#[derive(Clone, Copy, Debug, PartialEq, Eq, Structural)]
pub enum MergeKey {
    Insert,
    Other,
}

struct Node {
    parent: Option<usize>,
    children: Vec<usize>,
    transaction: Option<Transaction>,
    prior_selections: Option<SelectionSet>,
    merge_key: Option<MergeKey>,
    recorded_at: Option<Instant>,
}

pub struct History {
    current: usize,
    nodes: Vec<Node>,
    /// The text at each node.
    contents: Ghost<Seq<Seq<u8>>>,
    /// The text each node's transaction was recorded against.
    bases: Ghost<Seq<Seq<u8>>>,
}

impl History {
    pub closed spec fn node_count(&self) -> int {
        self.nodes@.len() as int
    }

    pub closed spec fn current_index(&self) -> int {
        self.current as int
    }

    /// Index of the parent of node `i` (-1 for the root).
    pub closed spec fn parent_at(&self, i: int) -> int {
        match self.nodes@[i].parent {
            Some(p) => p as int,
            None => -1,
        }
    }

    pub closed spec fn has_transaction(&self, i: int) -> bool {
        self.nodes@[i].transaction is Some
    }

    pub closed spec fn has_prior(&self, i: int) -> bool {
        self.nodes@[i].prior_selections is Some
    }

    pub closed spec fn edits_at(&self, i: int) -> Seq<EditModel> {
        self.nodes@[i].transaction->Some_0.edit_models()
    }

    /// Selections before node `i`'s transaction.
    pub closed spec fn prior_at(&self, i: int) -> (usize, Seq<Selection>) {
        self.nodes@[i].prior_selections->Some_0@
    }

    /// Selections after node `i`'s transaction.
    pub closed spec fn after_at(&self, i: int) -> (usize, Seq<Selection>) {
        self.nodes@[i].transaction->Some_0.spec_new_selections()@
    }

    pub closed spec fn key_at(&self, i: int) -> Option<MergeKey> {
        self.nodes@[i].merge_key
    }

    pub closed spec fn children_at(&self, i: int) -> Seq<usize> {
        self.nodes@[i].children@
    }

    /// The text at node `i`.
    pub closed spec fn content_at(&self, i: int) -> Seq<u8> {
        self.contents@[i]
    }

    /// The text node `i`'s transaction was recorded against.
    pub closed spec fn base_at(&self, i: int) -> Seq<u8> {
        self.bases@[i]
    }

    /// Nothing recorded yet.
    pub open spec fn is_fresh(&self) -> bool {
        self.node_count() == 1 && self.current_index() == 0
    }

    /// Node `i` was recorded against the text its parent holds now.
    pub open spec fn linked(&self, i: int) -> bool {
        self.base_at(i) == self.content_at(self.parent_at(i))
    }

    /// Node `i` and all its ancestors are linked, and each of them is the
    /// newest child of its parent.
    pub open spec fn path_linked(&self, i: int) -> bool
        decreases i,
    {
        if i <= 0 {
            true
        } else if 0 <= self.parent_at(i) < i {
            &&& self.linked(i)
            &&& self.children_at(self.parent_at(i)).len() > 0
            &&& self.children_at(self.parent_at(i)).last() == i
            &&& self.path_linked(self.parent_at(i))
        } else {
            false
        }
    }

    /// Every child index names a node whose parent is the node listing it.
    pub closed spec fn tree_ok(&self) -> bool {
        forall|i: int, k: int|
            0 <= i < self.nodes@.len() && 0 <= k < self.nodes@[i].children@.len() ==> {
                let c = #[trigger] self.nodes@[i].children@[k];
                &&& c < self.nodes@.len()
                &&& self.parent_at(c as int) == i
            }
    }

    /// The history describes the text `b`.
    pub open spec fn at_text(&self, b: Seq<u8>) -> bool {
        self.is_fresh() || self.content_at(self.current_index()) == b
    }

    pub open spec fn node_ok(&self, i: int) -> bool {
        &&& 0 <= self.parent_at(i) < i
        &&& self.has_transaction(i)
        &&& self.has_prior(i)
        &&& self.key_at(i) is Some
        &&& edits_fit(self.base_at(i), self.edits_at(i))
        &&& self.content_at(i) == apply_all(self.base_at(i), self.edits_at(i))
    }

    /// The selections recorded with step `i` lie within the texts before and
    /// after it.
    pub open spec fn step_sels_fit(&self, i: int) -> bool {
        &&& fits_text(self.prior_at(i), self.base_at(i).len() as int)
        &&& fits_text(self.after_at(i), self.content_at(i).len() as int)
    }

    /// The selections recorded with every step lie within the texts before
    /// and after it.
    pub open spec fn sels_fit(&self) -> bool {
        forall|i: int| 0 < i < self.node_count() ==> #[trigger] self.step_sels_fit(i)
    }

    pub closed spec fn wf(&self) -> bool {
        &&& self.nodes@.len() >= 1
        &&& self.current < self.nodes@.len()
        &&& self.contents@.len() == self.nodes@.len()
        &&& self.bases@.len() == self.nodes@.len()
        &&& self.nodes@[0].parent is None
        &&& self.nodes@[0].transaction is None
        &&& forall|i: int|
            0 <= i < self.nodes@.len() ==> valid_utf8(#[trigger] self.contents@[i])
                && self.contents@[i].len() <= usize::MAX
        &&& forall|i: int| 0 < i < self.nodes@.len() ==> #[trigger] self.node_ok(i)
        &&& forall|i: int|
            0 <= i < self.nodes@.len() ==> #[trigger] self.nodes@[i].recorded_at is Some || i == 0
        &&& self.tree_ok()
        &&& self.path_linked(self.current as int)
    }
}


/// Node `i` is the same in both histories.
pub open spec fn same_node(a: History, b: History, i: int) -> bool {
    &&& a.parent_at(i) == b.parent_at(i)
    &&& a.has_transaction(i) == b.has_transaction(i)
    &&& a.has_prior(i) == b.has_prior(i)
    &&& a.edits_at(i) == b.edits_at(i)
    &&& a.prior_at(i) == b.prior_at(i)
    &&& a.after_at(i) == b.after_at(i)
    &&& a.key_at(i) == b.key_at(i)
    &&& a.children_at(i) == b.children_at(i)
    &&& a.content_at(i) == b.content_at(i)
    &&& a.base_at(i) == b.base_at(i)
}

/// Same nodes; the current node may differ.
pub open spec fn same_nodes(a: History, b: History) -> bool {
    &&& a.node_count() == b.node_count()
    &&& forall|i: int| 0 <= i < a.node_count() ==> #[trigger] same_node(a, b, i)
}

/// Recording `edits` can merge into the current node (if the clock allows).
pub open spec fn merge_possible(h: History, edits: Seq<EditModel>, key: MergeKey) -> bool {
    &&& key == MergeKey::Insert
    &&& h.has_transaction(h.current_index())
    &&& h.key_at(h.current_index()) == Some(MergeKey::Insert)
    &&& can_coalesce(h.edits_at(h.current_index()), edits)
}

/// An insert recorded `waited` nanoseconds after the current node merges
/// into it: the wait is known and within the merge window, and a merge is
/// possible.
pub open spec fn merges_after(h: History, edits: Seq<EditModel>, key: MergeKey, waited: Option<u128>) -> bool {
    &&& waited matches Some(w) && w <= MERGE_WINDOW_NANOS
    &&& merge_possible(h, edits, key)
}

/// `record` added a new child of the old current node and moved to it.
pub open spec fn recorded_as_child(
    old: History,
    new: History,
    b0: Seq<u8>,
    edits: Seq<EditModel>,
    prior: (usize, Seq<Selection>),
    after: (usize, Seq<Selection>),
    key: MergeKey,
) -> bool {
    let n = old.node_count();
    let c = old.current_index();
    &&& new.node_count() == n + 1
    &&& new.current_index() == n
    &&& new.parent_at(n) == c
    &&& new.has_transaction(n)
    &&& new.has_prior(n)
    &&& new.edits_at(n) == edits
    &&& new.prior_at(n) == prior
    &&& new.after_at(n) == after
    &&& new.key_at(n) == Some(key)
    &&& new.children_at(n).len() == 0
    &&& new.base_at(n) == b0
    &&& new.content_at(n) == apply_all(b0, edits)
    &&& forall|i: int| 0 <= i < n && i != c ==> #[trigger] same_node(old, new, i)
    &&& new.children_at(c) == old.children_at(c).push(n as usize)
    &&& new.parent_at(c) == old.parent_at(c)
    &&& new.has_transaction(c) == old.has_transaction(c)
    &&& new.has_prior(c) == old.has_prior(c)
    &&& new.edits_at(c) == old.edits_at(c)
    &&& new.prior_at(c) == old.prior_at(c)
    &&& new.after_at(c) == old.after_at(c)
    &&& new.key_at(c) == old.key_at(c)
    &&& new.base_at(c) == old.base_at(c)
    &&& (old.is_fresh() || new.content_at(c) == old.content_at(c))
}

/// `record` merged the insert into the current node.
pub open spec fn recorded_as_merge(
    old: History,
    new: History,
    b0: Seq<u8>,
    edits: Seq<EditModel>,
    after: (usize, Seq<Selection>),
    key: MergeKey,
) -> bool {
    let c = old.current_index();
    &&& merge_possible(old, edits, key)
    &&& new.node_count() == old.node_count()
    &&& new.current_index() == c
    &&& new.edits_at(c) == seq![coalesced(old.edits_at(c)[0], edits[0])]
    &&& new.after_at(c) == after
    &&& new.content_at(c) == apply_all(b0, edits)
    &&& new.parent_at(c) == old.parent_at(c)
    &&& new.has_transaction(c)
    &&& new.has_prior(c) == old.has_prior(c)
    &&& new.prior_at(c) == old.prior_at(c)
    &&& new.key_at(c) == old.key_at(c)
    &&& new.children_at(c) == old.children_at(c)
    &&& new.base_at(c) == old.base_at(c)
    &&& forall|i: int| 0 <= i < old.node_count() && i != c ==> #[trigger] same_node(old, new, i)
}

/// The whole effect of `record` on the history.
pub open spec fn record_post(
    old: History,
    new: History,
    b0: Seq<u8>,
    edits: Seq<EditModel>,
    prior: (usize, Seq<Selection>),
    after: (usize, Seq<Selection>),
    key: MergeKey,
) -> bool {
    &&& new.wf()
    &&& new.at_text(apply_all(b0, edits))
    &&& !new.is_fresh()
    &&& (recorded_as_child(old, new, b0, edits, prior, after, key) || recorded_as_merge(
        old,
        new,
        b0,
        edits,
        after,
        key,
    ))
    &&& (!merge_possible(old, edits, key) ==> recorded_as_child(
        old,
        new,
        b0,
        edits,
        prior,
        after,
        key,
    ))
}

/// The whole effect of `undo`.
pub open spec fn undo_post(
    old: History,
    new: History,
    b0: Seq<u8>,
    b1: Seq<u8>,
    r: Option<(usize, Seq<Selection>)>,
) -> bool {
    let c = old.current_index();
    &&& new.wf()
    &&& same_nodes(old, new)
    &&& new.is_fresh() == old.is_fresh()
    &&& new.at_text(b1)
    &&& if old.has_transaction(c) {
        &&& r == Some(old.prior_at(c))
        &&& new.current_index() == old.parent_at(c)
        &&& b1 == old.base_at(c)
        &&& b1 == unapply_all(b0, old.edits_at(c))
    } else {
        &&& r is None
        &&& new.current_index() == c
        &&& b1 == b0
    }
}

/// The newest child of the current node can be replayed on the text `b`:
/// its edits fit `b`.
pub open spec fn replayable(h: History, b: Seq<u8>) -> bool {
    let c = h.current_index();
    h.children_at(c).len() > 0 ==> edits_fit(b, h.edits_at(h.children_at(c).last() as int))
}

/// The selections recorded with the newest child of the current node lie
/// within the text `b` and the text replaying it on `b` gives.
pub open spec fn replay_fits(h: History, b: Seq<u8>) -> bool {
    let c = h.current_index();
    h.children_at(c).len() > 0 ==> {
        let k = h.children_at(c).last() as int;
        &&& fits_text(h.prior_at(k), b.len() as int)
        &&& fits_text(h.after_at(k), apply_all(b, h.edits_at(k)).len() as int)
    }
}

/// Node `i` of `new` is node `i` of `old` recorded against `b` instead.
pub open spec fn rebased_node(old: History, new: History, i: int, b: Seq<u8>) -> bool {
    &&& new.parent_at(i) == old.parent_at(i)
    &&& new.has_transaction(i) == old.has_transaction(i)
    &&& new.has_prior(i) == old.has_prior(i)
    &&& new.edits_at(i) == old.edits_at(i)
    &&& new.prior_at(i) == old.prior_at(i)
    &&& new.after_at(i) == old.after_at(i)
    &&& new.key_at(i) == old.key_at(i)
    &&& new.children_at(i) == old.children_at(i)
    &&& new.base_at(i) == b
    &&& new.content_at(i) == apply_all(b, old.edits_at(i))
}

/// The whole effect of `redo`: it replays the newest child's transaction on
/// the current text and moves there; the child is then recorded against
/// that text.
pub open spec fn redo_post(
    old: History,
    new: History,
    b0: Seq<u8>,
    b1: Seq<u8>,
    r: Option<(usize, Seq<Selection>)>,
) -> bool {
    let c = old.current_index();
    &&& new.wf()
    &&& new.node_count() == old.node_count()
    &&& new.is_fresh() == old.is_fresh()
    &&& new.at_text(b1)
    &&& if old.children_at(c).len() > 0 {
        let k = old.children_at(c).last() as int;
        &&& r == Some(old.after_at(k))
        &&& new.current_index() == k
        &&& b1 == apply_all(b0, old.edits_at(k))
        &&& rebased_node(old, new, k, b0)
        &&& forall|i: int| 0 <= i < old.node_count() && i != k ==> #[trigger] same_node(old, new, i)
    } else {
        &&& r is None
        &&& new.current_index() == c
        &&& b1 == b0
        &&& same_nodes(old, new)
    }
}

/// A child recorded against the current text of its parent can be replayed.
pub proof fn lemma_linked_replayable(h: History, b: Seq<u8>)
    requires
        h.wf(),
        h.at_text(b),
        h.children_at(h.current_index()).len() > 0 ==> h.linked(h.children_at(h.current_index()).last() as int),
    ensures
        replayable(h, b),
        h.sels_fit() ==> replay_fits(h, b),
{
    let c = h.current_index();
    if h.children_at(c).len() > 0 {
        let k = h.children_at(c).last() as int;
        assert(h.children_at(c)[h.children_at(c).len() - 1] == k);
        assert(h.tree_ok());
        assert(0 <= k < h.node_count());
        assert(h.parent_at(k) == c);
        assert(k != 0);
        assert(h.node_ok(k));
        assert(!h.is_fresh());
        if h.sels_fit() {
            assert(h.step_sels_fit(k));
        }
    }
}

/// Whether node `i` and its ancestors are linked depends only on the parents,
/// bases and contents of the nodes up to `i`.
proof fn lemma_path_linked_frame(a: History, b: History, i: int)
    requires
        forall|j: int| 0 <= j <= i ==> a.parent_at(j) == b.parent_at(j) && a.base_at(j) == b.base_at(j),
        forall|j: int| 0 <= j < i ==> a.content_at(j) == b.content_at(j) && a.children_at(j) == b.children_at(j),
    ensures
        a.path_linked(i) == b.path_linked(i),
    decreases i,
{
    if i > 0 && 0 <= a.parent_at(i) < i {
        lemma_path_linked_frame(a, b, a.parent_at(i));
    }
}

proof fn lemma_tree_frame(a: History, b: History)
    requires
        a.tree_ok(),
        a.nodes@.len() == b.nodes@.len(),
        forall|i: int| 0 <= i < a.nodes@.len() ==> a.nodes@[i].parent == b.nodes@[i].parent && a.nodes@[i].children@ == b.nodes@[i].children@,
    ensures
        b.tree_ok(),
{
    assert forall|i: int, k: int|
        0 <= i < b.nodes@.len() && 0 <= k < b.nodes@[i].children@.len() implies {
            let c = #[trigger] b.nodes@[i].children@[k];
            &&& c < b.nodes@.len()
            &&& b.parent_at(c as int) == i
        } by {
        assert(a.nodes@[i].children@[k] == b.nodes@[i].children@[k]);
        let c = a.nodes@[i].children@[k];
        assert(a.nodes@[c as int].parent == b.nodes@[c as int].parent);
    }
}

impl History {
    pub fn new() -> (h: History)
        ensures
            h.wf(),
            h.is_fresh(),
            h.node_count() == 1,
            h.current_index() == 0,
            !h.has_transaction(0),
            h.children_at(0).len() == 0,
    {
        let root = Node {
            parent: None,
            children: Vec::new(),
            transaction: None,
            prior_selections: None,
            merge_key: None,
            recorded_at: None,
        };
        let h = History {
            current: 0,
            nodes: vec![root],
            contents: Ghost(Seq::<Seq<u8>>::empty().push(Seq::<u8>::empty())),
            bases: Ghost(Seq::<Seq<u8>>::empty().push(Seq::<u8>::empty())),
        };
        assert(valid_utf8(Seq::<u8>::empty()));
        h
    }

    /// There is a step to undo: the current node holds a transaction.
    pub fn can_undo(&self) -> (b: bool)
        requires
            self.wf(),
        ensures
            b == self.has_transaction(self.current_index()),
    {
        self.nodes[self.current].transaction.is_some()
    }

    /// There is a step to redo: the current node has a child.
    pub fn can_redo(&self) -> (b: bool)
        requires
            self.wf(),
        ensures
            b == (self.children_at(self.current_index()).len() > 0),
    {
        self.nodes[self.current].children.len() > 0
    }

    /// Whether the newest child of the current node can be replayed on the
    /// text of `buffer`.
    pub fn can_replay(&self, buffer: &GapBuffer) -> (b: bool)
        requires
            self.wf(),
        ensures
            b == (replayable(*self, buffer.bytes()) && replay_fits(*self, buffer.bytes())),
    {
        let ghost b0 = buffer.bytes();
        let c = self.current;
        let n = self.nodes[c].children.len();
        if n == 0 {
            return true;
        }
        let k = self.nodes[c].children[n - 1];
        proof {
            assert(self.nodes@[c as int].children@[n - 1] == k);
            assert(self.children_at(c as int).last() == k);
            assert(self.tree_ok());
            assert(self.parent_at(k as int) == c);
            assert(k != 0);
            assert(self.node_ok(k as int));
        }
        let (tx, prior) = match (&self.nodes[k].transaction, &self.nodes[k].prior_selections) {
            (Some(t), Some(p)) => (t, p),
            _ => {
                return false;
            },
        };
        proof {
            buffer.lemma_valid();
            is_char_boundary_start_end_of_seq(b0);
        }
        let len = buffer.len();
        let text = buffer.slice(0, len);
        assert(text.spec_bytes() =~= b0);
        if !tx.fits(text) || !prior.fits(len) {
            return false;
        }
        let mut replayed = GapBuffer::new(text);
        proof {
            lemma_unapply_undoes_apply(b0, tx.edit_models());
            lemma_applied_text(b0, tx.edit_models());
        }
        tx.apply(&mut replayed);
        let after_len = replayed.len();
        tx.new_selections().fits(after_len)
    }

    /// The merge of `transaction` into the current node when the current
    /// node was recorded `waited` nanoseconds ago: the coalesced transaction
    /// exactly when the wait is within the merge window, the current node
    /// holds an insert, and `transaction` is a pure insert right after its
    /// new text.
    pub fn merge_within(&self, transaction: &Transaction, waited: u128) -> (r: Option<Transaction>)
        requires
            self.wf(),
        ensures
            r is Some <==> (waited <= MERGE_WINDOW_NANOS && merge_possible(
                *self,
                transaction.edit_models(),
                MergeKey::Insert,
            )),
            r matches Some(t) ==> {
                &&& t.edit_models() == seq![
                    coalesced(
                        self.edits_at(self.current_index())[0],
                        transaction.edit_models()[0],
                    ),
                ]
                &&& t.spec_new_selections()@ == transaction.spec_new_selections()@
            },
    {
        if waited > MERGE_WINDOW_NANOS {
            return None;
        }
        let node = &self.nodes[self.current];
        match node.merge_key {
            Some(MergeKey::Insert) => {},
            _ => return None,
        }
        let existing = match &node.transaction {
            Some(t) => t,
            None => return None,
        };
        existing.coalesce_insert(transaction)
    }

    /// Applies `transaction` to `buffer` and records it: merged into the
    /// current node when it continues an insert recorded within the merge
    /// window, otherwise as a new child that becomes current. The time since
    /// the current node was recorded is read from the clock for an insert.
    pub fn record(
        &mut self,
        transaction: Transaction,
        buffer: &mut GapBuffer,
        prior_selections: SelectionSet,
        merge_key: MergeKey,
    )
        requires
            old(self).wf(),
            old(self).at_text(old(buffer).bytes()),
            edits_fit(old(buffer).bytes(), transaction.edit_models()),
        ensures
            final(buffer).bytes() == apply_all(old(buffer).bytes(), transaction.edit_models()),
            old(self).sels_fit() && fits_text(prior_selections@, old(buffer).bytes().len() as int)
                && fits_text(
                transaction.spec_new_selections()@,
                apply_all(old(buffer).bytes(), transaction.edit_models()).len() as int,
            ) ==> final(self).sels_fit(),
            record_post(
                *old(self),
                *final(self),
                old(buffer).bytes(),
                transaction.edit_models(),
                prior_selections@,
                transaction.spec_new_selections()@,
                merge_key,
            ),
    {
        let waited: Option<u128> = if merge_key == MergeKey::Insert {
            match self.nodes[self.current].recorded_at {
                Some(t) => Some(Instant::now().duration_since(t).as_nanos()),
                None => None,
            }
        } else {
            None
        };
        self.record_waited(transaction, buffer, prior_selections, merge_key, waited);
    }

    /// `record` for a current node recorded `waited` nanoseconds ago (`None`
    /// when no time is known): the insert is merged into the current node
    /// exactly when the wait is within the merge window and a merge is
    /// possible; otherwise it becomes a new child that becomes current.
    pub fn record_waited(
        &mut self,
        transaction: Transaction,
        buffer: &mut GapBuffer,
        prior_selections: SelectionSet,
        merge_key: MergeKey,
        waited: Option<u128>,
    )
        requires
            old(self).wf(),
            old(self).at_text(old(buffer).bytes()),
            edits_fit(old(buffer).bytes(), transaction.edit_models()),
        ensures
            final(buffer).bytes() == apply_all(old(buffer).bytes(), transaction.edit_models()),
            old(self).sels_fit() && fits_text(prior_selections@, old(buffer).bytes().len() as int)
                && fits_text(
                transaction.spec_new_selections()@,
                apply_all(old(buffer).bytes(), transaction.edit_models()).len() as int,
            ) ==> final(self).sels_fit(),
            record_post(
                *old(self),
                *final(self),
                old(buffer).bytes(),
                transaction.edit_models(),
                prior_selections@,
                transaction.spec_new_selections()@,
                merge_key,
            ),
            merges_after(*old(self), transaction.edit_models(), merge_key, waited) ==> recorded_as_merge(
                *old(self),
                *final(self),
                old(buffer).bytes(),
                transaction.edit_models(),
                transaction.spec_new_selections()@,
                merge_key,
            ),
            !merges_after(*old(self), transaction.edit_models(), merge_key, waited) ==> recorded_as_child(
                *old(self),
                *final(self),
                old(buffer).bytes(),
                transaction.edit_models(),
                prior_selections@,
                transaction.spec_new_selections()@,
                merge_key,
            ),
    {
        let ghost b0 = buffer.bytes();
        let ghost es = transaction.edit_models();
        let ghost h0 = *self;
        if self.nodes.len() == 1 {
            self.contents = Ghost(Seq::<Seq<u8>>::empty().push(b0));
        }
        let ghost h1 = *self;
        proof {
            lemma_unapply_undoes_apply(b0, es);
            lemma_applied_text(b0, es);
            if h0.nodes@.len() == 1 {
                assert(h1.contents@[0] == b0);
                assert(h1.wf());
            } else {
                assert(h1 == h0);
            }
        }
        transaction.apply(buffer);
        let ghost b1 = buffer.bytes();
        let merged_tx = match waited {
            Some(w) => {
                if merge_key == MergeKey::Insert {
                    self.merge_within(&transaction, w)
                } else {
                    None
                }
            },
            None => None,
        };
        match merged_tx {
            Some(merged) => {
                let idx = self.current;
                let ghost c = idx as int;
                proof {
                    assert(h1.node_ok(c));
                    lemma_coalesced_fits(h1.base_at(c), h1.edits_at(c), es);
                }
                self.nodes[idx].transaction = Some(merged);
                self.nodes[idx].recorded_at = Some(Instant::now());
                self.contents = Ghost(self.contents@.update(c, b1));
                proof {
                    let h2 = *self;
                    assert(h2.node_ok(c));
                    assert forall|i: int| 0 < i < h2.nodes@.len() && i != c implies #[trigger] h2.node_ok(i) by {
                        assert(h1.node_ok(i));
                        assert(same_node(h1, h2, i));
                    }
                    assert forall|i: int| 0 <= i < h1.node_count() && i != c implies #[trigger] same_node(h0, h2, i) by {
                        assert(same_node(h1, h2, i));
                    }
                    lemma_path_linked_frame(h1, h2, c);
                    assert forall|i: int| 0 <= i < h2.nodes@.len() implies valid_utf8(#[trigger] h2.contents@[i])
                        && h2.contents@[i].len() <= usize::MAX by {
                        if i != c {
                            assert(h1.contents@[i] == h2.contents@[i]);
                        }
                    }
                    lemma_tree_frame(h1, h2);
                    assert(h2.wf());
                    if h0.sels_fit() && fits_text(transaction.spec_new_selections()@, b1.len() as int) {
                        assert forall|i: int| 0 < i < h2.node_count() implies #[trigger] h2.step_sels_fit(i) by {
                            if i != c {
                                assert(h0.step_sels_fit(i));
                                assert(same_node(h1, h2, i));
                            } else {
                                assert(h0.step_sels_fit(c));
                            }
                        }
                    }
                    assert(h2.at_text(b1));
                    assert(recorded_as_merge(h0, h2, b0, es, transaction.spec_new_selections()@, merge_key));
                }
                return;
            },
            None => {},
        }
        let cur = self.current;
        let child = Node {
            parent: Some(cur),
            children: Vec::new(),
            transaction: Some(transaction),
            prior_selections: Some(prior_selections),
            merge_key: Some(merge_key),
            recorded_at: Some(Instant::now()),
        };
        let child_index = self.nodes.len();
        self.nodes.push(child);
        self.nodes[cur].children.push(child_index);
        self.current = child_index;
        self.contents = Ghost(self.contents@.push(b1));
        self.bases = Ghost(self.bases@.push(b0));
        proof {
            let h2 = *self;
            let n = child_index as int;
            assert(h2.parent_at(n) == cur);
            assert(h2.node_ok(n));
            assert forall|i: int| 0 < i < h2.nodes@.len() implies #[trigger] h2.node_ok(i) by {
                if i != n {
                    assert(h1.node_ok(i));
                    if i != cur {
                        assert(same_node(h1, h2, i));
                    }
                }
            }
            assert forall|i: int| 0 <= i < n && i != cur implies #[trigger] same_node(h0, h2, i) by {
                assert(same_node(h1, h2, i));
            }
            lemma_path_linked_frame(h1, h2, cur as int);
            assert(h2.path_linked(n));
            assert forall|i: int| 0 <= i < h2.nodes@.len() implies valid_utf8(#[trigger] h2.contents@[i])
                && h2.contents@[i].len() <= usize::MAX by {
                if i != n {
                    assert(h1.contents@[i] == h2.contents@[i]);
                }
            }
            assert forall|i: int, k: int|
                0 <= i < h2.nodes@.len() && 0 <= k < h2.nodes@[i].children@.len() implies {
                    let c = #[trigger] h2.nodes@[i].children@[k];
                    &&& c < h2.nodes@.len()
                    &&& h2.parent_at(c as int) == i
                } by {
                if i != n && !(i == cur && k == h1.nodes@[i].children@.len()) {
                    assert(h2.nodes@[i].children@[k] == h1.nodes@[i].children@[k]);
                }
            }
            assert(h2.tree_ok());
            assert(h2.wf());
            if h0.sels_fit() && fits_text(prior_selections@, b0.len() as int) && fits_text(
                transaction.spec_new_selections()@,
                b1.len() as int,
            ) {
                assert forall|i: int| 0 < i < h2.node_count() implies #[trigger] h2.step_sels_fit(i) by {
                    if i != n {
                        assert(h0.step_sels_fit(i));
                        if i != cur {
                            assert(same_node(h1, h2, i));
                        }
                    }
                }
            }
            assert(h2.at_text(b1));
            assert(recorded_as_child(h0, h2, b0, es, prior_selections@, transaction.spec_new_selections()@, merge_key));
        }
    }

    /// Reverses the current node's transaction and moves to its parent,
    /// returning the selections from before that transaction. Does nothing
    /// at the root.
    pub fn undo(&mut self, buffer: &mut GapBuffer) -> (r: Option<SelectionSet>)
        requires
            old(self).wf(),
            old(self).at_text(old(buffer).bytes()),
        ensures
            old(self).sels_fit() ==> final(self).sels_fit(),
            undo_post(
                *old(self),
                *final(self),
                old(buffer).bytes(),
                final(buffer).bytes(),
                match r {
                    Some(s) => Some(s@),
                    None => None,
                },
            ),
    {
        let idx = self.current;
        let ghost h0 = *self;
        let ghost b0 = buffer.bytes();
        let tx = match &self.nodes[idx].transaction {
            Some(t) => t,
            None => {
                proof {
                    assert forall|i: int| 0 <= i < h0.node_count() implies #[trigger] same_node(h0, h0, i) by {}
                }
                return None;
            },
        };
        proof {
            assert(h0.node_ok(idx as int));
            lemma_unapply_undoes_apply(h0.base_at(idx as int), h0.edits_at(idx as int));
        }
        tx.unapply(buffer);
        let restored = match &self.nodes[idx].prior_selections {
            Some(s) => Some(copy_selections(s)),
            None => None,
        };
        self.current = self.nodes[idx].parent.unwrap();
        proof {
            let h1 = *self;
            assert forall|i: int| 0 <= i < h0.node_count() implies #[trigger] same_node(h0, h1, i) by {}
            assert forall|i: int| 0 < i < h1.nodes@.len() implies #[trigger] h1.node_ok(i) by {
                assert(h0.node_ok(i));
            }
            let p = h0.parent_at(idx as int);
            lemma_tree_frame(h0, h1);
            lemma_path_linked_frame(h0, h1, idx as int);
            if p != 0 {
                assert(h0.node_ok(p));
                assert(0 <= h0.parent_at(p) < p);
            }
        }
        proof {
            let h1 = *self;
            let c = idx as int;
            assert(h1.wf());
            assert(same_nodes(h0, h1));
            assert(h0.linked(c));
            assert(h1.current_index() == h0.parent_at(c));
            assert(buffer.bytes() == h0.base_at(c));
            assert(h1.at_text(buffer.bytes()));
            assert(buffer.bytes() == unapply_all(b0, h0.edits_at(c)));
            if h0.sels_fit() {
                assert forall|i: int| 0 < i < h1.node_count() implies #[trigger] h1.step_sels_fit(i) by {
                    assert(h0.step_sels_fit(i));
                    assert(same_node(h0, h1, i));
                }
            }
        }
        restored
    }

    /// Moves to the newest child of the current node and applies its
    /// transaction, returning the selections after it. Does nothing when the
    /// current node has no children.
    pub fn redo(&mut self, buffer: &mut GapBuffer) -> (r: Option<SelectionSet>)
        requires
            old(self).wf(),
            old(self).at_text(old(buffer).bytes()),
            replayable(*old(self), old(buffer).bytes()),
        ensures
            old(self).sels_fit() && replay_fits(*old(self), old(buffer).bytes()) ==> final(self).sels_fit(),
            redo_post(
                *old(self),
                *final(self),
                old(buffer).bytes(),
                final(buffer).bytes(),
                match r {
                    Some(s) => Some(s@),
                    None => None,
                },
            ),
    {
        let idx = self.current;
        let ghost h0 = *self;
        let ghost b0 = buffer.bytes();
        let n = self.nodes[idx].children.len();
        if n == 0 {
            proof {
                assert forall|i: int| 0 <= i < h0.node_count() implies #[trigger] same_node(h0, h0, i) by {}
            }
            return None;
        }
        let child_idx = self.nodes[idx].children[n - 1];
        proof {
            assert(h0.nodes@[idx as int].children@[n - 1] == child_idx);
            assert(h0.children_at(idx as int).last() == child_idx);
            assert(h0.tree_ok());
            assert(h0.parent_at(child_idx as int) == idx);
            assert(child_idx != 0);
            assert(h0.node_ok(child_idx as int));
            assert(!h0.is_fresh());
            lemma_unapply_undoes_apply(b0, h0.edits_at(child_idx as int));
            lemma_applied_text(b0, h0.edits_at(child_idx as int));
        }
        self.current = child_idx;
        let tx = match &self.nodes[child_idx].transaction {
            Some(t) => t,
            None => return None,
        };
        tx.apply(buffer);
        let restored = copy_selections(tx.new_selections());
        let ghost b1 = buffer.bytes();
        proof {
            self.contents@ = self.contents@.update(child_idx as int, b1);
            self.bases@ = self.bases@.update(child_idx as int, b0);
        }
        proof {
            let h1 = *self;
            let k = child_idx as int;
            assert forall|i: int| 0 <= i < h0.node_count() && i != k implies #[trigger] same_node(h0, h1, i) by {}
            assert(rebased_node(h0, h1, k, b0));
            assert forall|i: int| 0 < i < h1.nodes@.len() implies #[trigger] h1.node_ok(i) by {
                assert(h0.node_ok(i));
            }
            assert forall|i: int| 0 <= i < h1.nodes@.len() implies valid_utf8(#[trigger] h1.contents@[i])
                && h1.contents@[i].len() <= usize::MAX by {
                if i != k {
                    assert(h1.contents@[i] == h0.contents@[i]);
                }
            }
            lemma_tree_frame(h0, h1);
            lemma_path_linked_frame(h0, h1, idx as int);
            assert(h1.linked(k));
            assert(h1.path_linked(k));
            assert(h1.wf());
            if h0.sels_fit() && replay_fits(h0, b0) {
                assert forall|i: int| 0 < i < h1.node_count() implies #[trigger] h1.step_sels_fit(i) by {
                    if i != k {
                        assert(h0.step_sels_fit(i));
                        assert(same_node(h0, h1, i));
                    }
                }
            }
        }
        Some(restored)
    }
}


impl Default for History {
    fn default() -> (h: History)
        ensures
            h.wf(),
            h.is_fresh(),
            h.node_count() == 1,
            h.current_index() == 0,
            !h.has_transaction(0),
            h.children_at(0).len() == 0,
    {
        History::new()
    }
}

/// A history with nothing recorded has only its root: no step to undo and
/// none to redo.
pub proof fn lemma_fresh(h: History)
    requires
        h.wf(),
        h.is_fresh(),
    ensures
        !h.has_transaction(h.current_index()),
        h.children_at(h.current_index()).len() == 0,
{
    if h.children_at(0).len() > 0 {
        let c = h.nodes@[0].children@[0];
        assert(h.tree_ok());
        assert(c < h.nodes@.len());
        assert(h.parent_at(c as int) == 0);
    }
}

/// Undo right after record gives back the text from before the record (and
/// the selections passed to it); when the record was merged into the
/// previous insert, undo gives back the text from before that whole run of
/// inserts.
pub proof fn lemma_undo_after_record(
    h0: History,
    h1: History,
    h2: History,
    b0: Seq<u8>,
    edits: Seq<EditModel>,
    prior: (usize, Seq<Selection>),
    after: (usize, Seq<Selection>),
    key: MergeKey,
    b2: Seq<u8>,
    r: Option<(usize, Seq<Selection>)>,
)
    requires
        h0.wf(),
        record_post(h0, h1, b0, edits, prior, after, key),
        undo_post(h1, h2, apply_all(b0, edits), b2, r),
    ensures
        recorded_as_child(h0, h1, b0, edits, prior, after, key) ==> b2 == b0 && r == Some(prior),
        recorded_as_merge(h0, h1, b0, edits, after, key) ==> b2 == h0.base_at(h0.current_index())
            && r == Some(h0.prior_at(h0.current_index())),
        !merge_possible(h0, edits, key) ==> b2 == b0 && r == Some(prior),
{
}

/// Redo right after undo goes back to the node that was undone: the same
/// text and the selections recorded after its transaction.
pub proof fn lemma_redo_after_undo(
    h0: History,
    h1: History,
    h2: History,
    b0: Seq<u8>,
    b1: Seq<u8>,
    b2: Seq<u8>,
    r1: Option<(usize, Seq<Selection>)>,
    r2: Option<(usize, Seq<Selection>)>,
)
    requires
        h0.wf(),
        h0.at_text(b0),
        h0.has_transaction(h0.current_index()),
        undo_post(h0, h1, b0, b1, r1),
        redo_post(h1, h2, b1, b2, r2),
    ensures
        b2 == b0,
        h2.current_index() == h0.current_index(),
        r2 == Some(h0.after_at(h0.current_index())),
{
    let c = h0.current_index();
    assert(c != 0);
    assert(h0.path_linked(c));
    assert(h0.node_ok(c));
    assert(!h0.is_fresh());
    let p = h0.parent_at(c);
    assert(same_node(h0, h1, p));
    assert(same_node(h0, h1, c));
    assert(h1.children_at(h1.current_index()).last() == c);
}

/// After an undo that moved, the step it undid can be redone: it is the
/// newest child of the new current node and fits the text.
pub proof fn lemma_undo_leaves_replayable(
    h0: History,
    h1: History,
    b0: Seq<u8>,
    b1: Seq<u8>,
    r: Option<(usize, Seq<Selection>)>,
)
    requires
        h0.wf(),
        h0.at_text(b0),
        h0.has_transaction(h0.current_index()),
        undo_post(h0, h1, b0, b1, r),
    ensures
        replayable(h1, b1),
        h0.sels_fit() ==> replay_fits(h1, b1),
{
    let c = h0.current_index();
    assert(c != 0);
    assert(h0.path_linked(c));
    let p = h0.parent_at(c);
    assert(same_node(h0, h1, p));
    assert(same_node(h0, h1, c));
    assert(h1.children_at(h1.current_index()).last() == c);
    lemma_linked_replayable(h1, b1);
    if h0.sels_fit() {
        assert forall|i: int| 0 < i < h1.node_count() implies #[trigger] h1.step_sels_fit(i) by {
            assert(h0.step_sels_fit(i));
            assert(same_node(h0, h1, i));
        }
    }
}

/// Undo right after a redo that moved goes back to where the redo started,
/// with the same text.
pub proof fn lemma_undo_after_redo(
    h0: History,
    h1: History,
    h2: History,
    b0: Seq<u8>,
    b1: Seq<u8>,
    b2: Seq<u8>,
    r1: Option<(usize, Seq<Selection>)>,
    r2: Option<(usize, Seq<Selection>)>,
)
    requires
        h0.wf(),
        h0.at_text(b0),
        h0.children_at(h0.current_index()).len() > 0,
        redo_post(h0, h1, b0, b1, r1),
        undo_post(h1, h2, b1, b2, r2),
    ensures
        b2 == b0,
        h2.current_index() == h0.current_index(),
{
    let c = h0.current_index();
    let k = h0.children_at(c).last() as int;
    assert(h0.children_at(c)[h0.children_at(c).len() - 1] == k);
    assert(h0.tree_ok());
    assert(0 <= k < h0.node_count());
    assert(h0.parent_at(k) == c);
    assert(h0.node_ok(k));
    assert(rebased_node(h0, h1, k, b0));
}


/// The current node is one of the nodes.
pub proof fn lemma_current_node(h: History)
    requires
        h.wf(),
    ensures
        0 <= h.current_index() < h.node_count(),
{
}

/// A node holding a transaction is not the root, and the selections recorded
/// with it lie within the texts before and after it.
pub proof fn lemma_node_selections_fit(h: History, i: int)
    requires
        h.wf(),
        h.sels_fit(),
        0 <= i < h.node_count(),
        h.has_transaction(i),
    ensures
        i > 0,
        fits_text(h.prior_at(i), h.base_at(i).len() as int),
        fits_text(h.after_at(i), h.content_at(i).len() as int),
{
    assert(i != 0);
    assert(h.node_ok(i));
    assert(h.step_sels_fit(i));
}


} // verus!
