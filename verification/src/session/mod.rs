//! What is kept between runs: the last open file and the cursor offset in
//! each file, keyed by path.

use vstd::prelude::*;

verus! {

pub struct SessionState {
    pub last_open_file: Option<String>,
    /// One `(path, offset)` entry per path.
    pub cursors: Vec<(String, usize)>,
}

/// The cursor offsets as a map from path to offset.
pub open spec fn cursor_map(entries: Seq<(String, usize)>) -> Map<Seq<char>, usize>
    decreases entries.len(),
{
    if entries.len() == 0 {
        Map::empty()
    } else {
        cursor_map(entries.drop_last()).insert(entries.last().0@, entries.last().1)
    }
}

/// No path has two entries.
pub open spec fn keys_unique(entries: Seq<(String, usize)>) -> bool {
    forall|i: int, j: int| 0 <= i < j < entries.len() ==> (#[trigger] entries[i]).0@ != (#[trigger] entries[j]).0@
}

impl SessionState {
    /// The last open file and the cursor map.
    pub open spec fn model(&self) -> (Option<Seq<char>>, Map<Seq<char>, usize>) {
        (
            match &self.last_open_file {
                Some(p) => Some(p@),
                None => None,
            },
            cursor_map(self.cursors@),
        )
    }

    pub open spec fn wf(&self) -> bool {
        keys_unique(self.cursors@)
    }

    /// Makes `file` the last open file and records `cursor` as its offset.
    pub fn update_cursor(&mut self, file: String, cursor: usize)
        requires
            old(self).wf(),
        ensures
            final(self).wf(),
            final(self).model() == (Some(file@), old(self).model().1.insert(file@, cursor)),
    {
        let ghost old_entries = self.cursors@;
        let mut i: usize = 0;
        while i < self.cursors.len()
            invariant
                i <= self.cursors@.len(),
                self.cursors@ == old_entries,
                old_entries == old(self).cursors@,
                keys_unique(old_entries),
                forall|k: int| 0 <= k < i ==> (#[trigger] old_entries[k]).0@ != file@,
            decreases self.cursors@.len() - i,
        {
            if self.cursors[i].0 == file {
                let ghost before = self.cursors@;
                let key = self.cursors[i].0.clone();
                self.cursors.set(i, (key, cursor));
                proof {
                    lemma_replace_entry(before, i as int, cursor);
                }
                self.last_open_file = Some(file);
                return;
            }
            i += 1;
        }
        let ghost before = self.cursors@;
        self.last_open_file = Some(file.clone());
        self.cursors.push((file, cursor));
        proof {
            assert(self.cursors@.drop_last() =~= before);
            assert forall|a: int, b: int| 0 <= a < b < self.cursors@.len() implies (#[trigger] self.cursors@[a]).0@
                != (#[trigger] self.cursors@[b]).0@ by {
                if b == before.len() {
                    assert(self.cursors@[a] == before[a]);
                } else {
                    assert(self.cursors@[a] == before[a] && self.cursors@[b] == before[b]);
                }
            }
        }
    }

    /// Whether no path has two entries.
    pub fn has_unique_paths(&self) -> (b: bool)
        ensures
            b == self.wf(),
    {
        let n = self.cursors.len();
        let mut i: usize = 0;
        while i < n
            invariant
                i <= n,
                n == self.cursors@.len(),
                forall|a: int, b: int|
                    0 <= a < b < n && a < i ==> (#[trigger] self.cursors@[a]).0@ != (#[trigger] self.cursors@[b]).0@,
            decreases n - i,
        {
            let mut j: usize = i + 1;
            while j < n
                invariant
                    i < n,
                    i + 1 <= j <= n,
                    n == self.cursors@.len(),
                    forall|a: int, b: int|
                        0 <= a < b < n && a < i ==> (#[trigger] self.cursors@[a]).0@ != (#[trigger] self.cursors@[b]).0@,
                    forall|b: int| i < b < j ==> self.cursors@[i as int].0@ != (#[trigger] self.cursors@[b]).0@,
                decreases n - j,
            {
                if self.cursors[i].0 == self.cursors[j].0 {
                    return false;
                }
                j += 1;
            }
            i += 1;
        }
        true
    }

    /// The cursor offset recorded for `file`.
    pub fn cursor_for(&self, file: &String) -> (r: Option<usize>)
        requires
            self.wf(),
        ensures
            r == (if self.model().1.contains_key(file@) {
                Some(self.model().1[file@])
            } else {
                None
            }),
    {
        let mut i: usize = 0;
        while i < self.cursors.len()
            invariant
                i <= self.cursors@.len(),
                keys_unique(self.cursors@),
                forall|k: int| 0 <= k < i ==> (#[trigger] self.cursors@[k]).0@ != file@,
            decreases self.cursors@.len() - i,
        {
            if self.cursors[i].0 == *file {
                proof {
                    lemma_lookup(self.cursors@, i as int);
                }
                return Some(self.cursors[i].1);
            }
            i += 1;
        }
        proof {
            lemma_absent(self.cursors@, file@);
        }
        None
    }
}

impl Default for SessionState {
    fn default() -> (s: SessionState)
        ensures
            s.wf(),
            s.model() == (None::<Seq<char>>, Map::<Seq<char>, usize>::empty()),
    {
        SessionState { last_open_file: None, cursors: Vec::new() }
    }
}

proof fn lemma_absent(entries: Seq<(String, usize)>, key: Seq<char>)
    requires
        forall|k: int| 0 <= k < entries.len() ==> (#[trigger] entries[k]).0@ != key,
    ensures
        !cursor_map(entries).contains_key(key),
    decreases entries.len(),
{
    if entries.len() > 0 {
        let rest = entries.drop_last();
        assert forall|k: int| 0 <= k < rest.len() implies (#[trigger] rest[k]).0@ != key by {
            assert(rest[k] == entries[k]);
        }
        lemma_absent(rest, key);
    }
}

proof fn lemma_lookup(entries: Seq<(String, usize)>, i: int)
    requires
        keys_unique(entries),
        0 <= i < entries.len(),
    ensures
        cursor_map(entries).contains_key(entries[i].0@),
        cursor_map(entries)[entries[i].0@] == entries[i].1,
    decreases entries.len(),
{
    let rest = entries.drop_last();
    if i < entries.len() - 1 {
        assert(rest[i] == entries[i]);
        assert(keys_unique(rest)) by {
            assert forall|a: int, b: int| 0 <= a < b < rest.len() implies (#[trigger] rest[a]).0@ != (#[trigger] rest[b]).0@ by {
                assert(rest[a] == entries[a] && rest[b] == entries[b]);
            }
        }
        lemma_lookup(rest, i);
        assert(entries.last().0@ != entries[i].0@);
    }
}

proof fn lemma_replace_entry(entries: Seq<(String, usize)>, i: int, v: usize)
    requires
        keys_unique(entries),
        0 <= i < entries.len(),
    ensures
        keys_unique(entries.update(i, (entries[i].0, v))),
        cursor_map(entries.update(i, (entries[i].0, v))) == cursor_map(entries).insert(entries[i].0@, v),
    decreases entries.len(),
{
    let u = entries.update(i, (entries[i].0, v));
    assert forall|a: int, b: int| 0 <= a < b < u.len() implies (#[trigger] u[a]).0@ != (#[trigger] u[b]).0@ by {
        assert(u[a].0 == entries[a].0 && u[b].0 == entries[b].0);
    }
    let rest = entries.drop_last();
    assert(keys_unique(rest)) by {
        assert forall|a: int, b: int| 0 <= a < b < rest.len() implies (#[trigger] rest[a]).0@ != (#[trigger] rest[b]).0@ by {
            assert(rest[a] == entries[a] && rest[b] == entries[b]);
        }
    }
    if i == entries.len() - 1 {
        assert(u.drop_last() =~= rest);
        assert(cursor_map(u) =~= cursor_map(entries).insert(entries[i].0@, v));
    } else {
        assert(rest[i] == entries[i]);
        lemma_replace_entry(rest, i, v);
        assert(u.drop_last() =~= rest.update(i, (rest[i].0, v)));
        assert(entries.last().0@ != entries[i].0@);
        assert(cursor_map(u) =~= cursor_map(entries).insert(entries[i].0@, v));
    }
}

} // verus!
