//! The editing buffer: the text of the open notes, what was last saved of
//! each, and whether it has unsaved changes.
use vstd::prelude::*;
use crate::paths::{path_key, path_key_of};

verus! {

/// One open note: its current text, its last saved text, and whether it has
/// unsaved changes.
#[derive(Clone, Debug)]
pub struct BufferEntry {
    pub content: String,
    pub saved_content: String,
    pub dirty: bool,
}

impl View for BufferEntry {
    type V = (Seq<char>, Seq<char>, bool);

    open spec fn view(&self) -> Self::V {
        (self.content@, self.saved_content@, self.dirty)
    }
}

impl BufferEntry {
    /// A freshly opened note: saved as it is, not dirty.
    pub fn new(content: String) -> (r: Self)
        ensures
            r@ == (content@, content@, false),
    {
        let saved = content.clone();
        BufferEntry { content, saved_content: saved, dirty: false }
    }

    /// Replaces the text; the entry is dirty exactly when the new text
    /// differs from the saved one.
    pub fn set_content(&mut self, new_content: String)
        ensures
            final(self)@ == (new_content@, old(self)@.1, new_content@ != old(self)@.1),
    {
        self.content = new_content;
        self.dirty = !(self.content == self.saved_content);
    }

    /// Records the current text as saved.
    pub fn mark_saved(&mut self)
        ensures
            final(self)@ == (old(self)@.0, old(self)@.0, false),
    {
        self.saved_content = self.content.clone();
        self.dirty = false;
    }
}

/// The open notes, keyed by path as paths compare (by components, see
/// `path_key`).
pub struct Buffer {
    entries: Vec<(String, BufferEntry)>,
}

/// No path occurs twice among the entries.
pub open spec fn distinct_keys(s: Seq<(String, BufferEntry)>) -> bool {
    forall|i: int, j: int| 0 <= i < s.len() && 0 <= j < s.len() && i != j ==> #[trigger] s[i].0@ != #[trigger] s[j].0@
}

/// Does some entry have the path `k`?
pub open spec fn has_key(s: Seq<(String, BufferEntry)>, k: Seq<char>) -> bool {
    exists|i: int| 0 <= i < s.len() && #[trigger] s[i].0@ == k
}

/// The index of the entry with path `k`.
pub open spec fn key_index(s: Seq<(String, BufferEntry)>, k: Seq<char>) -> int {
    choose|i: int| 0 <= i < s.len() && #[trigger] s[i].0@ == k
}

/// The entries as a map from path to entry.
pub open spec fn entries_map(s: Seq<(String, BufferEntry)>) -> Map<Seq<char>, (Seq<char>, Seq<char>, bool)> {
    Map::new(|k: Seq<char>| has_key(s, k), |k: Seq<char>| s[key_index(s, k)].1@)
}

proof fn lemma_index(s: Seq<(String, BufferEntry)>, i: int)
    requires
        distinct_keys(s),
        0 <= i < s.len(),
    ensures
        has_key(s, s[i].0@),
        key_index(s, s[i].0@) == i,
        entries_map(s).contains_key(s[i].0@),
        entries_map(s)[s[i].0@] == s[i].1@,
{
    assert(has_key(s, s[i].0@));
    let j = key_index(s, s[i].0@);
    assert(s[j].0@ == s[i].0@);
}

proof fn lemma_push(s: Seq<(String, BufferEntry)>, k: String, v: BufferEntry)
    requires
        distinct_keys(s),
        !has_key(s, k@),
    ensures
        distinct_keys(s.push((k, v))),
        entries_map(s.push((k, v))) =~= entries_map(s).insert(k@, v@),
{
    let t = s.push((k, v));
    assert(distinct_keys(t)) by {
        assert forall|i: int, j: int| 0 <= i < t.len() && 0 <= j < t.len() && i != j implies #[trigger] t[i].0@ != #[trigger] t[j].0@ by {
            if i < s.len() && j < s.len() {
                assert(t[i] == s[i] && t[j] == s[j]);
            } else if i < s.len() {
                assert(t[i] == s[i]);
            } else {
                assert(t[j] == s[j]);
            }
        }
    }
    assert forall|x: Seq<char>| #[trigger] has_key(t, x) <==> has_key(s, x) || x == k@ by {
        if has_key(s, x) {
            let i = choose|i: int| 0 <= i < s.len() && #[trigger] s[i].0@ == x;
            assert(t[i] == s[i]);
        }
        if x == k@ {
            assert(t[s.len() as int].0@ == x);
        }
        if has_key(t, x) && x != k@ {
            let i = choose|i: int| 0 <= i < t.len() && #[trigger] t[i].0@ == x;
            assert(i < s.len());
            assert(s[i] == t[i]);
        }
    }
    assert forall|x: Seq<char>| #[trigger] entries_map(t).contains_key(x) implies entries_map(t)[x] == entries_map(s).insert(k@, v@)[x] by {
        if x == k@ {
            lemma_index(t, s.len() as int);
        } else {
            let i = choose|i: int| 0 <= i < t.len() && #[trigger] t[i].0@ == x;
            assert(i < s.len());
            assert(t[i] == s[i]);
            lemma_index(t, i);
            lemma_index(s, i);
        }
    }
}

proof fn lemma_update(s: Seq<(String, BufferEntry)>, i: int, k: String, v: BufferEntry)
    requires
        distinct_keys(s),
        0 <= i < s.len(),
        k@ == s[i].0@,
    ensures
        distinct_keys(s.update(i, (k, v))),
        entries_map(s.update(i, (k, v))) =~= entries_map(s).insert(s[i].0@, v@),
{
    let t = s.update(i, (k, v));
    assert(distinct_keys(t)) by {
        assert forall|a: int, c: int| 0 <= a < t.len() && 0 <= c < t.len() && a != c implies #[trigger] t[a].0@ != #[trigger] t[c].0@ by {
            assert(t[a].0@ == s[a].0@ && t[c].0@ == s[c].0@);
        }
    }
    assert forall|x: Seq<char>| #[trigger] has_key(t, x) <==> has_key(s, x) by {
        if has_key(s, x) {
            let j = choose|j: int| 0 <= j < s.len() && #[trigger] s[j].0@ == x;
            assert(t[j].0@ == s[j].0@);
        }
        if has_key(t, x) {
            let j = choose|j: int| 0 <= j < t.len() && #[trigger] t[j].0@ == x;
            assert(t[j].0@ == s[j].0@);
        }
    }
    lemma_index(s, i);
    assert forall|x: Seq<char>| #[trigger] entries_map(t).contains_key(x) implies entries_map(t)[x] == entries_map(s).insert(s[i].0@, v@)[x] by {
        let j = choose|j: int| 0 <= j < t.len() && #[trigger] t[j].0@ == x;
        assert(t[j].0@ == s[j].0@);
        lemma_index(t, j);
        lemma_index(s, j);
    }
}

proof fn lemma_update_any(s: Seq<(String, BufferEntry)>, i: int)
    requires
        distinct_keys(s),
        0 <= i < s.len(),
    ensures
        forall|v: BufferEntry|
            distinct_keys(#[trigger] s.update(i, (s[i].0, v)))
            && entries_map(s.update(i, (s[i].0, v))) == entries_map(s).insert(s[i].0@, v@),
{
    assert forall|v: BufferEntry|
        distinct_keys(#[trigger] s.update(i, (s[i].0, v)))
        && entries_map(s.update(i, (s[i].0, v))) == entries_map(s).insert(s[i].0@, v@) by {
        lemma_update(s, i, s[i].0, v);
    }
}

proof fn lemma_remove(s: Seq<(String, BufferEntry)>, i: int)
    requires
        distinct_keys(s),
        0 <= i < s.len(),
    ensures
        distinct_keys(s.remove(i)),
        entries_map(s.remove(i)) =~= entries_map(s).remove(s[i].0@),
{
    let t = s.remove(i);
    assert(forall|a: int| 0 <= a < t.len() ==> #[trigger] t[a] == if a < i { s[a] } else { s[a + 1] });
    assert(distinct_keys(t)) by {
        assert forall|a: int, c: int| 0 <= a < t.len() && 0 <= c < t.len() && a != c implies #[trigger] t[a].0@ != #[trigger] t[c].0@ by {
            let a2 = if a < i { a } else { a + 1 };
            let c2 = if c < i { c } else { c + 1 };
            assert(t[a] == s[a2] && t[c] == s[c2]);
        }
    }
    lemma_index(s, i);
    assert forall|x: Seq<char>| #[trigger] has_key(t, x) <==> has_key(s, x) && x != s[i].0@ by {
        if has_key(s, x) && x != s[i].0@ {
            let j = choose|j: int| 0 <= j < s.len() && #[trigger] s[j].0@ == x;
            assert(j != i);
            let j2 = if j < i { j } else { j - 1 };
            assert(t[j2] == s[j]);
        }
        if has_key(t, x) {
            let j = choose|j: int| 0 <= j < t.len() && #[trigger] t[j].0@ == x;
            let j2 = if j < i { j } else { j + 1 };
            assert(t[j] == s[j2]);
            assert(j2 != i);
        }
    }
    assert forall|x: Seq<char>| #[trigger] entries_map(t).contains_key(x) implies entries_map(t)[x] == entries_map(s)[x] by {
        let j = choose|j: int| 0 <= j < t.len() && #[trigger] t[j].0@ == x;
        let j2 = if j < i { j } else { j + 1 };
        assert(t[j] == s[j2]);
        lemma_index(t, j);
        lemma_index(s, j2);
    }
}

impl View for Buffer {
    type V = Map<Seq<char>, (Seq<char>, Seq<char>, bool)>;

    closed spec fn view(&self) -> Self::V {
        entries_map(self.entries@)
    }
}

impl Buffer {
    /// The buffer's invariant: no path is open twice.
    pub closed spec fn wf(&self) -> bool {
        distinct_keys(self.entries@)
    }

    fn find(&self, path: &String) -> (r: Option<usize>)
        requires
            self.wf(),
        ensures
            r matches Some(i) ==> i < self.entries@.len() && self.entries@[i as int].0@ == path@,
            r is None ==> !has_key(self.entries@, path@),
    {
        let mut i: usize = 0;
        while i < self.entries.len()
            invariant
                i <= self.entries@.len(),
                forall|j: int| 0 <= j < i ==> #[trigger] self.entries@[j].0@ != path@,
            decreases self.entries@.len() - i,
        {
            if self.entries[i].0 == *path {
                return Some(i);
            }
            i = i + 1;
        }
        None
    }

    /// An empty buffer.
    pub fn new() -> (r: Self)
        ensures
            r.wf(),
            r@ == Map::<Seq<char>, (Seq<char>, Seq<char>, bool)>::empty(),
            r@.dom().finite(),
    {
        let r = Buffer { entries: Vec::new() };
        proof {
            assert(r@ =~= Map::<Seq<char>, (Seq<char>, Seq<char>, bool)>::empty());
        }
        r
    }

    /// Opens `path` with `content`, saved and clean (replacing what was open).
    pub fn open(&mut self, path: &str, content: String)
        requires
            old(self).wf(),
        ensures
            final(self).wf(),
            final(self)@ == old(self)@.insert(path_key(path@), (content@, content@, false)),
            final(self)@.dom().finite(),
            final(self)@.len() == old(self)@.len() + if old(self)@.contains_key(path_key(path@)) { 0int } else { 1int },
    {
        proof { lemma_map_len(self.entries@); }
        let key = path_key_of(path);
        let entry = BufferEntry::new(content);
        match self.find(&key) {
            Some(i) => {
                proof {
                    lemma_update(self.entries@, i as int, key, entry);
                }
                self.entries.set(i, (key, entry));
                proof { lemma_map_len(self.entries@); }
            },
            None => {
                proof {
                    lemma_push(self.entries@, key, entry);
                }
                self.entries.push((key, entry));
                proof { lemma_map_len(self.entries@); }
            },
        }
    }

    /// The entry of `path`, if it is open.
    pub fn get(&self, path: &str) -> (r: Option<&BufferEntry>)
        requires
            self.wf(),
        ensures
            r is Some <==> self@.contains_key(path_key(path@)),
            r matches Some(e) ==> e@ == self@[path_key(path@)],
    {
        let key = path_key_of(path);
        match self.find(&key) {
            Some(i) => {
                proof {
                    lemma_index(self.entries@, i as int);
                }
                Some(&self.entries[i].1)
            },
            None => None,
        }
    }

    /// The entry of `path` for editing in place, if it is open. Whatever is
    /// done through the reference becomes the entry of `path`.
    pub fn get_mut(&mut self, path: &str) -> (r: Option<&mut BufferEntry>)
        requires
            old(self).wf(),
        ensures
            r is Some <==> old(self)@.contains_key(path_key(path@)),
            r matches Some(e) ==> e@ == old(self)@[path_key(path@)],
            r matches Some(e) ==> final(self)@ == old(self)@.insert(path_key(path@), final(e)@) && final(self).wf(),
            r is None ==> final(self)@ == old(self)@ && final(self).wf(),
    {
        let key = path_key_of(path);
        match self.find(&key) {
            Some(i) => {
                proof {
                    lemma_index(self.entries@, i as int);
                    lemma_update_any(self.entries@, i as int);
                }
                let pair = &mut self.entries[i];
                Some(&mut pair.1)
            },
            None => None,
        }
    }

    /// Replaces the text of `path`; a path that is not open is opened with
    /// nothing saved and marked dirty.
    pub fn update(&mut self, path: &str, new_content: String)
        requires
            old(self).wf(),
        ensures
            final(self).wf(),
            old(self)@.contains_key(path_key(path@)) ==> final(self)@ == old(self)@.insert(
                path_key(path@),
                (new_content@, old(self)@[path_key(path@)].1, new_content@ != old(self)@[path_key(path@)].1),
            ),
            !old(self)@.contains_key(path_key(path@)) ==> final(self)@ == old(self)@.insert(path_key(path@), (new_content@, Seq::<char>::empty(), true)),
            final(self)@.dom().finite(),
            final(self)@.len() == old(self)@.len() + if old(self)@.contains_key(path_key(path@)) { 0int } else { 1int },
    {
        proof { lemma_map_len(self.entries@); }
        let key = path_key_of(path);
        match self.find(&key) {
            Some(i) => {
                let mut entry = self.entries[i].1.clone_entry();
                entry.set_content(new_content);
                proof {
                    lemma_index(self.entries@, i as int);
                    lemma_update(self.entries@, i as int, key, entry);
                }
                self.entries.set(i, (key, entry));
                proof { lemma_map_len(self.entries@); }
            },
            None => {
                let entry = BufferEntry { content: new_content, saved_content: String::new(), dirty: true };
                proof {
                    lemma_push(self.entries@, key, entry);
                }
                self.entries.push((key, entry));
                proof { lemma_map_len(self.entries@); }
            },
        }
    }

    /// Marks `path` as saved and returns its text; `None` when it is not open.
    pub fn save(&mut self, path: &str) -> (r: Option<String>)
        requires
            old(self).wf(),
        ensures
            final(self).wf(),
            r is Some <==> old(self)@.contains_key(path_key(path@)),
            r matches Some(c) ==> c@ == old(self)@[path_key(path@)].0 && final(self)@ == old(self)@.insert(
                path_key(path@),
                (old(self)@[path_key(path@)].0, old(self)@[path_key(path@)].0, false),
            ),
            r is None ==> final(self)@ == old(self)@,
    {
        let key = path_key_of(path);
        match self.find(&key) {
            Some(i) => {
                let mut entry = self.entries[i].1.clone_entry();
                entry.mark_saved();
                let content = entry.content.clone();
                proof {
                    lemma_index(self.entries@, i as int);
                    lemma_update(self.entries@, i as int, key, entry);
                }
                self.entries.set(i, (key, entry));
                Some(content)
            },
            None => None,
        }
    }

    /// Closes `path`.
    pub fn close(&mut self, path: &str)
        requires
            old(self).wf(),
        ensures
            final(self).wf(),
            final(self)@ == old(self)@.remove(path_key(path@)),
            final(self)@.dom().finite(),
            final(self)@.len() == old(self)@.len() - if old(self)@.contains_key(path_key(path@)) { 1int } else { 0int },
    {
        proof { lemma_map_len(self.entries@); }
        let key = path_key_of(path);
        match self.find(&key) {
            Some(i) => {
                proof {
                    lemma_remove(self.entries@, i as int);
                }
                self.entries.remove(i);
                proof { lemma_map_len(self.entries@); }
            },
            None => {
                proof {
                    assert(old(self)@.remove(path_key(path@)) =~= old(self)@);
                }
            },
        }
    }

    /// Does `path` have unsaved changes? (`false` when it is not open.)
    pub fn is_dirty(&self, path: &str) -> (r: bool)
        requires
            self.wf(),
        ensures
            r == (self@.contains_key(path_key(path@)) && self@[path_key(path@)].2),
    {
        match self.get(path) {
            Some(e) => e.dirty,
            None => false,
        }
    }

    /// The paths with unsaved changes, each once.
    pub fn dirty_files(&self) -> (r: Vec<String>)
        requires
            self.wf(),
        ensures
            forall|i: int, j: int| 0 <= i < r@.len() && 0 <= j < r@.len() && i != j ==> #[trigger] r@[i]@ != #[trigger] r@[j]@,
            forall|k: Seq<char>| (exists|i: int| 0 <= i < r@.len() && #[trigger] r@[i]@ == k) <==> (self@.contains_key(k) && self@[k].2),
    {
        let mut r: Vec<String> = Vec::new();
        let mut i: usize = 0;
        let ghost mut idx: Seq<int> = seq![];
        while i < self.entries.len()
            invariant
                self.wf(),
                i <= self.entries@.len(),
                idx.len() == r@.len(),
                forall|a: int| 0 <= a < idx.len() ==> 0 <= #[trigger] idx[a] < i && r@[a]@ == self.entries@[idx[a]].0@ && self.entries@[idx[a]].1.dirty,
                forall|a: int, c: int| 0 <= a < c < idx.len() ==> #[trigger] idx[a] < #[trigger] idx[c],
                forall|j: int| 0 <= j < i && #[trigger] self.entries@[j].1.dirty ==> exists|a: int| 0 <= a < idx.len() && idx[a] == j,
            decreases self.entries@.len() - i,
        {
            let ghost old_idx = idx;
            if self.entries[i].1.dirty {
                r.push(self.entries[i].0.clone());
                proof {
                    idx = idx.push(i as int);
                }
            }
            proof {
                assert forall|j: int| 0 <= j < i + 1 && #[trigger] self.entries@[j].1.dirty implies exists|a: int| 0 <= a < idx.len() && idx[a] == j by {
                    if j < i {
                        let a = choose|a: int| 0 <= a < old_idx.len() && old_idx[a] == j;
                        assert(idx[a] == j);
                    } else {
                        assert(idx[idx.len() - 1] == j);
                    }
                }
            }
            i = i + 1;
        }
        proof {
            let s = self.entries@;
            assert forall|a: int, c: int| 0 <= a < r@.len() && 0 <= c < r@.len() && a != c implies #[trigger] r@[a]@ != #[trigger] r@[c]@ by {
                if a < c {
                    assert(idx[a] < idx[c]);
                } else {
                    assert(idx[c] < idx[a]);
                }
            }
            assert forall|k: Seq<char>| (exists|a: int| 0 <= a < r@.len() && #[trigger] r@[a]@ == k) <==> (self@.contains_key(k) && self@[k].2) by {
                if exists|a: int| 0 <= a < r@.len() && #[trigger] r@[a]@ == k {
                    let a = choose|a: int| 0 <= a < r@.len() && #[trigger] r@[a]@ == k;
                    lemma_index(s, idx[a]);
                }
                if self@.contains_key(k) && self@[k].2 {
                    let j = key_index(s, k);
                    lemma_index(s, j);
                    let a = choose|a: int| 0 <= a < idx.len() && idx[a] == j;
                    assert(r@[a]@ == k);
                }
            }
        }
        r
    }

    /// The open paths, each once.
    pub fn open_files(&self) -> (r: Vec<String>)
        requires
            self.wf(),
        ensures
            forall|i: int, j: int| 0 <= i < r@.len() && 0 <= j < r@.len() && i != j ==> #[trigger] r@[i]@ != #[trigger] r@[j]@,
            forall|k: Seq<char>| (exists|i: int| 0 <= i < r@.len() && #[trigger] r@[i]@ == k) <==> self@.contains_key(k),
    {
        let mut r: Vec<String> = Vec::new();
        let mut i: usize = 0;
        while i < self.entries.len()
            invariant
                self.wf(),
                i <= self.entries@.len(),
                r@.len() == i,
                forall|a: int| 0 <= a < i ==> #[trigger] r@[a]@ == self.entries@[a].0@,
            decreases self.entries@.len() - i,
        {
            r.push(self.entries[i].0.clone());
            i = i + 1;
        }
        proof {
            let s = self.entries@;
            assert forall|k: Seq<char>| (exists|a: int| 0 <= a < r@.len() && #[trigger] r@[a]@ == k) <==> self@.contains_key(k) by {
                if self@.contains_key(k) {
                    let j = key_index(s, k);
                    assert(r@[j]@ == k);
                }
            }
        }
        r
    }

    /// Closes every note.
    pub fn clear(&mut self)
        ensures
            final(self).wf(),
            final(self)@ == Map::<Seq<char>, (Seq<char>, Seq<char>, bool)>::empty(),
    {
        self.entries.clear();
        proof {
            assert(final(self)@ =~= Map::<Seq<char>, (Seq<char>, Seq<char>, bool)>::empty());
        }
    }

    /// Number of open notes.
    pub fn len(&self) -> (r: usize)
        requires
            self.wf(),
        ensures
            self@.dom().finite(),
            r == self@.len(),
    {
        proof {
            lemma_map_len(self.entries@);
        }
        self.entries.len()
    }

    /// Is no note open?
    pub fn is_empty(&self) -> (r: bool)
        requires
            self.wf(),
        ensures
            r == (self@.len() == 0),
    {
        self.len() == 0
    }
}

impl BufferEntry {
    /// A copy of the entry.
    pub fn clone_entry(&self) -> (r: Self)
        ensures
            r@ == self@,
    {
        BufferEntry { content: self.content.clone(), saved_content: self.saved_content.clone(), dirty: self.dirty }
    }
}

proof fn lemma_map_len(s: Seq<(String, BufferEntry)>)
    requires
        distinct_keys(s),
    ensures
        entries_map(s).dom().finite(),
        entries_map(s).len() == s.len(),
    decreases s.len(),
{
    if s.len() == 0 {
        assert(entries_map(s).dom() =~= Set::<Seq<char>>::empty());
    } else {
        let t = s.drop_last();
        assert(distinct_keys(t)) by {
            assert forall|i: int, j: int| 0 <= i < t.len() && 0 <= j < t.len() && i != j implies #[trigger] t[i].0@ != #[trigger] t[j].0@ by {
                assert(t[i] == s[i] && t[j] == s[j]);
            }
        }
        lemma_map_len(t);
        let last = s.last();
        assert(!has_key(t, last.0@)) by {
            if has_key(t, last.0@) {
                let i = choose|i: int| 0 <= i < t.len() && #[trigger] t[i].0@ == last.0@;
                assert(t[i] == s[i]);
                assert(s[s.len() - 1] == last);
            }
        }
        lemma_push(t, last.0, last.1);
        assert(t.push(last) =~= s);
    }
}

} // verus!
