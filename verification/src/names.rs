//! The file-name index of a vault: for each file stem, the notes with that
//! stem, in the order they were found. Links are resolved through it.
use vstd::prelude::*;

verus! {

/// The paths recorded for `stem` among the pairs `s`, in order.
pub open spec fn paths_for(s: Seq<(String, String)>, stem: Seq<char>) -> Seq<Seq<char>>
    decreases s.len(),
{
    if s.len() == 0 {
        seq![]
    } else if s.last().0@ == stem {
        paths_for(s.drop_last(), stem).push(s.last().1@)
    } else {
        paths_for(s.drop_last(), stem)
    }
}

/// Stems and the notes that have them.
pub struct FilenameIndex {
    pairs: Vec<(String, String)>,
}

impl FilenameIndex {
    /// The notes recorded for `stem`, in the order they were added.
    pub closed spec fn lookup(&self, stem: Seq<char>) -> Seq<Seq<char>> {
        paths_for(self.pairs@, stem)
    }

    /// An index that knows no stem.
    pub fn new() -> (r: Self)
        ensures
            forall|k: Seq<char>| #[trigger] r.lookup(k) == Seq::<Seq<char>>::empty(),
    {
        FilenameIndex { pairs: Vec::new() }
    }

    /// Records `path` as one more note with the stem `stem`.
    pub fn add(&mut self, stem: String, path: String)
        ensures
            forall|k: Seq<char>| #[trigger] final(self).lookup(k) == if k == stem@ {
                old(self).lookup(k).push(path@)
            } else {
                old(self).lookup(k)
            },
    {
        let ghost before = self.pairs@;
        self.pairs.push((stem, path));
        proof {
            assert forall|k: Seq<char>| #[trigger] self.lookup(k) == if k == before.push(self.pairs@.last()).last().0@ {
                paths_for(before, k).push(self.pairs@.last().1@)
            } else {
                paths_for(before, k)
            } by {
                assert(self.pairs@.drop_last() =~= before);
            }
        }
    }

    /// The notes recorded for `stem`, if there is one.
    pub fn get(&self, stem: &str) -> (r: Option<Vec<String>>)
        ensures
            r is None <==> self.lookup(stem@).len() == 0,
            r matches Some(v) ==> Seq::new(v@.len(), |i: int| v@[i]@) == self.lookup(stem@),
    {
        let key = stem.to_owned();
        let mut found: Vec<String> = Vec::new();
        let mut i: usize = 0;
        while i < self.pairs.len()
            invariant
                i <= self.pairs@.len(),
                key@ == stem@,
                Seq::new(found@.len(), |q: int| found@[q]@) == paths_for(self.pairs@.take(i as int), stem@),
            decreases self.pairs@.len() - i,
        {
            let ghost before = Seq::new(found@.len(), |q: int| found@[q]@);
            proof {
                assert(self.pairs@.take(i + 1).drop_last() =~= self.pairs@.take(i as int));
            }
            if self.pairs[i].0 == key {
                found.push(self.pairs[i].1.clone());
                assert(Seq::new(found@.len(), |q: int| found@[q]@) =~= before.push(self.pairs@[i as int].1@));
            }
            i = i + 1;
        }
        assert(self.pairs@.take(self.pairs@.len() as int) =~= self.pairs@);
        if found.len() == 0 {
            None
        } else {
            Some(found)
        }
    }
}

} // verus!
