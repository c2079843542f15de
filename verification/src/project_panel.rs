//! The file tree of the project panel: folders first, by name, each
//! followed by its contents when it is expanded, then the notes, by stem,
//! marked when they have diagnostics. Reading the folders is left to the
//! window, which hands over what it read.
use vstd::prelude::*;
use crate::paths::{path_key, path_key_of, file_name, file_name_of, file_stem, file_stem_of, extension, has_md_extension, is_rooted, key_parts, key_split, join, render, render_state, views, last_dot, stem_of};
use crate::order::{lex_lt, in_order, lemma_in_order, strictly_sorted, text_key, text_key_of, texts, sort_by_key, sorted_by_key, lemma_same_elements, lemma_lex_total, lemma_text_key_injective};
use crate::diagnostics::{Diagnostics, DiagView};
use crate::watch::is_note;

verus! {

/// A line of the file tree: its label, path, depth and whether it is a
/// folder.
#[derive(Clone, Debug)]
pub struct FileEntry {
    pub label: String,
    pub path: String,
    pub depth: usize,
    pub is_dir: bool,
}

/// A line of the file tree as plain values: label, path, depth, folder.
pub type EntryView = (Seq<char>, Seq<char>, nat, bool);

impl View for FileEntry {
    type V = EntryView;

    open spec fn view(&self) -> EntryView {
        (self.label@, self.path@, self.depth as nat, self.is_dir)
    }
}

/// The lines as plain values.
pub open spec fn entry_views(v: Seq<FileEntry>) -> Seq<EntryView> {
    Seq::new(v.len(), |i: int| v[i]@)
}

/// What the window read of the folders: for each, its path and its
/// entries (path, and whether the entry is a folder).
pub type ListingView = Seq<(Seq<char>, Seq<(Seq<char>, bool)>)>;

/// The listing as plain values.
pub open spec fn listing_view(l: Seq<(String, Vec<(String, bool)>)>) -> ListingView {
    Seq::new(l.len(), |i: int| (l[i].0@, Seq::new(l[i].1@.len(), |j: int| (l[i].1@[j].0@, l[i].1@[j].1))))
}

/// The name of an entry (its file name, empty without one).
pub open spec fn name_of(p: Seq<char>) -> Seq<char> {
    match file_name(p) {
        Some(n) => n,
        None => seq![],
    }
}

/// Entries of a folder have distinct names, as on any file system.
pub open spec fn listing_wf(l: ListingView) -> bool {
    forall|r: int, i: int, j: int|
        0 <= r < l.len() && 0 <= i < j < l[r].1.len() ==> #[trigger] name_of(l[r].1[i].0) != #[trigger] name_of(l[r].1[j].0)
}

/// Position of the first folder of the listing with the components of
/// `dir`, from `i` on.
pub open spec fn row_from(l: ListingView, dir: Seq<char>, i: int) -> Option<int>
    decreases l.len() - i,
{
    if i < 0 || i >= l.len() {
        None
    } else if path_key(l[i].0) == path_key(dir) {
        Some(i)
    } else {
        row_from(l, dir, i + 1)
    }
}

/// The subfolders among `kids`.
pub open spec fn folder_kids(kids: Seq<(Seq<char>, bool)>) -> Set<Seq<char>> {
    Set::new(|p: Seq<char>| exists|i: int| 0 <= i < kids.len() && #[trigger] kids[i] == (p, true))
}

/// The notes among `kids` (entries that are no folder and end in `.md`).
pub open spec fn note_kids(kids: Seq<(Seq<char>, bool)>) -> Set<Seq<char>> {
    Set::new(|p: Seq<char>| exists|i: int| 0 <= i < kids.len() && #[trigger] kids[i] == (p, false) && is_note(p))
}

/// The path of `p` below `base`, if `base`'s components begin `p`'s (std's
/// `Path::strip_prefix`).
pub open spec fn strip_prefix(p: Seq<char>, base: Seq<char>) -> Option<Seq<char>> {
    let pp = key_parts(p);
    let bp = key_parts(base);
    if is_rooted(p) == is_rooted(base) && bp.len() <= pp.len() && pp.take(bp.len() as int) == bp {
        Some(join(pp.skip(bp.len() as int)))
    } else {
        None
    }
}

/// Does the note at `p` have diagnostics in `diags`, looked up by its path
/// below `root` (or its whole path when it is not below `root`)?
pub open spec fn flagged(diags: Map<Seq<char>, Seq<DiagView>>, p: Seq<char>, root: Seq<char>) -> bool {
    let rel = match strip_prefix(p, root) {
        Some(r) => r,
        None => p,
    };
    diags.contains_key(path_key(rel)) && diags[path_key(rel)].len() > 0
}

/// The label of a folder.
pub open spec fn folder_label(open: bool, name: Seq<char>) -> Seq<char> {
    if open { "📂 "@ + name } else { "📁 "@ + name }
}

/// The label of a note.
pub open spec fn note_label(marked: bool, stem: Seq<char>) -> Seq<char> {
    if marked { "⚠ "@ + stem } else { "📄 "@ + stem }
}

/// The lines of the notes `fs`.
pub open spec fn note_lines(fs: Seq<Seq<char>>, root: Seq<char>, depth: nat, diags: Map<Seq<char>, Seq<DiagView>>) -> Seq<EntryView> {
    Seq::new(fs.len(), |i: int| (note_label(flagged(diags, fs[i], root), file_stem(fs[i])), fs[i], depth, false))
}

/// The lines of the folder `dir` at `depth`, looking its entries up in
/// `l`, descending at most `fuel` levels.
pub open spec fn tree(
    l: ListingView,
    dir: Seq<char>,
    root: Seq<char>,
    depth: nat,
    open: Set<Seq<char>>,
    diags: Map<Seq<char>, Seq<DiagView>>,
    fuel: nat,
) -> Seq<EntryView>
    decreases fuel, 0nat,
{
    if fuel == 0 {
        seq![]
    } else {
        match row_from(l, dir, 0) {
            None => seq![],
            Some(i) => {
                let kids = l[i].1;
                let ds = in_order(folder_kids(kids), |p: Seq<char>| text_key(name_of(p)));
                let fs = in_order(note_kids(kids), |p: Seq<char>| text_key(file_stem(p)));
                folder_lines(l, ds, root, depth, open, diags, (fuel - 1) as nat) + note_lines(fs, root, depth, diags)
            },
        }
    }
}

/// The lines of the folders `ds` at `depth`, each followed by its own lines
/// when it is expanded.
pub open spec fn folder_lines(
    l: ListingView,
    ds: Seq<Seq<char>>,
    root: Seq<char>,
    depth: nat,
    open: Set<Seq<char>>,
    diags: Map<Seq<char>, Seq<DiagView>>,
    fuel: nat,
) -> Seq<EntryView>
    decreases fuel, ds.len() + 1,
{
    if ds.len() == 0 {
        seq![]
    } else {
        let d = ds.last();
        let expanded = open.contains(path_key(d));
        let prev = folder_lines(l, ds.drop_last(), root, depth, open, diags, fuel);
        let own = seq![(folder_label(expanded, name_of(d)), d, depth, true)];
        if expanded {
            prev + own + tree(l, d, root, depth + 1, open, diags, fuel)
        } else {
            prev + own
        }
    }
}

/// The keys of the paths `v`.
pub open spec fn open_keys(v: Seq<String>) -> Set<Seq<char>> {
    Set::new(|k: Seq<char>| exists|i: int| 0 <= i < v.len() && #[trigger] path_key(v[i]@) == k)
}

/// A note's file name is its stem followed by `.md`.
proof fn lemma_note_name(p: Seq<char>)
    requires
        is_note(p),
    ensures
        name_of(p) == file_stem(p) + seq!['.', 'm', 'd'],
{
    let n = name_of(p);
    let j = last_dot(n, n.len() as int);
    lemma_last_dot(n, n.len() as int);
    assert(file_name(p) == Some(n));
    assert(j > 0);
    let ext = n.subrange(j + 1, n.len() as int);
    assert(ext == seq!['m', 'd']);
    assert(ext.len() == 2);
    assert(n.len() == j + 3);
    assert(n[j + 1] == ext[0]);
    assert(n[j + 2] == ext[1]);
    assert(n[j] == '.');
    assert(stem_of(n) == n.subrange(0, j));
    assert(n =~= n.subrange(0, j) + seq!['.', 'm', 'd']);
}

proof fn lemma_last_dot(name: Seq<char>, n: int)
    requires
        0 <= n <= name.len(),
    ensures
        last_dot(name, n) < n,
        last_dot(name, n) >= 0 ==> name[last_dot(name, n)] == '.',
    decreases n,
{
    if n > 0 && name[n - 1] != '.' {
        lemma_last_dot(name, n - 1);
    }
}

/// The strings `items` in increasing order of their keys `keys` (distinct
/// texts, `keys[i]` that of `items[i]`).
#[verifier::spinoff_prover]
#[verifier::rlimit(60)]
fn order_by_keys(items: &Vec<String>, keys: &Vec<String>, Ghost(f): Ghost<spec_fn(Seq<char>) -> Seq<char>>) -> (r: Vec<String>)
    requires
        keys@.len() == items@.len(),
        forall|i: int| 0 <= i < items@.len() ==> #[trigger] keys@[i]@ == f(items@[i]@),
        forall|i: int, j: int| 0 <= i < j < items@.len() ==> f(#[trigger] items@[i]@) != f(#[trigger] items@[j]@),
    ensures
        texts(r@) == in_order(texts(items@).to_set(), |p: Seq<char>| text_key(f(p))),
{
    let mut keyed: Vec<(Vec<i64>, String)> = Vec::new();
    let mut i: usize = 0;
    while i < items.len()
        invariant
            i <= items@.len(),
            keys@.len() == items@.len(),
            keyed@.len() == i,
            forall|j: int| 0 <= j < i ==> #[trigger] keyed@[j].1@ == items@[j]@ && keyed@[j].0@ == text_key(f(items@[j]@)),
            forall|i: int| 0 <= i < items@.len() ==> #[trigger] keys@[i]@ == f(items@[i]@),
        decreases items@.len() - i,
    {
        let k = text_key_of(&keys[i]);
        let ghost before = keyed@;
        let pair = (k, items[i].clone());
        let ghost pv = pair;
        keyed.push(pair);
        proof {
            assert forall|j: int| 0 <= j < i + 1 implies #[trigger] keyed@[j].1@ == items@[j]@ && keyed@[j].0@ == text_key(f(items@[j]@)) by {
                if j < i {
                    assert(keyed@[j] == before[j]);
                } else {
                    assert(keyed@[j] == pv);
                }
            }
        }
        i = i + 1;
    }
    let ghost pairs = keyed@;
    proof {
        assert(pairs.no_duplicates()) by {
            assert forall|a: int, b: int| 0 <= a < pairs.len() && 0 <= b < pairs.len() && a != b implies pairs[a] != pairs[b] by {
                assert(pairs[a].1@ == items@[a]@);
                assert(pairs[b].1@ == items@[b]@);
                if a < b {
                    assert(f(items@[a]@) != f(items@[b]@));
                } else {
                    assert(f(items@[b]@) != f(items@[a]@));
                }
            }
        }
    }
    let sorted = sort_by_key(keyed);
    proof {
        lemma_same_elements(pairs, sorted@);
        assert forall|t: int| 0 <= t < sorted@.len() implies #[trigger] sorted@[t].0@ == text_key(f(sorted@[t].1@)) by {
            assert(pairs.contains(sorted@[t]));
            let q = choose|q: int| 0 <= q < pairs.len() && pairs[q] == sorted@[t];
            assert(pairs[q].1@ == items@[q]@);
        }
    }
    let mut out: Vec<String> = Vec::new();
    let mut j: usize = 0;
    while j < sorted.len()
        invariant
            j <= sorted@.len(),
            out@.len() == j,
            forall|t: int| 0 <= t < j ==> #[trigger] out@[t]@ == sorted@[t].1@,
        decreases sorted@.len() - j,
    {
        out.push(sorted[j].1.clone());
        j = j + 1;
    }
    proof {
        let key = |p: Seq<char>| text_key(f(p));
        let to = texts(out@);
        assert forall|a: int, b: int| 0 <= a < b < to.len() implies lex_lt(key(#[trigger] to[a]), key(#[trigger] to[b])) by {
            assert(!lex_lt(sorted@[b].0@, sorted@[a].0@));
            assert(sorted@[a] != sorted@[b]);
            assert(pairs.contains(sorted@[a]));
            let qa = choose|q: int| 0 <= q < pairs.len() && pairs[q] == sorted@[a];
            assert(pairs.contains(sorted@[b]));
            let qb = choose|q: int| 0 <= q < pairs.len() && pairs[q] == sorted@[b];
            assert(qa != qb);
            if !lex_lt(text_key(f(to[a])), text_key(f(to[b]))) {
                lemma_lex_total(text_key(f(to[a])), text_key(f(to[b])), 0);
                assert(text_key(f(to[a])) =~= text_key(f(to[b])));
                lemma_text_key_injective(f(to[a]), f(to[b]));
                assert(pairs[qa].1@ == items@[qa]@);
                assert(pairs[qb].1@ == items@[qb]@);
                if qa < qb {
                    assert(f(items@[qa]@) != f(items@[qb]@));
                } else {
                    assert(f(items@[qb]@) != f(items@[qa]@));
                }
            }
        }
        assert forall|x: Seq<char>| #[trigger] to.to_set().contains(x) <==> texts(items@).to_set().contains(x) by {
            if to.to_set().contains(x) {
                assert(to.contains(x));
                let t = choose|t: int| 0 <= t < to.len() && to[t] == x;
                assert(pairs.contains(sorted@[t]));
                let q = choose|q: int| 0 <= q < pairs.len() && pairs[q] == sorted@[t];
                assert(pairs[q].1@ == items@[q]@);
                assert(texts(items@)[q] == x);
                assert(texts(items@).contains(x));
            }
            if texts(items@).to_set().contains(x) {
                assert(texts(items@).contains(x));
                let q = choose|q: int| 0 <= q < texts(items@).len() && texts(items@)[q] == x;
                assert(pairs[q].1@ == items@[q]@);
                assert(sorted@.contains(pairs[q]));
                let t = choose|t: int| 0 <= t < sorted@.len() && sorted@[t] == pairs[q];
                assert(to[t] == x);
                assert(to.contains(x));
            }
        }
        assert(to.to_set() =~= texts(items@).to_set());
        lemma_in_order(to, key);
    }
    out
}

/// The name of the entry at `p` (see [`name_of`]).
fn name_of_exec(p: &str) -> (r: String)
    ensures
        r@ == name_of(p@),
{
    match file_name_of(p) {
        Some(n) => n,
        None => String::new(),
    }
}

/// The subfolders and the notes among `kids`, with their names and stems,
/// in the order the listing has them.
fn split_kids(kids: &Vec<(String, bool)>) -> (r: (Vec<String>, Vec<String>, Vec<String>, Vec<String>))
    requires
        forall|i: int, j: int| 0 <= i < j < kids@.len() ==> #[trigger] name_of(kids@[i].0@) != #[trigger] name_of(kids@[j].0@),
    ensures
        r.1@.len() == r.0@.len(),
        forall|i: int| 0 <= i < r.0@.len() ==> #[trigger] r.1@[i]@ == name_of(r.0@[i]@),
        forall|i: int, j: int| 0 <= i < j < r.0@.len() ==> name_of(#[trigger] r.0@[i]@) != name_of(#[trigger] r.0@[j]@),
        texts(r.0@).to_set() == folder_kids(Seq::new(kids@.len(), |j: int| (kids@[j].0@, kids@[j].1))),
        r.3@.len() == r.2@.len(),
        forall|i: int| 0 <= i < r.2@.len() ==> #[trigger] r.3@[i]@ == file_stem(r.2@[i]@),
        forall|i: int, j: int| 0 <= i < j < r.2@.len() ==> file_stem(#[trigger] r.2@[i]@) != file_stem(#[trigger] r.2@[j]@),
        texts(r.2@).to_set() == note_kids(Seq::new(kids@.len(), |j: int| (kids@[j].0@, kids@[j].1))),
{
    let ghost kv = Seq::new(kids@.len(), |j: int| (kids@[j].0@, kids@[j].1));
    let mut dirs: Vec<String> = Vec::new();
    let mut names: Vec<String> = Vec::new();
    let mut notes: Vec<String> = Vec::new();
    let mut stems: Vec<String> = Vec::new();
    let ghost mut dorig: Seq<int> = seq![];
    let ghost mut norig: Seq<int> = seq![];
    let mut k: usize = 0;
    while k < kids.len()
        invariant
            k <= kids@.len(),
            kv == Seq::new(kids@.len(), |j: int| (kids@[j].0@, kids@[j].1)),
            forall|i: int, j: int| 0 <= i < j < kids@.len() ==> #[trigger] name_of(kids@[i].0@) != #[trigger] name_of(kids@[j].0@),
            names@.len() == dirs@.len(),
            dorig.len() == dirs@.len(),
            forall|i: int| 0 <= i < dirs@.len() ==> #[trigger] names@[i]@ == name_of(dirs@[i]@),
            forall|i: int| 0 <= i < dirs@.len() ==> 0 <= #[trigger] dorig[i] < k && kv[dorig[i]] == (dirs@[i]@, true),
            forall|i: int, j: int| 0 <= i < j < dirs@.len() ==> dorig[i] < dorig[j],
            forall|p: Seq<char>| texts(dirs@).contains(p) <==> exists|i: int| 0 <= i < k && #[trigger] kv[i] == (p, true),
            stems@.len() == notes@.len(),
            norig.len() == notes@.len(),
            forall|i: int| 0 <= i < notes@.len() ==> #[trigger] stems@[i]@ == file_stem(notes@[i]@),
            forall|i: int| 0 <= i < notes@.len() ==> 0 <= #[trigger] norig[i] < k && kv[norig[i]] == (notes@[i]@, false) && is_note(notes@[i]@),
            forall|i: int, j: int| 0 <= i < j < notes@.len() ==> norig[i] < norig[j],
            forall|p: Seq<char>| texts(notes@).contains(p) <==> exists|i: int| 0 <= i < k && #[trigger] kv[i] == (p, false) && is_note(p),
        decreases kids@.len() - k,
    {
        let p = &kids[k].0;
        assert(kv[k as int] == (p@, kids@[k as int].1));
        if kids[k].1 {
            let ghost before = texts(dirs@);
            let n = name_of_exec(p.as_str());
            names.push(n);
            dirs.push(p.clone());
            proof {
                dorig = dorig.push(k as int);
                assert(texts(dirs@) =~= before.push(p@));
                assert forall|q: Seq<char>| texts(dirs@).contains(q) <==> exists|i: int| 0 <= i < k + 1 && #[trigger] kv[i] == (q, true) by {
                    if texts(dirs@).contains(q) {
                        let t = choose|t: int| 0 <= t < texts(dirs@).len() && texts(dirs@)[t] == q;
                        if t < before.len() {
                            assert(before[t] == q);
                            assert(before.contains(q));
                        } else {
                            assert(kv[k as int] == (q, true));
                        }
                    }
                    if exists|i: int| 0 <= i < k + 1 && #[trigger] kv[i] == (q, true) {
                        let i = choose|i: int| 0 <= i < k + 1 && #[trigger] kv[i] == (q, true);
                        if i < k {
                            assert(before.contains(q));
                            let t = choose|t: int| 0 <= t < before.len() && before[t] == q;
                            assert(texts(dirs@)[t] == q);
                        } else {
                            assert(texts(dirs@)[before.len() as int] == q);
                        }
                    }
                }
            }
        } else if has_md_extension(p.as_str()) {
            let ghost before = texts(notes@);
            let st = file_stem_of(p.as_str());
            stems.push(st);
            notes.push(p.clone());
            proof {
                norig = norig.push(k as int);
                assert(texts(notes@) =~= before.push(p@));
                assert forall|q: Seq<char>| texts(notes@).contains(q) <==> exists|i: int| 0 <= i < k + 1 && #[trigger] kv[i] == (q, false) && is_note(q) by {
                    if texts(notes@).contains(q) {
                        let t = choose|t: int| 0 <= t < texts(notes@).len() && texts(notes@)[t] == q;
                        if t < before.len() {
                            assert(before[t] == q);
                            assert(before.contains(q));
                        } else {
                            assert(kv[k as int] == (q, false));
                        }
                    }
                    if exists|i: int| 0 <= i < k + 1 && #[trigger] kv[i] == (q, false) && is_note(q) {
                        let i = choose|i: int| 0 <= i < k + 1 && #[trigger] kv[i] == (q, false) && is_note(q);
                        if i < k {
                            assert(before.contains(q));
                            let t = choose|t: int| 0 <= t < before.len() && before[t] == q;
                            assert(texts(notes@)[t] == q);
                        } else {
                            assert(texts(notes@)[before.len() as int] == q);
                        }
                    }
                }
            }
        } else {
            proof {
                assert forall|q: Seq<char>| texts(dirs@).contains(q) <==> exists|i: int| 0 <= i < k + 1 && #[trigger] kv[i] == (q, true) by {
                    if exists|i: int| 0 <= i < k + 1 && #[trigger] kv[i] == (q, true) {
                        let i = choose|i: int| 0 <= i < k + 1 && #[trigger] kv[i] == (q, true);
                        assert(i < k);
                    }
                }
                assert forall|q: Seq<char>| texts(notes@).contains(q) <==> exists|i: int| 0 <= i < k + 1 && #[trigger] kv[i] == (q, false) && is_note(q) by {
                    if exists|i: int| 0 <= i < k + 1 && #[trigger] kv[i] == (q, false) && is_note(q) {
                        let i = choose|i: int| 0 <= i < k + 1 && #[trigger] kv[i] == (q, false) && is_note(q);
                        assert(i < k);
                    }
                }
            }
        }
        k = k + 1;
    }
    proof {
        assert forall|i: int, j: int| 0 <= i < j < dirs@.len() implies name_of(#[trigger] dirs@[i]@) != name_of(#[trigger] dirs@[j]@) by {
            assert(kv[dorig[i]].0 == kids@[dorig[i]].0@);
            assert(kv[dorig[j]].0 == kids@[dorig[j]].0@);
        }
        assert forall|i: int, j: int| 0 <= i < j < notes@.len() implies file_stem(#[trigger] notes@[i]@) != file_stem(#[trigger] notes@[j]@) by {
            assert(kv[norig[i]].0 == kids@[norig[i]].0@);
            assert(kv[norig[j]].0 == kids@[norig[j]].0@);
            lemma_note_name(notes@[i]@);
            lemma_note_name(notes@[j]@);
            if file_stem(notes@[i]@) == file_stem(notes@[j]@) {
                assert(name_of(notes@[i]@) == name_of(notes@[j]@));
            }
        }
        assert forall|q: Seq<char>| #[trigger] texts(dirs@).to_set().contains(q) <==> folder_kids(kv).contains(q) by {
            if folder_kids(kv).contains(q) {
                let i = choose|i: int| 0 <= i < kv.len() && #[trigger] kv[i] == (q, true);
                assert(texts(dirs@).contains(q));
            }
        }
        assert(texts(dirs@).to_set() =~= folder_kids(kv));
        assert forall|q: Seq<char>| #[trigger] texts(notes@).to_set().contains(q) <==> note_kids(kv).contains(q) by {
            if note_kids(kv).contains(q) {
                let i = choose|i: int| 0 <= i < kv.len() && #[trigger] kv[i] == (q, false) && is_note(q);
                assert(texts(notes@).contains(q));
            }
        }
        assert(texts(notes@).to_set() =~= note_kids(kv));
    }
    (dirs, names, notes, stems)
}

/// The path of `p` below `root`, or `p` itself when it is not below it.
fn rel_of(p: &str, root: &str) -> (r: String)
    ensures
        r@ == match strip_prefix(p@, root@) {
            Some(x) => x,
            None => p@,
        },
{
    let (pr, pp) = key_split(p);
    let (br, bp) = key_split(root);
    let ghost pv = views(pp@);
    let ghost bv = views(bp@);
    if pr != br || bp.len() > pp.len() {
        return p.to_owned();
    }
    let mut i: usize = 0;
    while i < bp.len()
        invariant
            bp@.len() <= pp@.len(),
            i <= bp@.len(),
            pv == views(pp@),
            bv == views(bp@),
            pv == key_parts(p@),
            bv == key_parts(root@),
            pr == is_rooted(p@),
            br == is_rooted(root@),
            pr == br,
            forall|j: int| 0 <= j < i ==> pv[j] == bv[j],
        decreases bp@.len() - i,
    {
        if !crate::tags::same_chars(&pp[i], &bp[i]) {
            assert(pv.take(bv.len() as int)[i as int] != bv[i as int]);
            return p.to_owned();
        }
        i = i + 1;
    }
    assert(pv.take(bv.len() as int) =~= bv);
    let mut rest: Vec<Vec<char>> = Vec::new();
    let mut j: usize = bp.len();
    while j < pp.len()
        invariant
            bp@.len() <= j <= pp@.len(),
            pv == views(pp@),
            views(rest@) == pv.subrange(bp@.len() as int, j as int),
        decreases pp@.len() - j,
    {
        let ghost before = views(rest@);
        rest.push(pp[j].clone());
        assert(views(rest@) =~= before.push(pv[j as int]));
        assert(pv.subrange(bp@.len() as int, j + 1) =~= pv.subrange(bp@.len() as int, j as int).push(pv[j as int]));
        j = j + 1;
    }
    assert(pv.subrange(bp@.len() as int, pv.len() as int) =~= pv.skip(bv.len() as int));
    let text = render_state(false, &rest);
    crate::text::string_of(text.as_slice())
}

/// The diagnostics table of the vault, empty without one.
pub open spec fn diag_map(diags: Option<&Diagnostics>) -> Map<Seq<char>, Seq<DiagView>> {
    match diags {
        Some(d) => d.table(),
        None => Map::empty(),
    }
}

/// Does the note at `p` have diagnostics (see [`flagged`])?
fn is_flagged(diags: Option<&Diagnostics>, p: &str, root: &str) -> (r: bool)
    ensures
        r == flagged(diag_map(diags), p@, root@),
{
    let rel = rel_of(p, root);
    match diags {
        Some(d) => {
            let found = d.get(rel.as_str());
            assert(crate::diagnostics::diag_views(found@).len() == found@.len());
            found.len() > 0
        },
        None => false,
    }
}

/// Is the folder `d` expanded?
fn is_open(expanded: &Vec<String>, d: &str) -> (r: bool)
    ensures
        r == open_keys(expanded@).contains(path_key(d@)),
{
    let key = path_key_of(d);
    let mut i: usize = 0;
    while i < expanded.len()
        invariant
            i <= expanded@.len(),
            key@ == path_key(d@),
            forall|j: int| 0 <= j < i ==> path_key(expanded@[j]@) != key@,
        decreases expanded@.len() - i,
    {
        let k = path_key_of(expanded[i].as_str());
        if k == key {
            assert(path_key(expanded@[i as int]@) == path_key(d@));
            return true;
        }
        i = i + 1;
    }
    false
}

/// Position of the folder `dir` in the listing (see [`row_from`]).
fn row_index(l: &Vec<(String, Vec<(String, bool)>)>, dir: &str) -> (r: Option<usize>)
    ensures
        match row_from(listing_view(l@), dir@, 0) {
            Some(i) => 0 <= i < l@.len() && r == Some(i as usize),
            None => r is None,
        },
        r matches Some(k) ==> row_from(listing_view(l@), dir@, 0) == Some(k as int),
{
    let key = path_key_of(dir);
    let ghost lv = listing_view(l@);
    let mut i: usize = 0;
    while i < l.len()
        invariant
            i <= l@.len(),
            lv == listing_view(l@),
            key@ == path_key(dir@),
            row_from(lv, dir@, 0) == row_from(lv, dir@, i as int),
        decreases l@.len() - i,
    {
        let k = path_key_of(l[i].0.as_str());
        assert(lv[i as int].0 == l@[i as int].0@);
        if k == key {
            return Some(i);
        }
        i = i + 1;
    }
    None
}

/// The label of a folder (see [`folder_label`]).
fn folder_label_of(open: bool, name: &str) -> (r: String)
    ensures
        r@ == folder_label(open, name@),
{
    let mut label = if open { String::from_str("📂 ") } else { String::from_str("📁 ") };
    crate::text::push_str(&mut label, name);
    label
}

/// The label of a note (see [`note_label`]).
fn note_label_of(marked: bool, stem: &str) -> (r: String)
    ensures
        r@ == note_label(marked, stem@),
{
    let mut label = if marked { String::from_str("⚠ ") } else { String::from_str("📄 ") };
    crate::text::push_str(&mut label, stem);
    label
}

/// The lines of the folder `dir` (see [`tree`]).
#[verifier::spinoff_prover]
#[verifier::rlimit(60)]
fn tree_of(
    l: &Vec<(String, Vec<(String, bool)>)>,
    dir: &str,
    root: &str,
    depth: usize,
    expanded: &Vec<String>,
    diags: Option<&Diagnostics>,
    fuel: usize,
) -> (r: Vec<FileEntry>)
    requires
        listing_wf(listing_view(l@)),
        depth + fuel <= usize::MAX,
    ensures
        entry_views(r@) == tree(listing_view(l@), dir@, root@, depth as nat, open_keys(expanded@), diag_map(diags), fuel as nat),
    decreases fuel,
{
    let ghost lv = listing_view(l@);
    let ghost open = open_keys(expanded@);
    let ghost dm = diag_map(diags);
    let mut out: Vec<FileEntry> = Vec::new();
    if fuel == 0 {
        assert(entry_views(out@) =~= seq![]);
        return out;
    }
    let found = row_index(l, dir);
    let i = match found {
        Some(i) => i,
        None => {
            assert(entry_views(out@) =~= seq![]);
            return out;
        },
    };
    let kids = &l[i].1;
    let ghost kv = Seq::new(kids@.len(), |j: int| (kids@[j].0@, kids@[j].1));
    assert(lv[i as int].1 =~= kv);
    proof {
        assert forall|a: int, b: int| 0 <= a < b < kids@.len() implies #[trigger] name_of(kids@[a].0@) != #[trigger] name_of(kids@[b].0@) by {
            assert(lv[i as int].1[a].0 == kids@[a].0@);
            assert(lv[i as int].1[b].0 == kids@[b].0@);
            assert(name_of(lv[i as int].1[a].0) != name_of(lv[i as int].1[b].0));
        }
    }
    let (dirs, names, notes, stems) = split_kids(kids);
    let ghost fname = |p: Seq<char>| name_of(p);
    let ghost fstem = |p: Seq<char>| file_stem(p);
    let ds = order_by_keys(&dirs, &names, Ghost(fname));
    let fs = order_by_keys(&notes, &stems, Ghost(fstem));
    let ghost dseq = in_order(folder_kids(kv), |p: Seq<char>| text_key(name_of(p)));
    let ghost fseq = in_order(note_kids(kv), |p: Seq<char>| text_key(file_stem(p)));
    assert((|p: Seq<char>| text_key(fname(p))) =~= (|p: Seq<char>| text_key(name_of(p))));
    assert((|p: Seq<char>| text_key(fstem(p))) =~= (|p: Seq<char>| text_key(file_stem(p))));
    assert(texts(ds@) == dseq);
    assert(texts(fs@) == fseq);
    let ghost sub = (fuel - 1) as nat;
    let mut k: usize = 0;
    while k < ds.len()
        invariant
            k <= ds@.len(),
            texts(ds@) == dseq,
            lv == listing_view(l@),
            open == open_keys(expanded@),
            dm == diag_map(diags),
            listing_wf(lv),
            fuel > 0,
            sub == fuel - 1,
            depth + fuel <= usize::MAX,
            entry_views(out@) == folder_lines(lv, dseq.take(k as int), root@, depth as nat, open, dm, sub),
        decreases ds@.len() - k,
    {
        let d = &ds[k];
        assert(dseq[k as int] == d@);
        assert(dseq.take(k + 1).drop_last() =~= dseq.take(k as int));
        assert(dseq.take(k + 1).last() == d@);
        let is_exp = is_open(expanded, d.as_str());
        let name = name_of_exec(d.as_str());
        let label = folder_label_of(is_exp, name.as_str());
        let ghost before = entry_views(out@);
        let e = FileEntry { label, path: d.clone(), depth, is_dir: true };
        let ghost ev = e@;
        out.push(e);
        assert(entry_views(out@) =~= before + seq![ev]);
        if is_exp {
            let below = tree_of(l, d.as_str(), root, depth + 1, expanded, diags, fuel - 1);
            let ghost mid = entry_views(out@);
            let mut t: usize = 0;
            while t < below.len()
                invariant
                    t <= below@.len(),
                    entry_views(out@) == mid + entry_views(below@).take(t as int),
                decreases below@.len() - t,
            {
                let ghost b2 = entry_views(out@);
                let x = FileEntry {
                    label: below[t].label.clone(),
                    path: below[t].path.clone(),
                    depth: below[t].depth,
                    is_dir: below[t].is_dir,
                };
                let ghost xv = x@;
                out.push(x);
                assert(entry_views(out@) =~= b2.push(xv));
                assert(entry_views(out@) =~= mid + entry_views(below@).take(t + 1));
                t = t + 1;
            }
            assert(entry_views(below@).take(t as int) =~= entry_views(below@));
        }
        k = k + 1;
    }
    assert(dseq.take(ds@.len() as int) =~= dseq);
    let ghost folders = entry_views(out@);
    let mut m: usize = 0;
    while m < fs.len()
        invariant
            m <= fs@.len(),
            texts(fs@) == fseq,
            dm == diag_map(diags),
            entry_views(out@) == folders + note_lines(fseq.take(m as int), root@, depth as nat, dm),
        decreases fs@.len() - m,
    {
        let f = &fs[m];
        assert(fseq[m as int] == f@);
        let marked = is_flagged(diags, f.as_str(), root);
        let stem = file_stem_of(f.as_str());
        let label = note_label_of(marked, stem.as_str());
        let ghost before = entry_views(out@);
        let e = FileEntry { label, path: f.clone(), depth, is_dir: false };
        let ghost ev = e@;
        out.push(e);
        assert(entry_views(out@) =~= before.push(ev));
        assert(note_lines(fseq.take(m + 1), root@, depth as nat, dm) =~= note_lines(fseq.take(m as int), root@, depth as nat, dm).push(ev));
        m = m + 1;
    }
    assert(fseq.take(fs@.len() as int) =~= fseq);
    assert(lv[i as int].1 == kv);
    assert(tree(lv, dir@, root@, depth as nat, open, dm, fuel as nat)
        == folder_lines(lv, dseq, root@, depth as nat, open, dm, sub) + note_lines(fseq, root@, depth as nat, dm));
    out
}

/// The lines of the project panel for the folder `dir` at `depth` (the
/// vault's root at depth 0): its subfolders by name, each followed by its
/// own lines when it is expanded, then its notes by stem, marked when the
/// vault's diagnostics hold some for them. The folders are looked up in
/// `listing`, what the window read of them; a folder it does not hold has
/// no lines.
pub fn collect_files(
    listing: &Vec<(String, Vec<(String, bool)>)>,
    dir: &str,
    vault_root: &str,
    depth: usize,
    expanded: &Vec<String>,
    diagnostics: Option<&Diagnostics>,
) -> (r: Vec<FileEntry>)
    requires
        listing_wf(listing_view(listing@)),
        depth + listing@.len() <= usize::MAX,
    ensures
        entry_views(r@) == tree(
            listing_view(listing@),
            dir@,
            vault_root@,
            depth as nat,
            open_keys(expanded@),
            diag_map(diagnostics),
            listing@.len(),
        ),
{
    tree_of(listing, dir, vault_root, depth, expanded, diagnostics, listing.len())
}

} // verus!
