//! What a change on disk does to the vault: which notes a file-system
//! event concerns, and how the indexes and the editing buffer follow a note
//! that was written or removed. Watching the disk and reading the notes is
//! left to the program.
use vstd::prelude::*;
use crate::paths::{extension, has_md_extension, path_key, file_stem, file_stem_of};
use crate::buffer::Buffer;
use crate::index::ConcurrentIndex;
use crate::names::FilenameIndex;
use crate::tags::{TagView, strip_note, add_tags, tag_entries, with_span, drop_path, has_path, find_path, lemma_find_path};
use crate::dates::{strip_date_note, add_dates, date_entries};
use crate::date::Date;
use crate::links::{LinkView, strip_targets, entries_at, add_targets, add_sources, drop_source, touches, paired, table_wf, law_add_keeps_pairs, law_remove_keeps_pairs, lemma_drop_source_contains};
use crate::index::link_entries;
use crate::parser::{tags_from, dates_from, links_from};
use crate::diagnostics::file_diagnostics;
use vstd::utf8::encode_utf8;

verus! {

/// A change to a note of the vault.
#[derive(Clone, Debug)]
pub enum VaultEvent {
    FileCreated(String),
    FileModified(String),
    FileDeleted(String),
    FileRenamed(String, String),
}

/// A change as plain values.
pub ghost enum VaultEventView {
    FileCreated(Seq<char>),
    FileModified(Seq<char>),
    FileDeleted(Seq<char>),
    FileRenamed(Seq<char>, Seq<char>),
}

impl View for VaultEvent {
    type V = VaultEventView;

    open spec fn view(&self) -> VaultEventView {
        match self {
            VaultEvent::FileCreated(p) => VaultEventView::FileCreated(p@),
            VaultEvent::FileModified(p) => VaultEventView::FileModified(p@),
            VaultEvent::FileDeleted(p) => VaultEventView::FileDeleted(p@),
            VaultEvent::FileRenamed(a, b) => VaultEventView::FileRenamed(a@, b@),
        }
    }
}

/// The kind of a file-system event (notify's `EventKind`, as far as the
/// vault tells kinds apart).
#[derive(Clone, Copy, Debug, PartialEq, Eq, Structural)]
pub enum ChangeKind {
    Create,
    Modify,
    Remove,
    Other,
}

/// Is the file at `path` a note (its extension is `md`)?
pub open spec fn is_note(path: Seq<char>) -> bool {
    extension(path) == Some(seq!['m', 'd'])
}

/// The changes to notes that an event of kind `kind` on `paths` makes,
/// path after path; other files, and other kinds, make none.
pub open spec fn planned(kind: ChangeKind, paths: Seq<Seq<char>>) -> Seq<VaultEventView>
    decreases paths.len(),
{
    if paths.len() == 0 {
        seq![]
    } else {
        let p = paths.last();
        let rest = planned(kind, paths.drop_last());
        if !is_note(p) {
            rest
        } else {
            match kind {
                ChangeKind::Create => rest.push(VaultEventView::FileCreated(p)),
                ChangeKind::Modify => rest.push(VaultEventView::FileModified(p)),
                ChangeKind::Remove => rest.push(VaultEventView::FileDeleted(p)),
                ChangeKind::Other => rest,
            }
        }
    }
}

/// The changes as plain values.
pub open spec fn event_views(v: Seq<VaultEvent>) -> Seq<VaultEventView> {
    Seq::new(v.len(), |i: int| v[i]@)
}

/// The changes to notes that an event of kind `kind` on `paths` makes (see
/// [`planned`]): a created or modified note is read and indexed anew, a
/// removed one is forgotten.
pub fn plan_event(kind: ChangeKind, paths: &Vec<String>) -> (r: Vec<VaultEvent>)
    ensures
        event_views(r@) == planned(kind, Seq::new(paths@.len(), |i: int| paths@[i]@)),
{
    let ghost ps = Seq::new(paths@.len(), |i: int| paths@[i]@);
    let mut r: Vec<VaultEvent> = Vec::new();
    let mut i: usize = 0;
    while i < paths.len()
        invariant
            i <= paths@.len(),
            ps == Seq::new(paths@.len(), |i: int| paths@[i]@),
            event_views(r@) == planned(kind, ps.take(i as int)),
        decreases paths@.len() - i,
    {
        let p = &paths[i];
        let ghost before = event_views(r@);
        assert(ps.take(i + 1).drop_last() =~= ps.take(i as int));
        assert(ps.take(i + 1).last() == p@);
        if has_md_extension(p.as_str()) {
            match kind {
                ChangeKind::Create => {
                    let e = VaultEvent::FileCreated(p.clone());
                    let ghost ev = e@;
                    r.push(e);
                    assert(event_views(r@) =~= before.push(ev));
                },
                ChangeKind::Modify => {
                    let e = VaultEvent::FileModified(p.clone());
                    let ghost ev = e@;
                    r.push(e);
                    assert(event_views(r@) =~= before.push(ev));
                },
                ChangeKind::Remove => {
                    let e = VaultEvent::FileDeleted(p.clone());
                    let ghost ev = e@;
                    r.push(e);
                    assert(event_views(r@) =~= before.push(ev));
                },
                ChangeKind::Other => {},
            }
        }
        i = i + 1;
    }
    assert(ps.take(ps.len() as int) =~= ps);
    r
}

/// `after` is `before` with the note at `path`, of bytes `b`, indexed
/// anew through the file-name index `names` (what
/// [`ConcurrentIndex::reindex_file`] promises).
pub open spec fn reindexed(before: ConcurrentIndex, after: ConcurrentIndex, path: Seq<char>, b: Seq<u8>, names: FilenameIndex) -> bool {
    let p = path_key(path);
    let es = link_entries(path, links_from(b, 0), names);
    &&& after.tags.tags() == add_tags(strip_note(before.tags.tags(), p), path, tags_from(b, 0))
    &&& after.dates.dates() == add_dates(strip_date_note(before.dates.dates(), p), path, dates_from(b, 0))
    &&& after.links.targets() == add_targets(strip_targets(before.links.targets(), entries_at(before.links.sources(), p), p), es)
    &&& after.links.sources() == add_sources(before.links.sources().remove(p), es)
    &&& after.diagnostics.table() == before.diagnostics.table().insert(p, file_diagnostics(path, b, names))
    &&& after.states() == before.states().insert(
        p,
        (
            Seq::new(tags_from(b, 0).len(), |i: int| tags_from(b, 0)[i].0),
            Seq::new(dates_from(b, 0).len(), |i: int| dates_from(b, 0)[i].0),
        ),
    )
}

/// Follows a note written on disk with text `content`: the buffer, if it
/// holds the note, takes the new text, and the note is indexed anew with a
/// file-name index that knows only the note itself.
pub fn refresh_file(index: &mut ConcurrentIndex, buffer: &mut Buffer, vault_path: &str, path: &str, content: String)
    requires
        old(index).wf(),
        old(buffer).wf(),
        encode_utf8(content@).len() < usize::MAX,
    ensures
        final(index).wf(),
        final(buffer).wf(),
        final(buffer)@ == if old(buffer)@.contains_key(path_key(path@)) {
            old(buffer)@.insert(path_key(path@), (content@, old(buffer)@[path_key(path@)].1, content@ != old(buffer)@[path_key(path@)].1))
        } else {
            old(buffer)@
        },
        exists|names: FilenameIndex| {
            &&& forall|k: Seq<char>| #[trigger] names.lookup(k) == if k == file_stem(path@) { seq![path@] } else { seq![] }
            &&& reindexed(*old(index), *final(index), path@, encode_utf8(content@), names)
        },
{
    if buffer.get(path).is_some() {
        buffer.update(path, content.clone());
    }
    let mut names = FilenameIndex::new();
    let stem = file_stem_of(path);
    names.add(stem, path.to_owned());
    let ghost before = *index;
    let text = content.as_str();
    index.reindex_file(path, text, vault_path, &names);
    assert(forall|k: Seq<char>| #[trigger] names.lookup(k) == if k == file_stem(path@) { seq![path@] } else { seq![] });
    assert(reindexed(before, *index, path@, encode_utf8(content@), names));
}

/// Follows a note removed from disk: its tags, dates, links and
/// diagnostics are forgotten, and the buffer lets go of it.
pub fn forget_file(index: &mut ConcurrentIndex, buffer: &mut Buffer, path: &str)
    requires
        old(index).wf(),
        old(buffer).wf(),
    ensures
        final(index).wf(),
        final(index).tags.tags() == strip_note(old(index).tags.tags(), path_key(path@)),
        final(index).dates.dates() == strip_date_note(old(index).dates.dates(), path_key(path@)),
        final(index).links.targets() == strip_targets(
            old(index).links.targets(),
            entries_at(old(index).links.sources(), path_key(path@)),
            path_key(path@),
        ),
        final(index).links.sources() == old(index).links.sources().remove(path_key(path@)),
        final(index).diagnostics.table() == old(index).diagnostics.table().remove(path_key(path@)),
        final(index).states() == old(index).states(),
        final(buffer).wf(),
        final(buffer)@ == old(buffer)@.remove(path_key(path@)),
{
    let ghost p = path_key(path@);
    let ghost old_tags = index.tags.tags();
    let ghost old_dates = index.dates.dates();
    let ghost old_t = index.links.targets();
    let ghost old_s = index.links.sources();
    index.tags.remove_file(path);
    assert(index.tags.tags() =~= strip_note(old_tags, p));
    index.dates.remove_file(path);
    assert(index.dates.dates() =~= strip_date_note(old_dates, p));
    index.links.remove_file(path);
    assert(index.links.targets() =~= strip_targets(old_t, entries_at(old_s, p), p));
    index.diagnostics.remove(path);
    if buffer.get(path).is_some() {
        buffer.close(path);
    } else {
        assert(buffer@.remove(path_key(path@)) =~= buffer@);
    }
}


/// The entries of `es` that belong to the note with key `q`.
pub open spec fn only_path(es: Seq<TagView>, q: Seq<char>) -> Seq<TagView>
    decreases es.len(),
{
    if es.len() == 0 {
        es
    } else if path_key(es.last().0) == q {
        only_path(es.drop_last(), q).push(es.last())
    } else {
        only_path(es.drop_last(), q)
    }
}

/// The links of `es` whose source is the note with key `q`.
pub open spec fn only_source(es: Seq<LinkView>, q: Seq<char>) -> Seq<LinkView>
    decreases es.len(),
{
    if es.len() == 0 {
        es
    } else if path_key(es.last().0) == q {
        only_source(es.drop_last(), q).push(es.last())
    } else {
        only_source(es.drop_last(), q)
    }
}

/// The value under `k`, if any.
pub open spec fn at<K, V>(m: Map<K, V>, k: K) -> Option<V> {
    if m.contains_key(k) { Some(m[k]) } else { None }
}

/// Does the note with key `q` look the same in the indexes `a` and `b`:
/// the same entries under every tag and date, the same links out of it,
/// the same links from it under every target, the same diagnostics and the
/// same recorded state?
pub open spec fn same_note(a: ConcurrentIndex, b: ConcurrentIndex, q: Seq<char>) -> bool {
    &&& forall|k: Seq<char>| #[trigger] only_path(tag_entries(b.tags.tags(), k), q) == only_path(tag_entries(a.tags.tags(), k), q)
    &&& forall|d: Date| #[trigger] only_path(date_entries(b.dates.dates(), d), q) == only_path(date_entries(a.dates.dates(), d), q)
    &&& entries_at(b.links.sources(), q) == entries_at(a.links.sources(), q)
    &&& forall|k: Seq<char>| #[trigger] only_source(entries_at(b.links.targets(), k), q) == only_source(entries_at(a.links.targets(), k), q)
    &&& at(b.diagnostics.table(), q) == at(a.diagnostics.table(), q)
    &&& at(b.states(), q) == at(a.states(), q)
}

proof fn lemma_only_drop(es: Seq<TagView>, p: Seq<char>, q: Seq<char>)
    requires
        p != q,
    ensures
        only_path(drop_path(es, p), q) == only_path(es, q),
    decreases es.len(),
{
    if es.len() > 0 {
        lemma_only_drop(es.drop_last(), p, q);
        let d = drop_path(es.drop_last(), p);
        if path_key(es.last().0) != p {
            assert(d.push(es.last()).drop_last() =~= d);
        }
    }
}

proof fn lemma_only_push_other(es: Seq<TagView>, x: TagView, q: Seq<char>)
    requires
        path_key(x.0) != q,
    ensures
        only_path(es.push(x), q) == only_path(es, q),
{
    assert(es.push(x).drop_last() =~= es);
}

proof fn lemma_only_update_other(es: Seq<TagView>, i: int, x: TagView, q: Seq<char>)
    requires
        0 <= i < es.len(),
        path_key(x.0) == path_key(es[i].0),
        path_key(x.0) != q,
    ensures
        only_path(es.update(i, x), q) == only_path(es, q),
    decreases es.len(),
{
    let u = es.update(i, x);
    if i == es.len() - 1 {
        assert(u.drop_last() =~= es.drop_last());
    } else {
        lemma_only_update_other(es.drop_last(), i, x, q);
        assert(u.drop_last() =~= es.drop_last().update(i, x));
        assert(u.last() == es.last());
    }
}

proof fn lemma_only_with_span(es: Seq<TagView>, path: Seq<char>, sp: crate::model::ByteSpan, q: Seq<char>)
    requires
        path_key(path) != q,
    ensures
        only_path(with_span(es, path, sp), q) == only_path(es, q),
{
    let i = find_path(es, path_key(path), es.len() as int);
    lemma_find_path(es, path_key(path), es.len() as int);
    if i >= 0 {
        lemma_only_update_other(es, i, (es[i].0, es[i].1.push(sp)), q);
    } else {
        lemma_only_push_other(es, (path, seq![sp]), q);
    }
}

proof fn lemma_only_strip(m: Map<Seq<char>, Seq<TagView>>, p: Seq<char>, q: Seq<char>, k: Seq<char>)
    requires
        p != q,
    ensures
        only_path(tag_entries(strip_note(m, p), k), q) == only_path(tag_entries(m, k), q),
{
    if m.contains_key(k) {
        lemma_only_drop(m[k], p, q);
        if has_path(m[k], p) && drop_path(m[k], p).len() == 0 {
            assert(only_path(drop_path(m[k], p), q) =~= Seq::<TagView>::empty()) by {
                assert(drop_path(m[k], p) =~= Seq::<TagView>::empty());
            }
        }
    }
}

proof fn lemma_only_add_tags(m: Map<Seq<char>, Seq<TagView>>, path: Seq<char>, ts: Seq<(Seq<char>, crate::model::ByteSpan)>, q: Seq<char>, k: Seq<char>)
    requires
        path_key(path) != q,
    ensures
        only_path(tag_entries(add_tags(m, path, ts), k), q) == only_path(tag_entries(m, k), q),
    decreases ts.len(),
{
    if ts.len() > 0 {
        lemma_only_add_tags(m, path, ts.drop_last(), q, k);
        let m0 = add_tags(m, path, ts.drop_last());
        if ts.last().0 == k {
            lemma_only_with_span(tag_entries(m0, k), path, ts.last().1, q);
        }
    }
}

proof fn lemma_only_strip_dates(m: Map<Date, Seq<TagView>>, p: Seq<char>, q: Seq<char>, k: Date)
    requires
        p != q,
    ensures
        only_path(date_entries(strip_date_note(m, p), k), q) == only_path(date_entries(m, k), q),
{
    if m.contains_key(k) {
        lemma_only_drop(m[k], p, q);
        if has_path(m[k], p) && drop_path(m[k], p).len() == 0 {
            assert(only_path(drop_path(m[k], p), q) =~= Seq::<TagView>::empty()) by {
                assert(drop_path(m[k], p) =~= Seq::<TagView>::empty());
            }
        }
    }
}

proof fn lemma_only_add_dates(m: Map<Date, Seq<TagView>>, path: Seq<char>, ds: Seq<(Date, Seq<char>, crate::model::ByteSpan)>, q: Seq<char>, k: Date)
    requires
        path_key(path) != q,
    ensures
        only_path(date_entries(add_dates(m, path, ds), k), q) == only_path(date_entries(m, k), q),
    decreases ds.len(),
{
    if ds.len() > 0 {
        lemma_only_add_dates(m, path, ds.drop_last(), q, k);
        let m0 = add_dates(m, path, ds.drop_last());
        if ds.last().0 == k {
            lemma_only_with_span(date_entries(m0, k), path, ds.last().2, q);
        }
    }
}

proof fn lemma_sources_other(s: Map<Seq<char>, Seq<LinkView>>, es: Seq<LinkView>, p: Seq<char>, q: Seq<char>)
    requires
        p != q,
        forall|i: int| 0 <= i < es.len() ==> path_key(#[trigger] es[i].0) == p,
    ensures
        entries_at(add_sources(s, es), q) == entries_at(s, q),
    decreases es.len(),
{
    if es.len() > 0 {
        lemma_sources_other(s, es.drop_last(), p, q);
        assert(path_key(es[es.len() - 1].0) == p);
    }
}

proof fn lemma_only_source_drop(es: Seq<LinkView>, p: Seq<char>, q: Seq<char>)
    requires
        p != q,
    ensures
        only_source(drop_source(es, p), q) == only_source(es, q),
    decreases es.len(),
{
    if es.len() > 0 {
        lemma_only_source_drop(es.drop_last(), p, q);
        let d = drop_source(es.drop_last(), p);
        if path_key(es.last().0) != p {
            assert(d.push(es.last()).drop_last() =~= d);
        }
    }
}

proof fn lemma_targets_other(t: Map<Seq<char>, Seq<LinkView>>, es: Seq<LinkView>, p: Seq<char>, q: Seq<char>, k: Seq<char>)
    requires
        p != q,
        forall|i: int| 0 <= i < es.len() ==> path_key(#[trigger] es[i].0) == p,
    ensures
        only_source(entries_at(add_targets(t, es), k), q) == only_source(entries_at(t, k), q),
    decreases es.len(),
{
    if es.len() > 0 {
        lemma_targets_other(t, es.drop_last(), p, q, k);
        let t0 = add_targets(t, es.drop_last());
        let x = es.last();
        assert(path_key(es[es.len() - 1].0) == p);
        if path_key(x.1) == k {
            let prev = entries_at(t0, k);
            assert(prev.push(x).drop_last() =~= prev);
        }
    }
}

proof fn lemma_targets_strip(t: Map<Seq<char>, Seq<LinkView>>, srcs: Seq<LinkView>, p: Seq<char>, q: Seq<char>, k: Seq<char>)
    requires
        p != q,
    ensures
        only_source(entries_at(strip_targets(t, srcs, p), k), q) == only_source(entries_at(t, k), q),
{
    if t.contains_key(k) && touches(srcs, k) {
        lemma_only_source_drop(t[k], p, q);
        if drop_source(t[k], p).len() == 0 {
            assert(drop_source(t[k], p) =~= Seq::<LinkView>::empty());
        }
    }
}

/// Indexing a note anew leaves every other note as it was: its entries
/// under each tag and date, its links out and in, its diagnostics and its
/// recorded state (see [`same_note`]).
pub proof fn law_reindex_keeps_other_notes(
    before: ConcurrentIndex,
    after: ConcurrentIndex,
    path: Seq<char>,
    b: Seq<u8>,
    names: FilenameIndex,
    q: Seq<char>,
)
    requires
        reindexed(before, after, path, b, names),
        path_key(path) != q,
    ensures
        same_note(before, after, q),
{
    let p = path_key(path);
    let es = link_entries(path, links_from(b, 0), names);
    assert forall|i: int| 0 <= i < es.len() implies path_key(#[trigger] es[i].0) == p by {}
    assert forall|k: Seq<char>| #[trigger] only_path(tag_entries(after.tags.tags(), k), q) == only_path(tag_entries(before.tags.tags(), k), q) by {
        lemma_only_add_tags(strip_note(before.tags.tags(), p), path, tags_from(b, 0), q, k);
        lemma_only_strip(before.tags.tags(), p, q, k);
    }
    assert forall|d: Date| #[trigger] only_path(date_entries(after.dates.dates(), d), q) == only_path(date_entries(before.dates.dates(), d), q) by {
        lemma_only_add_dates(strip_date_note(before.dates.dates(), p), path, dates_from(b, 0), q, d);
        lemma_only_strip_dates(before.dates.dates(), p, q, d);
    }
    lemma_sources_other(before.links.sources().remove(p), es, p, q);
    assert forall|k: Seq<char>| #[trigger] only_source(entries_at(after.links.targets(), k), q) == only_source(entries_at(before.links.targets(), k), q) by {
        let st = strip_targets(before.links.targets(), entries_at(before.links.sources(), p), p);
        lemma_targets_other(st, es, p, q, k);
        lemma_targets_strip(before.links.targets(), entries_at(before.links.sources(), p), p, q, k);
    }
}


proof fn lemma_only_none(es: Seq<TagView>, p: Seq<char>)
    requires
        forall|j: int| 0 <= j < es.len() ==> path_key(#[trigger] es[j].0) != p,
    ensures
        only_path(es, p) == Seq::<TagView>::empty(),
    decreases es.len(),
{
    if es.len() > 0 {
        assert(path_key(es[es.len() - 1].0) != p);
        lemma_only_none(es.drop_last(), p);
    }
}

proof fn lemma_only_first(es: Seq<TagView>, p: Seq<char>, i: int, x: TagView)
    requires
        0 <= i < es.len(),
        path_key(es[i].0) == p,
        path_key(x.0) == p,
        forall|j: int| 0 <= j < i ==> path_key(#[trigger] es[j].0) != p,
    ensures
        only_path(es, p).len() > 0,
        only_path(es, p)[0] == es[i],
        only_path(es.update(i, x), p) == only_path(es, p).update(0, x),
    decreases es.len(),
{
    let d = es.drop_last();
    let u = es.update(i, x);
    if i == es.len() - 1 {
        lemma_only_none(d, p);
        assert(u.drop_last() =~= d);
        assert(only_path(es, p) =~= seq![es[i]]);
        assert(only_path(u, p) =~= seq![x]);
    } else {
        lemma_only_first(d, p, i, x);
        assert(u.drop_last() =~= d.update(i, x));
        assert(u.last() == es.last());
        let o = only_path(d, p);
        if path_key(es.last().0) == p {
            assert(only_path(u, p) =~= o.update(0, x).push(es.last()));
            assert(o.push(es.last()).update(0, x) =~= o.update(0, x).push(es.last()));
        }
    }
}

proof fn lemma_only_with_span_same(es: Seq<TagView>, path: Seq<char>, sp: crate::model::ByteSpan)
    ensures
        only_path(with_span(es, path, sp), path_key(path)) == with_span(only_path(es, path_key(path)), path, sp),
{
    let p = path_key(path);
    let i = find_path(es, p, es.len() as int);
    lemma_find_path(es, p, es.len() as int);
    let o = only_path(es, p);
    if i >= 0 {
        lemma_only_first(es, p, i, (es[i].0, es[i].1.push(sp)));
        lemma_find_path(o, p, o.len() as int);
        let j = find_path(o, p, o.len() as int);
        if j != 0 {
            assert(path_key(o[0].0) == p);
        }
    } else {
        lemma_only_none(es, p);
        assert(es.push((path, seq![sp])).drop_last() =~= es);
        lemma_find_path(o, p, 0);
    }
}

proof fn lemma_only_stripped(m: Map<Seq<char>, Seq<TagView>>, p: Seq<char>, k: Seq<char>)
    ensures
        only_path(tag_entries(strip_note(m, p), k), p) == Seq::<TagView>::empty(),
{
    if strip_note(m, p).contains_key(k) {
        if has_path(m[k], p) {
            crate::tags::lemma_drop_path_gone(m[k], p);
        }
        let e = strip_note(m, p)[k];
        assert forall|j: int| 0 <= j < e.len() implies path_key(#[trigger] e[j].0) != p by {
            if path_key(e[j].0) == p {
                assert(has_path(e, p));
            }
        }
        lemma_only_none(e, p);
    }
}

proof fn lemma_only_stripped_dates(m: Map<Date, Seq<TagView>>, p: Seq<char>, k: Date)
    ensures
        only_path(date_entries(strip_date_note(m, p), k), p) == Seq::<TagView>::empty(),
{
    if strip_date_note(m, p).contains_key(k) {
        if has_path(m[k], p) {
            crate::tags::lemma_drop_path_gone(m[k], p);
        }
        let e = strip_date_note(m, p)[k];
        assert forall|j: int| 0 <= j < e.len() implies path_key(#[trigger] e[j].0) != p by {
            if path_key(e[j].0) == p {
                assert(has_path(e, p));
            }
        }
        lemma_only_none(e, p);
    }
}

proof fn lemma_proj_add_tags(
    m1: Map<Seq<char>, Seq<TagView>>,
    m2: Map<Seq<char>, Seq<TagView>>,
    path: Seq<char>,
    ts: Seq<(Seq<char>, crate::model::ByteSpan)>,
    k: Seq<char>,
)
    requires
        forall|t: Seq<char>| #[trigger] only_path(tag_entries(m1, t), path_key(path)) == only_path(tag_entries(m2, t), path_key(path)),
    ensures
        only_path(tag_entries(add_tags(m1, path, ts), k), path_key(path)) == only_path(tag_entries(add_tags(m2, path, ts), k), path_key(path)),
    decreases ts.len(),
{
    if ts.len() > 0 {
        lemma_proj_add_tags(m1, m2, path, ts.drop_last(), k);
        if ts.last().0 == k {
            let a1 = add_tags(m1, path, ts.drop_last());
            let a2 = add_tags(m2, path, ts.drop_last());
            lemma_only_with_span_same(tag_entries(a1, k), path, ts.last().1);
            lemma_only_with_span_same(tag_entries(a2, k), path, ts.last().1);
        }
    }
}

proof fn lemma_proj_add_dates(
    m1: Map<Date, Seq<TagView>>,
    m2: Map<Date, Seq<TagView>>,
    path: Seq<char>,
    ds: Seq<(Date, Seq<char>, crate::model::ByteSpan)>,
    k: Date,
)
    requires
        forall|t: Date| #[trigger] only_path(date_entries(m1, t), path_key(path)) == only_path(date_entries(m2, t), path_key(path)),
    ensures
        only_path(date_entries(add_dates(m1, path, ds), k), path_key(path)) == only_path(date_entries(add_dates(m2, path, ds), k), path_key(path)),
    decreases ds.len(),
{
    if ds.len() > 0 {
        lemma_proj_add_dates(m1, m2, path, ds.drop_last(), k);
        if ds.last().0 == k {
            let a1 = add_dates(m1, path, ds.drop_last());
            let a2 = add_dates(m2, path, ds.drop_last());
            lemma_only_with_span_same(date_entries(a1, k), path, ds.last().2);
            lemma_only_with_span_same(date_entries(a2, k), path, ds.last().2);
        }
    }
}


proof fn lemma_only_source_none(es: Seq<LinkView>, p: Seq<char>)
    requires
        forall|j: int| 0 <= j < es.len() ==> path_key(#[trigger] es[j].0) != p,
    ensures
        only_source(es, p) == Seq::<LinkView>::empty(),
    decreases es.len(),
{
    if es.len() > 0 {
        assert(path_key(es[es.len() - 1].0) != p);
        lemma_only_source_none(es.drop_last(), p);
    }
}

proof fn lemma_sources_same(s: Map<Seq<char>, Seq<LinkView>>, es: Seq<LinkView>, p: Seq<char>)
    requires
        forall|i: int| 0 <= i < es.len() ==> path_key(#[trigger] es[i].0) == p,
    ensures
        entries_at(add_sources(s, es), p) == entries_at(s, p) + es,
    decreases es.len(),
{
    if es.len() == 0 {
        assert(entries_at(s, p) + es =~= entries_at(s, p));
    } else {
        lemma_sources_same(s, es.drop_last(), p);
        assert(path_key(es[es.len() - 1].0) == p);
        assert(entries_at(s, p) + es.drop_last() + seq![es.last()] =~= entries_at(s, p) + es);
    }
}

/// With the two link maps paired, taking out the links of the note with
/// key `p` leaves no link from it under any target.
proof fn lemma_targets_stripped(t: Map<Seq<char>, Seq<LinkView>>, s: Map<Seq<char>, Seq<LinkView>>, p: Seq<char>, k: Seq<char>)
    requires
        table_wf(t, true),
        paired(t, s),
    ensures
        only_source(entries_at(strip_targets(t, entries_at(s, p), p), k), p) == Seq::<LinkView>::empty(),
{
    let srcs = entries_at(s, p);
    let st = strip_targets(t, srcs, p);
    if st.contains_key(k) {
        let e = st[k];
        assert forall|j: int| 0 <= j < e.len() implies path_key(#[trigger] e[j].0) != p by {
            if touches(srcs, k) {
                lemma_drop_source_contains(t[k], p, e[j]);
                assert(e.contains(e[j]));
            } else if path_key(e[j].0) == p {
                assert(t.contains_key(k));
                assert(path_key(t[k][j].1) == k);
                assert(s.contains_key(p) && s[p].contains(t[k][j]));
                let i = choose|i: int| 0 <= i < s[p].len() && s[p][i] == t[k][j];
                assert(path_key(srcs[i].1) == k);
            }
        }
        lemma_only_source_none(e, p);
    }
}

proof fn lemma_proj_add_targets(t1: Map<Seq<char>, Seq<LinkView>>, t2: Map<Seq<char>, Seq<LinkView>>, es: Seq<LinkView>, p: Seq<char>, k: Seq<char>)
    requires
        forall|j: Seq<char>| #[trigger] only_source(entries_at(t1, j), p) == only_source(entries_at(t2, j), p),
        forall|i: int| 0 <= i < es.len() ==> path_key(#[trigger] es[i].0) == p,
    ensures
        only_source(entries_at(add_targets(t1, es), k), p) == only_source(entries_at(add_targets(t2, es), k), p),
    decreases es.len(),
{
    if es.len() > 0 {
        lemma_proj_add_targets(t1, t2, es.drop_last(), p, k);
        let x = es.last();
        assert(path_key(es[es.len() - 1].0) == p);
        if path_key(x.1) == k {
            let a1 = entries_at(add_targets(t1, es.drop_last()), k);
            let a2 = entries_at(add_targets(t2, es.drop_last()), k);
            assert(a1.push(x).drop_last() =~= a1);
            assert(a2.push(x).drop_last() =~= a2);
        }
    }
}

proof fn lemma_pairs_add(t: Map<Seq<char>, Seq<LinkView>>, s: Map<Seq<char>, Seq<LinkView>>, es: Seq<LinkView>)
    requires
        paired(t, s),
    ensures
        paired(add_targets(t, es), add_sources(s, es)),
    decreases es.len(),
{
    if es.len() > 0 {
        lemma_pairs_add(t, s, es.drop_last());
        law_add_keeps_pairs(add_targets(t, es.drop_last()), add_sources(s, es.drop_last()), es.last());
    }
}

/// Indexing a note a second time with the same text changes nothing a
/// first time did not: every note looks the same after both as after one
/// (see [`same_note`]), where the link maps were paired and well formed.
pub proof fn law_reindex_twice_is_once(
    a: ConcurrentIndex,
    b1: ConcurrentIndex,
    b2: ConcurrentIndex,
    path: Seq<char>,
    b: Seq<u8>,
    names: FilenameIndex,
)
    requires
        a.links.wf(),
        paired(a.links.targets(), a.links.sources()),
        b1.links.wf(),
        reindexed(a, b1, path, b, names),
        reindexed(b1, b2, path, b, names),
    ensures
        forall|q: Seq<char>| #[trigger] same_note(b1, b2, q),
{
    let p = path_key(path);
    let es = link_entries(path, links_from(b, 0), names);
    assert forall|i: int| 0 <= i < es.len() implies path_key(#[trigger] es[i].0) == p by {}
    law_remove_keeps_pairs(a.links.targets(), a.links.sources(), p);
    lemma_pairs_add(
        strip_targets(a.links.targets(), entries_at(a.links.sources(), p), p),
        a.links.sources().remove(p),
        es,
    );
    assert forall|q: Seq<char>| #[trigger] same_note(b1, b2, q) by {
        if q != p {
            law_reindex_keeps_other_notes(b1, b2, path, b, names, q);
        } else {
            let ta = strip_note(a.tags.tags(), p);
            let tb = strip_note(b1.tags.tags(), p);
            assert forall|k: Seq<char>| #[trigger] only_path(tag_entries(ta, k), p) == only_path(tag_entries(tb, k), p) by {
                lemma_only_stripped(a.tags.tags(), p, k);
                lemma_only_stripped(b1.tags.tags(), p, k);
            }
            assert forall|k: Seq<char>| #[trigger] only_path(tag_entries(b2.tags.tags(), k), q) == only_path(tag_entries(b1.tags.tags(), k), q) by {
                lemma_proj_add_tags(ta, tb, path, tags_from(b, 0), k);
            }
            let da = strip_date_note(a.dates.dates(), p);
            let db = strip_date_note(b1.dates.dates(), p);
            assert forall|d: Date| #[trigger] only_path(date_entries(da, d), p) == only_path(date_entries(db, d), p) by {
                lemma_only_stripped_dates(a.dates.dates(), p, d);
                lemma_only_stripped_dates(b1.dates.dates(), p, d);
            }
            assert forall|d: Date| #[trigger] only_path(date_entries(b2.dates.dates(), d), q) == only_path(date_entries(b1.dates.dates(), d), q) by {
                lemma_proj_add_dates(da, db, path, dates_from(b, 0), d);
            }
            lemma_sources_same(a.links.sources().remove(p), es, p);
            lemma_sources_same(b1.links.sources().remove(p), es, p);
            assert(entries_at(a.links.sources().remove(p), p) =~= Seq::<LinkView>::empty());
            assert(entries_at(b1.links.sources().remove(p), p) =~= Seq::<LinkView>::empty());
            let sa = strip_targets(a.links.targets(), entries_at(a.links.sources(), p), p);
            let sb = strip_targets(b1.links.targets(), entries_at(b1.links.sources(), p), p);
            assert forall|k: Seq<char>| #[trigger] only_source(entries_at(sa, k), p) == only_source(entries_at(sb, k), p) by {
                lemma_targets_stripped(a.links.targets(), a.links.sources(), p, k);
                lemma_targets_stripped(b1.links.targets(), b1.links.sources(), p, k);
            }
            assert forall|k: Seq<char>| #[trigger] only_source(entries_at(b2.links.targets(), k), q) == only_source(entries_at(b1.links.targets(), k), q) by {
                lemma_proj_add_targets(sa, sb, es, p, k);
            }
        }
    }
}

} // verus!
