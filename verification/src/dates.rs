//! The date index: for each calendar date, the notes that mention it and
//! where.
use vstd::prelude::*;
use dashmap::DashMap;
use crate::date::{Date, valid_ymd};
use crate::model::ByteSpan;
use crate::paths::{path_key, path_key_of};
use crate::tags::{TagView, with_span, drop_path, has_path, tags_wf, find_path};

verus! {

/// The notes that mention a date: one note and the spans of the date in it.
#[derive(Clone, Debug)]
pub struct DateEntry {
    pub path: String,
    pub spans: Vec<ByteSpan>,
}

impl View for DateEntry {
    type V = TagView;

    open spec fn view(&self) -> TagView {
        (self.path@, self.spans@)
    }
}

impl DateEntry {
    /// A copy of the entry.
    pub fn duplicate(&self) -> (r: Self)
        ensures
            r@ == self@,
    {
        let mut spans: Vec<ByteSpan> = Vec::new();
        let mut i: usize = 0;
        while i < self.spans.len()
            invariant
                i <= self.spans@.len(),
                spans@ == self.spans@.take(i as int),
            decreases self.spans@.len() - i,
        {
            spans.push(self.spans[i]);
            assert(self.spans@.take(i + 1) =~= self.spans@.take(i as int).push(self.spans@[i as int]));
            i = i + 1;
        }
        assert(self.spans@.take(self.spans@.len() as int) =~= self.spans@);
        DateEntry { path: self.path.clone(), spans }
    }
}

/// The entries as plain values.
pub open spec fn date_views(s: Seq<DateEntry>) -> Seq<TagView> {
    Seq::new(s.len(), |i: int| s[i]@)
}

/// A map with no dates.
pub open spec fn no_dates() -> Map<Date, Seq<TagView>> {
    Map::empty()
}

/// What the date map holds: for each date, its entries.
pub uninterp spec fn date_table(m: DashMap<Date, Vec<DateEntry>>) -> Map<Date, Seq<TagView>>;

/// `DashMap::new`: a map with no entries.
#[verifier::external_body]
fn table_new() -> (m: DashMap<Date, Vec<DateEntry>>)
    ensures
        date_table(m) == no_dates(),
{
    DashMap::new()
}

/// `DashMap::get` with the value cloned out: the entries of `key`, if the
/// key is present (dates compare field by field).
#[verifier::external_body]
fn table_get(m: &DashMap<Date, Vec<DateEntry>>, key: Date) -> (r: Option<Vec<DateEntry>>)
    ensures
        r is Some <==> date_table(*m).contains_key(key),
        r matches Some(v) ==> date_views(v@) == date_table(*m)[key],
{
    match m.get(&key) {
        Some(entry) => Some(entry.value().clone()),
        None => None,
    }
}

/// `DashMap::insert`: `key` now holds `v`, whatever it held before.
#[verifier::external_body]
fn table_insert(m: &mut DashMap<Date, Vec<DateEntry>>, key: Date, v: Vec<DateEntry>)
    ensures
        date_table(*final(m)) == date_table(*old(m)).insert(key, date_views(v@)),
{
    m.insert(key, v);
}

/// `DashMap::remove`: `key` is no longer present.
#[verifier::external_body]
fn table_remove(m: &mut DashMap<Date, Vec<DateEntry>>, key: Date)
    ensures
        date_table(*final(m)) == date_table(*old(m)).remove(key),
{
    m.remove(&key);
}

/// `DashMap::clear`: no entries are left.
#[verifier::external_body]
fn table_clear(m: &mut DashMap<Date, Vec<DateEntry>>)
    ensures
        date_table(*final(m)) == no_dates(),
{
    m.clear();
}

/// The keys of the map, read by `DashMap::iter`: each present date once, in
/// an order that depends on the map's hasher and is left unsaid.
#[verifier::external_body]
fn table_keys(m: &DashMap<Date, Vec<DateEntry>>) -> (r: Vec<Date>)
    ensures
        forall|i: int, j: int| 0 <= i < j < r@.len() ==> r@[i] != r@[j],
        forall|i: int| 0 <= i < r@.len() ==> date_table(*m).contains_key(#[trigger] r@[i]),
        forall|k: Date| date_table(*m).contains_key(k) ==> exists|i: int| 0 <= i < r@.len() && #[trigger] r@[i] == k,
{
    let mut r = Vec::new();
    for entry in m.iter() {
        r.push(*entry.key());
    }
    r
}

/// The entries of `date`, none if the date is absent.
pub open spec fn date_entries(m: Map<Date, Seq<TagView>>, date: Date) -> Seq<TagView> {
    if m.contains_key(date) {
        m[date]
    } else {
        seq![]
    }
}

/// Does `d` stand among `s` before position `n`?
pub open spec fn date_before(s: Seq<Date>, d: Date, n: int) -> bool {
    exists|q: int| 0 <= q < n && #[trigger] s[q] == d
}

/// The map after the note with key `p` no longer mentions `date`.
pub open spec fn without_date_note(m: Map<Date, Seq<TagView>>, date: Date, p: Seq<char>) -> Map<Date, Seq<TagView>> {
    if !m.contains_key(date) {
        m
    } else if drop_path(m[date], p).len() == 0 {
        m.remove(date)
    } else {
        m.insert(date, drop_path(m[date], p))
    }
}

/// The map once the note with key `p` mentions no date.
pub open spec fn strip_date_note(m: Map<Date, Seq<TagView>>, p: Seq<char>) -> Map<Date, Seq<TagView>> {
    Map::new(
        |k: Date| m.contains_key(k) && (has_path(m[k], p) ==> drop_path(m[k], p).len() > 0),
        |k: Date| if has_path(m[k], p) { drop_path(m[k], p) } else { m[k] },
    )
}

/// The map once `path` mentions each date of `ds` (date, text, span), in
/// order.
pub open spec fn add_dates(m: Map<Date, Seq<TagView>>, path: Seq<char>, ds: Seq<(Date, Seq<char>, ByteSpan)>) -> Map<Date, Seq<TagView>>
    decreases ds.len(),
{
    if ds.len() == 0 {
        m
    } else {
        let m0 = add_dates(m, path, ds.drop_last());
        m0.insert(ds.last().0, with_span(date_entries(m0, ds.last().0), path, ds.last().2))
    }
}

/// Can the date be written in the note grammar: a day that exists, in a
/// four-digit year?
pub open spec fn note_date(d: Date) -> bool {
    valid_ymd(d.year as int, d.month as int, d.day as int) && 0 <= d.year <= 9999
}

/// Every date is one the note grammar can write, holds at least one entry,
/// and no note twice.
pub open spec fn dates_wf(m: Map<Date, Seq<TagView>>) -> bool {
    forall|k: Date| #[trigger] m.contains_key(k) ==> note_date(k) && m[k].len() > 0 && forall|i: int, j: int|
        0 <= i < j < m[k].len() ==> path_key(m[k][i].0) != path_key(m[k][j].0)
}

/// All dates and where they occur.
pub struct DateIndex {
    dates: DashMap<Date, Vec<DateEntry>>,
}

impl DateIndex {
    /// The dates and their entries.
    pub closed spec fn dates(&self) -> Map<Date, Seq<TagView>> {
        date_table(self.dates)
    }

    /// Every date holds at least one entry, and no note twice.
    pub open spec fn wf(&self) -> bool {
        dates_wf(self.dates())
    }

    /// An index with no dates.
    pub fn new() -> (r: Self)
        ensures
            r.wf(),
            r.dates() == no_dates(),
    {
        DateIndex { dates: table_new() }
    }

    /// Forgets every date.
    pub fn clear(&mut self)
        ensures
            final(self).wf(),
            final(self).dates() == no_dates(),
    {
        table_clear(&mut self.dates);
    }

    /// The entries of `date`, none if no note mentions it.
    pub fn get(&self, date: Date) -> (r: Vec<DateEntry>)
        ensures
            date_views(r@) == date_entries(self.dates(), date),
    {
        match table_get(&self.dates, date) {
            Some(v) => v,
            None => {
                let v: Vec<DateEntry> = Vec::new();
                assert(date_views(v@) =~= seq![]);
                v
            },
        }
    }

    /// Every date with its entries, in the map's order.
    pub fn all_dates(&self) -> (r: Vec<(Date, Vec<DateEntry>)>)
        ensures
            forall|i: int, j: int| 0 <= i < j < r@.len() ==> r@[i].0 != r@[j].0,
            forall|i: int| 0 <= i < r@.len() ==> self.dates().contains_key(#[trigger] r@[i].0) && date_views(r@[i].1@)
                == self.dates()[r@[i].0],
            forall|k: Date| self.dates().contains_key(k) ==> exists|i: int| 0 <= i < r@.len() && #[trigger] r@[i].0 == k,
    {
        let keys = table_keys(&self.dates);
        let mut out: Vec<(Date, Vec<DateEntry>)> = Vec::new();
        let mut i: usize = 0;
        while i < keys.len()
            invariant
                i <= keys@.len(),
                out@.len() == i,
                forall|a: int| 0 <= a < keys@.len() ==> self.dates().contains_key(#[trigger] keys@[a]),
                forall|a: int| 0 <= a < i ==> #[trigger] out@[a].0 == keys@[a] && date_views(out@[a].1@) == self.dates()[keys@[a]],
            decreases keys@.len() - i,
        {
            let v = self.get(keys[i]);
            assert(self.dates().contains_key(keys@[i as int]));
            let ghost before = out@;
            out.push((keys[i], v));
            proof {
                assert forall|a: int| 0 <= a < i + 1 implies #[trigger] out@[a].0 == keys@[a] && date_views(out@[a].1@) == self.dates()[keys@[a]] by {
                    if a < i {
                        assert(out@[a] == before[a]);
                    }
                }
            }
            i = i + 1;
        }
        proof {
            assert forall|k: Date| self.dates().contains_key(k) implies exists|i: int| 0 <= i < out@.len() && #[trigger] out@[i].0 == k by {
                let q = choose|q: int| 0 <= q < keys@.len() && #[trigger] keys@[q] == k;
                assert(out@[q].0 == k);
            }
        }
        out
    }

    /// Records that `path` has `date` at `span`.
    pub fn add(&mut self, path: &str, date: Date, span: ByteSpan)
        requires
            old(self).wf(),
            note_date(date),
        ensures
            final(self).wf(),
            final(self).dates() == old(self).dates().insert(date, with_span(date_entries(old(self).dates(), date), path@, span)),
    {
        let ghost es = date_entries(self.dates(), date);
        let mut entries = match table_get(&self.dates, date) {
            Some(v) => v,
            None => Vec::new(),
        };
        assert(date_views(entries@) =~= es);
        let pk = path_key_of(path);
        let mut i: usize = 0;
        proof {
            crate::tags::lemma_find_path(es, pk@, es.len() as int);
        }
        while i < entries.len()
            invariant
                i <= entries@.len(),
                date_views(entries@) == es,
                forall|j: int| 0 <= j < i ==> path_key(#[trigger] es[j].0) != pk@,
            ensures
                i <= entries@.len(),
                forall|j: int| 0 <= j < i ==> path_key(#[trigger] es[j].0) != pk@,
                i < entries@.len() ==> path_key(es[i as int].0) == pk@,
            decreases entries@.len() - i,
        {
            let k = path_key_of(&entries[i].path);
            assert(es[i as int] == entries@[i as int]@);
            if k == pk {
                break;
            }
            i = i + 1;
        }
        let ghost found = i < entries@.len();
        proof {
            if found {
                assert(path_key(es[i as int].0) == pk@) by {
                    assert(es[i as int] == entries@[i as int]@);
                }
                crate::tags::lemma_find_path(es, pk@, es.len() as int);
                let f = find_path(es, pk@, es.len() as int);
                assert(f == i) by {
                    if f < i {
                        assert(path_key(es[f].0) != pk@);
                    }
                    if f > i || f < 0 {
                        assert(path_key(es[i as int].0) != pk@);
                    }
                }
            } else {
                crate::tags::lemma_find_path(es, pk@, es.len() as int);
                let f = find_path(es, pk@, es.len() as int);
                if f >= 0 {
                    assert(path_key(es[f].0) != pk@);
                }
            }
        }
        if i < entries.len() {
            let mut e = entries[i].duplicate();
            e.spans.push(span);
            let ghost ev = e@;
            entries.set(i, e);
            assert(date_views(entries@) =~= es.update(i as int, (es[i as int].0, es[i as int].1.push(span))));
        } else {
            let mut spans: Vec<ByteSpan> = Vec::new();
            spans.push(span);
            let e = DateEntry { path: path.to_owned(), spans };
            assert(e@ == (path@, seq![span]));
            entries.push(e);
            assert(date_views(entries@) =~= es.push((path@, seq![span])));
        }
        table_insert(&mut self.dates, date, entries);
        proof {
            let m = self.dates();
            let w = with_span(es, path@, span);
            assert forall|k: Date| #[trigger] m.contains_key(k) implies m[k].len() > 0 && forall|a: int, b: int|
                0 <= a < b < m[k].len() ==> path_key(m[k][a].0) != path_key(m[k][b].0) by {
                if k == date {
                    assert forall|a: int, b: int| 0 <= a < b < w.len() implies path_key(w[a].0) != path_key(w[b].0) by {
                        if found {
                            assert(w[a].0 == es[a].0 && w[b].0 == es[b].0);
                        } else {
                            if b == es.len() {
                                assert(w[a] == es[a]);
                                assert(path_key(es[a].0) != pk@);
                            } else {
                                assert(w[a] == es[a] && w[b] == es[b]);
                            }
                        }
                    }
                }
            }
        }
    }

    /// `path` no longer mentions `date`; a date left without notes disappears.
    fn remove(&mut self, path: &str, date: Date)
        requires
            old(self).wf(),
        ensures
            final(self).wf(),
            final(self).dates() == without_date_note(old(self).dates(), date, path_key(path@)),
    {
        let entries = match table_get(&self.dates, date) {
            Some(v) => v,
            None => {
                return;
            },
        };
        let ghost es = date_views(entries@);
        let pk = path_key_of(path);
        let mut kept: Vec<DateEntry> = Vec::new();
        let mut i: usize = 0;
        while i < entries.len()
            invariant
                i <= entries@.len(),
                es == date_views(entries@),
                date_views(kept@) == drop_path(es.take(i as int), pk@),
            decreases entries@.len() - i,
        {
            let k = path_key_of(&entries[i].path);
            proof {
                crate::tags::lemma_drop_path_step(es, pk@, i as int);
                assert(es[i as int] == entries@[i as int]@);
            }
            if k != pk {
                let ghost before = date_views(kept@);
                kept.push(entries[i].duplicate());
                assert(date_views(kept@) =~= before.push(entries@[i as int]@));
            }
            i = i + 1;
        }
        assert(es.take(es.len() as int) =~= es);
        let ghost d = drop_path(es, pk@);
        if kept.len() == 0 {
            table_remove(&mut self.dates, date);
        } else {
            table_insert(&mut self.dates, date, kept);
        }
        proof {
            crate::tags::lemma_drop_path_props(es, pk@);
            let m = self.dates();
            assert forall|k: Date| #[trigger] m.contains_key(k) implies m[k].len() > 0 && forall|a: int, b: int|
                0 <= a < b < m[k].len() ==> path_key(m[k][a].0) != path_key(m[k][b].0) by {
            }
        }
    }

    /// `path` no longer mentions any date: each date it mentioned keeps its
    /// other notes, and disappears with the last one.
    pub fn remove_file(&mut self, path: &str)
        requires
            old(self).wf(),
        ensures
            final(self).wf(),
            forall|k: Date| #[trigger] final(self).dates().contains_key(k) <==> old(self).dates().contains_key(k)
                && (has_path(old(self).dates()[k], path_key(path@)) ==> drop_path(old(self).dates()[k], path_key(path@)).len() > 0),
            forall|k: Date| #[trigger] final(self).dates().contains_key(k) ==> final(self).dates()[k] == if has_path(
                old(self).dates()[k],
                path_key(path@),
            ) {
                drop_path(old(self).dates()[k], path_key(path@))
            } else {
                old(self).dates()[k]
            },
    {
        let ghost old_m = self.dates();
        let pk = path_key_of(path);
        let ghost p = pk@;
        let keys = table_keys(&self.dates);
        let mut i: usize = 0;
        while i < keys.len()
            invariant
                i <= keys@.len(),
                p == pk@,
                p == path_key(path@),
                self.wf(),
                forall|a: int, b: int| 0 <= a < b < keys@.len() ==> keys@[a] != keys@[b],
                forall|a: int| 0 <= a < keys@.len() ==> old_m.contains_key(#[trigger] keys@[a]),
                forall|k: Date| #[trigger] self.dates().contains_key(k) <==> old_m.contains_key(k)
                    && (has_path(old_m[k], p) && date_before(keys@, k, i as int) ==> drop_path(old_m[k], p).len() > 0),
                forall|k: Date| #[trigger] self.dates().contains_key(k) ==> self.dates()[k] == if has_path(old_m[k], p)
                    && date_before(keys@, k, i as int) {
                    drop_path(old_m[k], p)
                } else {
                    old_m[k]
                },
            decreases keys@.len() - i,
        {
            let ghost kv = keys@[i as int];
            proof {
                assert forall|k: Date| date_before(keys@, k, i + 1) <==> date_before(keys@, k, i as int) || k == kv by {
                    if date_before(keys@, k, i + 1) && k != kv {
                        let q = choose|q: int| 0 <= q < i + 1 && #[trigger] keys@[q] == k;
                        assert(q < i);
                    }
                    if k == kv {
                        assert(keys@[i as int] == k);
                    }
                }
                assert(!date_before(keys@, kv, i as int)) by {
                    if date_before(keys@, kv, i as int) {
                        let q = choose|q: int| 0 <= q < i && #[trigger] keys@[q] == kv;
                        assert(keys@[q] != keys@[i as int]);
                    }
                }
            }
            let entries = self.get(keys[i]);
            assert(date_views(entries@) == old_m[kv]);
            let mut j: usize = 0;
            let mut found = false;
            while j < entries.len()
                invariant
                    j <= entries@.len(),
                    found == has_path(date_views(entries@).take(j as int), p),
                    p == pk@,
                decreases entries@.len() - j,
            {
                let k = path_key_of(&entries[j].path);
                proof {
                    let a = date_views(entries@).take(j as int);
                    let b = date_views(entries@).take(j + 1);
                    assert(b[j as int] == entries@[j as int]@);
                    if has_path(b, p) {
                        let q = choose|q: int| 0 <= q < b.len() && path_key(#[trigger] b[q].0) == p;
                        if q < j {
                            assert(a[q] == b[q]);
                        }
                    }
                    if has_path(a, p) {
                        let q = choose|q: int| 0 <= q < a.len() && path_key(#[trigger] a[q].0) == p;
                        assert(b[q] == a[q]);
                    }
                    if path_key(b[j as int].0) == p {
                        assert(has_path(b, p));
                    }
                    assert(has_path(b, p) <==> has_path(a, p) || path_key(b[j as int].0) == p);
                }
                if k == pk {
                    found = true;
                }
                j = j + 1;
            }
            assert(date_views(entries@).take(entries@.len() as int) =~= date_views(entries@));
            if found {
                self.remove(path, keys[i]);
            }
            i = i + 1;
        }
        proof {
            assert forall|k: Date| old_m.contains_key(k) implies date_before(keys@, k, keys@.len() as int) by {
                let q = choose|q: int| 0 <= q < keys@.len() && #[trigger] keys@[q] == k;
            }
        }
    }

}

impl Default for DateIndex {
    fn default() -> (r: Self)
        ensures
            r.wf(),
            r.dates() == no_dates(),
    {
        DateIndex::new()
    }
}

/// Indexing a note anew replaces its dates: after its old entries are
/// dropped and the dates `ds` found in its text are added, exactly the
/// dates of `ds` hold the note.
pub proof fn law_reindex_replaces_dates(m: Map<Date, Seq<TagView>>, path: Seq<char>, ds: Seq<(Date, Seq<char>, ByteSpan)>, k: Date)
    ensures
        ({
            let r = add_dates(strip_date_note(m, path_key(path)), path, ds);
            r.contains_key(k) && has_path(r[k], path_key(path))
        }) <==> exists|i: int| 0 <= i < ds.len() && #[trigger] ds[i].0 == k,
    decreases ds.len(),
{
    let p = path_key(path);
    let base = strip_date_note(m, p);
    if ds.len() == 0 {
        if base.contains_key(k) {
            crate::tags::lemma_drop_path_gone(m[k], p);
        }
    } else {
        let pre = ds.drop_last();
        law_reindex_replaces_dates(m, path, pre, k);
        let m0 = add_dates(base, path, pre);
        let last = ds.last();
        if last.0 == k {
            crate::tags::lemma_with_span_has(date_entries(m0, k), path, last.2);
            assert(ds[ds.len() - 1].0 == k);
        } else {
            assert((exists|i: int| 0 <= i < ds.len() && #[trigger] ds[i].0 == k) <==> (exists|i: int| 0 <= i < pre.len() && #[trigger] pre[i].0 == k)) by {
                if exists|i: int| 0 <= i < ds.len() && #[trigger] ds[i].0 == k {
                    let i = choose|i: int| 0 <= i < ds.len() && #[trigger] ds[i].0 == k;
                    assert(i < pre.len());
                    assert(pre[i] == ds[i]);
                }
                if exists|i: int| 0 <= i < pre.len() && #[trigger] pre[i].0 == k {
                    let i = choose|i: int| 0 <= i < pre.len() && #[trigger] pre[i].0 == k;
                    assert(ds[i] == pre[i]);
                }
            }
        }
    }
}

} // verus!
