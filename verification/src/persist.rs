//! Rebuilding the indexes from what was saved of them: the version check
//! of the saved index, and the tags, dates and links re-added mention by
//! mention. Reading and writing the files is left to the program.
use vstd::prelude::*;
use crate::date::Date;
use crate::model::ByteSpan;
use crate::tags::{TagIndex, TagEntry, TagView, tag_views, tag_entries, with_span, no_tags, find_path, lemma_find_path};
use crate::paths::path_key;
use crate::dates::{DateIndex, DateEntry, date_views, date_entries, note_date, no_dates};
use crate::links::{LinkIndex, LinkEntry, LinkView, link_views, add_targets, add_sources, empty_table, entries_at};
use crate::index::ConcurrentIndex;
use crate::text::{decimal, push_str, push_decimal};

verus! {

/// The version of the saved index this library reads and writes.
pub const INDEX_VERSION: u32 = 1;

/// Accepts a saved index of version `version`: only [`INDEX_VERSION`].
pub fn check_index_version(version: u32) -> (r: Result<(), String>)
    ensures
        version == INDEX_VERSION <==> r is Ok,
        r matches Err(m) ==> m@ == "Unsupported index version: "@ + decimal(version as nat),
{
    if version == INDEX_VERSION {
        Ok(())
    } else {
        let mut m = String::from_str("Unsupported index version: ");
        push_decimal(&mut m, version as u64);
        Err(m)
    }
}

/// Each span of the note `path` under the key `k`, in order.
pub open spec fn span_mentions<K>(k: K, path: Seq<char>, spans: Seq<ByteSpan>) -> Seq<(K, Seq<char>, ByteSpan)> {
    Seq::new(spans.len(), |i: int| (k, path, spans[i]))
}

/// Each span of each entry under the key `k`, entry after entry.
pub open spec fn entry_mentions<K>(k: K, es: Seq<TagView>) -> Seq<(K, Seq<char>, ByteSpan)>
    decreases es.len(),
{
    if es.len() == 0 {
        seq![]
    } else {
        entry_mentions(k, es.drop_last()) + span_mentions(k, es.last().0, es.last().1)
    }
}

/// Each span of each entry of each row, row after row.
pub open spec fn mentions<K>(rows: Seq<(K, Seq<TagView>)>) -> Seq<(K, Seq<char>, ByteSpan)>
    decreases rows.len(),
{
    if rows.len() == 0 {
        seq![]
    } else {
        mentions(rows.drop_last()) + entry_mentions(rows.last().0, rows.last().1)
    }
}

/// The tag map once each mention (tag, note, span) is added in order.
pub open spec fn add_tag_mentions(m: Map<Seq<char>, Seq<TagView>>, xs: Seq<(Seq<char>, Seq<char>, ByteSpan)>) -> Map<Seq<char>, Seq<TagView>>
    decreases xs.len(),
{
    if xs.len() == 0 {
        m
    } else {
        let m0 = add_tag_mentions(m, xs.drop_last());
        let x = xs.last();
        m0.insert(x.0, with_span(tag_entries(m0, x.0), x.1, x.2))
    }
}

/// The date map once each mention (date, note, span) is added in order.
pub open spec fn add_date_mentions(m: Map<Date, Seq<TagView>>, xs: Seq<(Date, Seq<char>, ByteSpan)>) -> Map<Date, Seq<TagView>>
    decreases xs.len(),
{
    if xs.len() == 0 {
        m
    } else {
        let m0 = add_date_mentions(m, xs.drop_last());
        let x = xs.last();
        m0.insert(x.0, with_span(date_entries(m0, x.0), x.1, x.2))
    }
}

/// Saved tag rows as plain values.
pub open spec fn tag_rows(rows: Seq<(String, Vec<TagEntry>)>) -> Seq<(Seq<char>, Seq<TagView>)> {
    Seq::new(rows.len(), |i: int| (rows[i].0@, tag_views(rows[i].1@)))
}

/// Saved date rows as plain values.
pub open spec fn date_rows(rows: Seq<(Date, Vec<DateEntry>)>) -> Seq<(Date, Seq<TagView>)> {
    Seq::new(rows.len(), |i: int| (rows[i].0, date_views(rows[i].1@)))
}

/// Every link of the saved rows, row after row.
pub open spec fn row_links(rows: Seq<(String, Vec<LinkEntry>)>) -> Seq<LinkView>
    decreases rows.len(),
{
    if rows.len() == 0 {
        seq![]
    } else {
        row_links(rows.drop_last()) + link_views(rows.last().1@)
    }
}

/// Adds every mention of the saved tag rows to `index`.
fn restore_tags(index: &mut TagIndex, rows: &Vec<(String, Vec<TagEntry>)>)
    requires
        old(index).wf(),
    ensures
        final(index).wf(),
        final(index).tags() == add_tag_mentions(old(index).tags(), mentions(tag_rows(rows@))),
{
    let ghost base = index.tags();
    let ghost rv = tag_rows(rows@);
    let ghost mut done: Seq<(Seq<char>, Seq<char>, ByteSpan)> = seq![];
    let mut r: usize = 0;
    while r < rows.len()
        invariant
            r <= rows@.len(),
            rv == tag_rows(rows@),
            index.wf(),
            done == mentions(rv.take(r as int)),
            index.tags() == add_tag_mentions(base, done),
        decreases rows@.len() - r,
    {
        let tag = &rows[r].0;
        let es = &rows[r].1;
        let ghost ev = tag_views(es@);
        let ghost row_start = done;
        let mut e: usize = 0;
        while e < es.len()
            invariant
                e <= es@.len(),
                ev == tag_views(es@),
                index.wf(),
                done == row_start + entry_mentions(tag@, ev.take(e as int)),
                index.tags() == add_tag_mentions(base, done),
            decreases es@.len() - e,
        {
            let path = &es[e].path;
            let spans = &es[e].spans;
            let ghost entry_start = done;
            let mut q: usize = 0;
            while q < spans.len()
                invariant
                    q <= spans@.len(),
                    index.wf(),
                    done == entry_start + span_mentions(tag@, path@, spans@.take(q as int)),
                    index.tags() == add_tag_mentions(base, done),
                decreases spans@.len() - q,
            {
                index.add(path.as_str(), tag.as_str(), spans[q]);
                proof {
                    let x = (tag@, path@, spans@[q as int]);
                    let d2 = done.push(x);
                    assert(d2.drop_last() =~= done);
                    assert(span_mentions(tag@, path@, spans@.take(q + 1)) =~= span_mentions(tag@, path@, spans@.take(q as int)).push(x));
                    assert(entry_start + span_mentions(tag@, path@, spans@.take(q + 1)) =~= d2);
                    done = d2;
                }
                q = q + 1;
            }
            proof {
                assert(spans@.take(spans@.len() as int) =~= spans@);
                assert(ev.take(e + 1).drop_last() =~= ev.take(e as int));
                assert(ev.take(e + 1).last() == (path@, spans@));
                assert(done =~= row_start + entry_mentions(tag@, ev.take(e + 1)));
            }
            e = e + 1;
        }
        proof {
            assert(ev.take(es@.len() as int) =~= ev);
            assert(rv.take(r + 1).drop_last() =~= rv.take(r as int));
            assert(rv.take(r + 1).last() == (tag@, ev));
            assert(done =~= mentions(rv.take(r + 1)));
        }
        r = r + 1;
    }
    assert(rv.take(rows@.len() as int) =~= rv);
}

/// Adds every mention of the saved date rows to `index`.
fn restore_dates(index: &mut DateIndex, rows: &Vec<(Date, Vec<DateEntry>)>)
    requires
        old(index).wf(),
        forall|i: int| 0 <= i < rows@.len() ==> note_date(#[trigger] rows@[i].0),
    ensures
        final(index).wf(),
        final(index).dates() == add_date_mentions(old(index).dates(), mentions(date_rows(rows@))),
{
    let ghost base = index.dates();
    let ghost rv = date_rows(rows@);
    let ghost mut done: Seq<(Date, Seq<char>, ByteSpan)> = seq![];
    let mut r: usize = 0;
    while r < rows.len()
        invariant
            r <= rows@.len(),
            rv == date_rows(rows@),
            forall|i: int| 0 <= i < rows@.len() ==> note_date(#[trigger] rows@[i].0),
            index.wf(),
            done == mentions(rv.take(r as int)),
            index.dates() == add_date_mentions(base, done),
        decreases rows@.len() - r,
    {
        let date = rows[r].0;
        let es = &rows[r].1;
        let ghost ev = date_views(es@);
        let ghost row_start = done;
        let mut e: usize = 0;
        while e < es.len()
            invariant
                e <= es@.len(),
                ev == date_views(es@),
                note_date(date),
                index.wf(),
                done == row_start + entry_mentions(date, ev.take(e as int)),
                index.dates() == add_date_mentions(base, done),
            decreases es@.len() - e,
        {
            let path = &es[e].path;
            let spans = &es[e].spans;
            let ghost entry_start = done;
            let mut q: usize = 0;
            while q < spans.len()
                invariant
                    q <= spans@.len(),
                    note_date(date),
                    index.wf(),
                    done == entry_start + span_mentions(date, path@, spans@.take(q as int)),
                    index.dates() == add_date_mentions(base, done),
                decreases spans@.len() - q,
            {
                index.add(path.as_str(), date, spans[q]);
                proof {
                    let x = (date, path@, spans@[q as int]);
                    let d2 = done.push(x);
                    assert(d2.drop_last() =~= done);
                    assert(span_mentions(date, path@, spans@.take(q + 1)) =~= span_mentions(date, path@, spans@.take(q as int)).push(x));
                    assert(entry_start + span_mentions(date, path@, spans@.take(q + 1)) =~= d2);
                    done = d2;
                }
                q = q + 1;
            }
            proof {
                assert(spans@.take(spans@.len() as int) =~= spans@);
                assert(ev.take(e + 1).drop_last() =~= ev.take(e as int));
                assert(ev.take(e + 1).last() == (path@, spans@));
                assert(done =~= row_start + entry_mentions(date, ev.take(e + 1)));
            }
            e = e + 1;
        }
        proof {
            assert(ev.take(es@.len() as int) =~= ev);
            assert(rv.take(r + 1).drop_last() =~= rv.take(r as int));
            assert(rv.take(r + 1).last() == (date, ev));
            assert(done =~= mentions(rv.take(r + 1)));
        }
        r = r + 1;
    }
    assert(rv.take(rows@.len() as int) =~= rv);
}

/// Adds every link of the saved rows to `index`.
fn restore_links(index: &mut LinkIndex, rows: &Vec<(String, Vec<LinkEntry>)>)
    requires
        old(index).wf(),
    ensures
        final(index).wf(),
        final(index).targets() == add_targets(old(index).targets(), row_links(rows@)),
        final(index).sources() == add_sources(old(index).sources(), row_links(rows@)),
{
    let ghost t0 = index.targets();
    let ghost s0 = index.sources();
    let ghost mut done: Seq<LinkView> = seq![];
    let mut r: usize = 0;
    while r < rows.len()
        invariant
            r <= rows@.len(),
            index.wf(),
            done == row_links(rows@.take(r as int)),
            index.targets() == add_targets(t0, done),
            index.sources() == add_sources(s0, done),
        decreases rows@.len() - r,
    {
        let es = &rows[r].1;
        let ghost row_start = done;
        let mut e: usize = 0;
        while e < es.len()
            invariant
                e <= es@.len(),
                index.wf(),
                done == row_start + link_views(es@).take(e as int),
                index.targets() == add_targets(t0, done),
                index.sources() == add_sources(s0, done),
            decreases es@.len() - e,
        {
            let entry = es[e].duplicate();
            let ghost x = entry@;
            index.add(es[e].source.as_str(), entry);
            proof {
                let d2 = done.push(x);
                assert(d2.drop_last() =~= done);
                assert(row_start + link_views(es@).take(e + 1) =~= d2);
                done = d2;
            }
            e = e + 1;
        }
        proof {
            assert(link_views(es@).take(es@.len() as int) =~= link_views(es@));
            assert(rows@.take(r + 1).drop_last() =~= rows@.take(r as int));
            assert(rows@.take(r + 1).last() == rows@[r as int]);
            assert(done =~= row_links(rows@.take(r + 1)));
        }
        r = r + 1;
    }
    assert(rows@.take(rows@.len() as int) =~= rows@);
}

impl ConcurrentIndex {
    /// Indexes rebuilt from saved rows: every span of every tag and date
    /// entry, and every link, added in the order saved. Diagnostics and
    /// note states start empty, as they are not saved.
    pub fn restore(
        tags: &Vec<(String, Vec<TagEntry>)>,
        dates: &Vec<(Date, Vec<DateEntry>)>,
        links: &Vec<(String, Vec<LinkEntry>)>,
    ) -> (r: Self)
        requires
            forall|i: int| 0 <= i < dates@.len() ==> note_date(#[trigger] dates@[i].0),
        ensures
            r.wf(),
            r.tags.tags() == add_tag_mentions(no_tags(), mentions(tag_rows(tags@))),
            r.dates.dates() == add_date_mentions(no_dates(), mentions(date_rows(dates@))),
            r.links.targets() == add_targets(empty_table(), row_links(links@)),
            r.links.sources() == add_sources(empty_table(), row_links(links@)),
            r.diagnostics.table() == crate::diagnostics::no_diags(),
            r.states() == crate::index::no_states(),
    {
        let mut index = ConcurrentIndex::new();
        restore_tags(&mut index.tags, tags);
        restore_dates(&mut index.dates, dates);
        restore_links(&mut index.links, links);
        index
    }
}

/// The entries under `k`, none if absent.
pub open spec fn entries_under<K>(m: Map<K, Seq<TagView>>, k: K) -> Seq<TagView> {
    if m.contains_key(k) { m[k] } else { seq![] }
}

/// A map keyed by tags or dates once each mention (key, note, span) is
/// added in order.
pub open spec fn add_mentions<K>(m: Map<K, Seq<TagView>>, xs: Seq<(K, Seq<char>, ByteSpan)>) -> Map<K, Seq<TagView>>
    decreases xs.len(),
{
    if xs.len() == 0 {
        m
    } else {
        let m0 = add_mentions(m, xs.drop_last());
        let x = xs.last();
        m0.insert(x.0, with_span(entries_under(m0, x.0), x.1, x.2))
    }
}

/// Does `rows` list the map `m`: each key once, with its entries, and
/// every key of `m`?
pub open spec fn lists<K, V>(rows: Seq<(K, V)>, m: Map<K, V>) -> bool {
    &&& forall|i: int, j: int| 0 <= i < j < rows.len() ==> rows[i].0 != rows[j].0
    &&& forall|i: int| 0 <= i < rows.len() ==> m.contains_key(#[trigger] rows[i].0) && rows[i].1 == m[rows[i].0]
    &&& forall|k: K| m.contains_key(k) ==> exists|i: int| 0 <= i < rows.len() && #[trigger] rows[i].0 == k
}

/// Every entry of every key holds at least one span.
pub open spec fn spans_present<K>(m: Map<K, Seq<TagView>>) -> bool {
    forall|k: K, i: int| m.contains_key(k) && 0 <= i < m[k].len() ==> #[trigger] m[k][i].1.len() > 0
}

proof fn lemma_tag_mentions_are_mentions(m: Map<Seq<char>, Seq<TagView>>, xs: Seq<(Seq<char>, Seq<char>, ByteSpan)>)
    ensures
        add_tag_mentions(m, xs) == add_mentions(m, xs),
    decreases xs.len(),
{
    if xs.len() > 0 {
        lemma_tag_mentions_are_mentions(m, xs.drop_last());
    }
}

proof fn lemma_date_mentions_are_mentions(m: Map<Date, Seq<TagView>>, xs: Seq<(Date, Seq<char>, ByteSpan)>)
    ensures
        add_date_mentions(m, xs) == add_mentions(m, xs),
    decreases xs.len(),
{
    if xs.len() > 0 {
        lemma_date_mentions_are_mentions(m, xs.drop_last());
    }
}

proof fn lemma_mentions_concat<K>(m: Map<K, Seq<TagView>>, xs: Seq<(K, Seq<char>, ByteSpan)>, ys: Seq<(K, Seq<char>, ByteSpan)>)
    ensures
        add_mentions(m, xs + ys) == add_mentions(add_mentions(m, xs), ys),
    decreases ys.len(),
{
    if ys.len() == 0 {
        assert(xs + ys =~= xs);
    } else {
        assert((xs + ys).drop_last() =~= xs + ys.drop_last());
        assert((xs + ys).last() == ys.last());
        lemma_mentions_concat(m, xs, ys.drop_last());
    }
}

proof fn lemma_span_mentions<K>(m: Map<K, Seq<TagView>>, k: K, p: Seq<char>, spans: Seq<ByteSpan>)
    requires
        spans.len() > 0,
        forall|j: int| 0 <= j < entries_under(m, k).len() ==> path_key(#[trigger] entries_under(m, k)[j].0) != path_key(p),
    ensures
        add_mentions(m, span_mentions(k, p, spans)) == m.insert(k, entries_under(m, k).push((p, spans))),
    decreases spans.len(),
{
    let es = entries_under(m, k);
    let xs = span_mentions(k, p, spans);
    assert(xs.drop_last() =~= span_mentions(k, p, spans.drop_last()));
    assert(xs.last() == (k, p, spans.last()));
    if spans.len() == 1 {
        assert(xs.drop_last().len() == 0);
        assert(add_mentions(m, xs.drop_last()) == m);
        lemma_find_path(es, path_key(p), es.len() as int);
        assert(seq![spans[0]] =~= spans);
        assert(with_span(es, p, spans[0]) =~= es.push((p, spans)));
        assert(add_mentions(m, xs) == m.insert(k, with_span(es, p, spans[0])));
    } else {
        lemma_span_mentions(m, k, p, spans.drop_last());
        let m1 = m.insert(k, es.push((p, spans.drop_last())));
        let e1 = es.push((p, spans.drop_last()));
        assert(add_mentions(m, xs.drop_last()) == m1);
        assert(entries_under(m1, k) == e1);
        assert(add_mentions(m, xs) == m1.insert(k, with_span(e1, p, spans.last())));
        lemma_find_path(e1, path_key(p), e1.len() as int);
        let f = find_path(e1, path_key(p), e1.len() as int);
        if f < 0 {
            assert(path_key(e1[es.len() as int].0) == path_key(p));
        } else if f < es.len() {
            assert(e1[f] == es[f]);
        }
        assert(f == es.len());
        assert(spans.drop_last().push(spans.last()) =~= spans);
        assert(e1.update(f, (e1[f].0, e1[f].1.push(spans.last()))) =~= es.push((p, spans)));
        assert(m1.insert(k, es.push((p, spans))) =~= m.insert(k, es.push((p, spans))));
    }
}

proof fn lemma_entry_mentions<K>(m: Map<K, Seq<TagView>>, k: K, es: Seq<TagView>)
    requires
        !m.contains_key(k),
        forall|i: int, j: int| 0 <= i < j < es.len() ==> path_key(es[i].0) != path_key(es[j].0),
        forall|i: int| 0 <= i < es.len() ==> #[trigger] es[i].1.len() > 0,
    ensures
        add_mentions(m, entry_mentions(k, es)) == if es.len() == 0 { m } else { m.insert(k, es) },
    decreases es.len(),
{
    if es.len() > 0 {
        let d = es.drop_last();
        lemma_entry_mentions(m, k, d);
        let m1 = add_mentions(m, entry_mentions(k, d));
        assert(entries_under(m1, k) =~= d);
        lemma_mentions_concat(m, entry_mentions(k, d), span_mentions(k, es.last().0, es.last().1));
        assert forall|j: int| 0 <= j < entries_under(m1, k).len() implies path_key(#[trigger] entries_under(m1, k)[j].0) != path_key(es.last().0) by {
            assert(entries_under(m1, k)[j] == es[j]);
        }
        assert(es[es.len() - 1].1.len() > 0);
        lemma_span_mentions(m1, k, es.last().0, es.last().1);
        assert(d.push(es.last()) =~= es);
        assert(m1.insert(k, es) =~= m.insert(k, es));
    }
}

proof fn lemma_rows_mentions<K>(m: Map<K, Seq<TagView>>, rows: Seq<(K, Seq<TagView>)>)
    requires
        forall|k: K| #[trigger] m.contains_key(k) ==> m[k].len() > 0 && forall|i: int, j: int|
            0 <= i < j < m[k].len() ==> path_key(m[k][i].0) != path_key(m[k][j].0),
        spans_present(m),
        forall|i: int, j: int| 0 <= i < j < rows.len() ==> rows[i].0 != rows[j].0,
        forall|i: int| 0 <= i < rows.len() ==> m.contains_key(#[trigger] rows[i].0) && rows[i].1 == m[rows[i].0],
    ensures
        forall|k: K| #[trigger] add_mentions(Map::empty(), mentions(rows)).contains_key(k) <==> exists|i: int|
            0 <= i < rows.len() && rows[i].0 == k,
        forall|k: K| #[trigger] add_mentions(Map::empty(), mentions(rows)).contains_key(k) ==> add_mentions(
            Map::empty(),
            mentions(rows),
        )[k] == m[k],
    decreases rows.len(),
{
    if rows.len() > 0 {
        let d = rows.drop_last();
        lemma_rows_mentions(m, d);
        let r0 = add_mentions(Map::<K, Seq<TagView>>::empty(), mentions(d));
        let (k, es) = rows.last();
        assert(rows[rows.len() - 1] == rows.last());
        if r0.contains_key(k) {
            let i = choose|i: int| 0 <= i < d.len() && d[i].0 == k;
            assert(rows[i] == d[i]);
        }
        lemma_mentions_concat(Map::<K, Seq<TagView>>::empty(), mentions(d), entry_mentions(k, es));
        assert(forall|i: int| 0 <= i < es.len() ==> #[trigger] es[i].1.len() > 0);
        lemma_entry_mentions(r0, k, es);
        let r1 = add_mentions(Map::<K, Seq<TagView>>::empty(), mentions(rows));
        assert(r1 == r0.insert(k, es));
        assert forall|q: K| #[trigger] r1.contains_key(q) <==> exists|i: int| 0 <= i < rows.len() && rows[i].0 == q by {
            if r0.contains_key(q) {
                let i = choose|i: int| 0 <= i < d.len() && d[i].0 == q;
                assert(rows[i] == d[i]);
            }
            if exists|i: int| 0 <= i < rows.len() && rows[i].0 == q {
                let i = choose|i: int| 0 <= i < rows.len() && rows[i].0 == q;
                if i < d.len() {
                    assert(d[i] == rows[i]);
                }
            }
        }
    }
}

proof fn lemma_listing_rebuilds<K>(m: Map<K, Seq<TagView>>, rows: Seq<(K, Seq<TagView>)>)
    requires
        forall|k: K| #[trigger] m.contains_key(k) ==> m[k].len() > 0 && forall|i: int, j: int|
            0 <= i < j < m[k].len() ==> path_key(m[k][i].0) != path_key(m[k][j].0),
        spans_present(m),
        lists(rows, m),
    ensures
        add_mentions(Map::empty(), mentions(rows)) == m,
{
    lemma_rows_mentions(m, rows);
    let r = add_mentions(Map::<K, Seq<TagView>>::empty(), mentions(rows));
    assert forall|k: K| #[trigger] r.contains_key(k) <==> m.contains_key(k) by {
        if m.contains_key(k) {
            let i = choose|i: int| 0 <= i < rows.len() && #[trigger] rows[i].0 == k;
        }
        if r.contains_key(k) {
            let i = choose|i: int| 0 <= i < rows.len() && rows[i].0 == k;
            assert(m.contains_key(rows[i].0));
        }
    }
    assert(r =~= m);
}

/// Saving the tags and loading them back gives the same tag map: rebuilt
/// from a listing of it (each tag once with its entries, in any order, as
/// [`TagIndex::iter`] hands them out), every tag keeps its entries, notes
/// and spans in order. Entries that hold no span are not listed again;
/// the index makes none.
pub proof fn law_saved_tags_restore(m: Map<Seq<char>, Seq<TagView>>, rows: Seq<(Seq<char>, Seq<TagView>)>)
    requires
        crate::tags::tags_wf(m),
        spans_present(m),
        lists(rows, m),
    ensures
        add_tag_mentions(no_tags(), mentions(rows)) == m,
{
    lemma_listing_rebuilds(m, rows);
    lemma_tag_mentions_are_mentions(no_tags(), mentions(rows));
    assert(no_tags() == Map::<Seq<char>, Seq<TagView>>::empty());
}

/// Saving the dates and loading them back gives the same date map (see
/// [`law_saved_tags_restore`]).
pub proof fn law_saved_dates_restore(m: Map<Date, Seq<TagView>>, rows: Seq<(Date, Seq<TagView>)>)
    requires
        crate::dates::dates_wf(m),
        spans_present(m),
        lists(rows, m),
    ensures
        add_date_mentions(no_dates(), mentions(rows)) == m,
{
    lemma_listing_rebuilds(m, rows);
    lemma_date_mentions_are_mentions(no_dates(), mentions(rows));
    assert(no_dates() == Map::<Date, Seq<TagView>>::empty());
}

/// Saved link rows as plain values: each target key with its links.
pub open spec fn link_rows(rows: Seq<(String, Vec<LinkEntry>)>) -> Seq<(Seq<char>, Seq<LinkView>)> {
    Seq::new(rows.len(), |i: int| (rows[i].0@, link_views(rows[i].1@)))
}

proof fn lemma_targets_concat(t: Map<Seq<char>, Seq<LinkView>>, xs: Seq<LinkView>, ys: Seq<LinkView>)
    ensures
        add_targets(t, xs + ys) == add_targets(add_targets(t, xs), ys),
    decreases ys.len(),
{
    if ys.len() == 0 {
        assert(xs + ys =~= xs);
    } else {
        assert((xs + ys).drop_last() =~= xs + ys.drop_last());
        assert((xs + ys).last() == ys.last());
        lemma_targets_concat(t, xs, ys.drop_last());
    }
}

proof fn lemma_targets_one_key(t: Map<Seq<char>, Seq<LinkView>>, k: Seq<char>, es: Seq<LinkView>)
    requires
        forall|i: int| 0 <= i < es.len() ==> path_key(#[trigger] es[i].1) == k,
    ensures
        es.len() > 0 ==> add_targets(t, es) == t.insert(k, entries_at(t, k) + es),
        es.len() == 0 ==> add_targets(t, es) == t,
    decreases es.len(),
{
    if es.len() > 0 {
        let d = es.drop_last();
        lemma_targets_one_key(t, k, d);
        assert(path_key(es[es.len() - 1].1) == k);
        let t0 = add_targets(t, d);
        if d.len() == 0 {
            assert(entries_at(t, k) + es =~= entries_at(t, k).push(es.last()));
        } else {
            assert(entries_at(t0, k) == entries_at(t, k) + d);
            assert((entries_at(t, k) + d).push(es.last()) =~= entries_at(t, k) + es);
            assert(t0.insert(k, entries_at(t, k) + es) =~= t.insert(k, entries_at(t, k) + es));
        }
    }
}

proof fn lemma_row_targets(t: Map<Seq<char>, Seq<LinkView>>, rows: Seq<(String, Vec<LinkEntry>)>)
    requires
        crate::links::table_wf(t, true),
        forall|i: int, j: int| 0 <= i < j < rows.len() ==> rows[i].0@ != rows[j].0@,
        forall|i: int| 0 <= i < rows.len() ==> t.contains_key(#[trigger] rows[i].0@) && link_views(rows[i].1@) == t[rows[i].0@],
    ensures
        forall|k: Seq<char>| #[trigger] add_targets(empty_table(), row_links(rows)).contains_key(k) <==> exists|i: int|
            0 <= i < rows.len() && rows[i].0@ == k,
        forall|k: Seq<char>| #[trigger] add_targets(empty_table(), row_links(rows)).contains_key(k) ==> add_targets(
            empty_table(),
            row_links(rows),
        )[k] == t[k],
    decreases rows.len(),
{
    if rows.len() > 0 {
        let d = rows.drop_last();
        lemma_row_targets(t, d);
        let r0 = add_targets(empty_table(), row_links(d));
        let k = rows.last().0@;
        let es = link_views(rows.last().1@);
        assert(rows[rows.len() - 1] == rows.last());
        assert(es == t[k]);
        if r0.contains_key(k) {
            let i = choose|i: int| 0 <= i < d.len() && d[i].0@ == k;
            assert(rows[i] == d[i]);
        }
        assert(entries_at(r0, k) =~= seq![]);
        lemma_targets_concat(empty_table(), row_links(d), es);
        assert forall|i: int| 0 <= i < es.len() implies path_key(#[trigger] es[i].1) == k by {
            assert(t.contains_key(k));
        }
        lemma_targets_one_key(r0, k, es);
        assert(seq![] + es =~= es);
        let r1 = add_targets(empty_table(), row_links(rows));
        assert(r1 == r0.insert(k, es));
        assert forall|q: Seq<char>| #[trigger] r1.contains_key(q) <==> exists|i: int| 0 <= i < rows.len() && rows[i].0@ == q by {
            if r0.contains_key(q) {
                let i = choose|i: int| 0 <= i < d.len() && d[i].0@ == q;
                assert(rows[i] == d[i]);
            }
            if exists|i: int| 0 <= i < rows.len() && rows[i].0@ == q {
                let i = choose|i: int| 0 <= i < rows.len() && rows[i].0@ == q;
                if i < d.len() {
                    assert(d[i] == rows[i]);
                }
            }
        }
    }
}

proof fn lemma_sources_hold(s: Map<Seq<char>, Seq<LinkView>>, es: Seq<LinkView>, k: Seq<char>, y: LinkView)
    ensures
        entries_at(add_sources(s, es), k).contains(y) <==> entries_at(s, k).contains(y) || (es.contains(y) && path_key(y.0) == k),
    decreases es.len(),
{
    if es.len() > 0 {
        let d = es.drop_last();
        lemma_sources_hold(s, d, k, y);
        let s0 = add_sources(s, d);
        let x = es.last();
        assert(es.contains(y) <==> d.contains(y) || x == y) by {
            if es.contains(y) {
                let i = choose|i: int| 0 <= i < es.len() && es[i] == y;
                if i < d.len() {
                    assert(d[i] == es[i]);
                }
            }
            if d.contains(y) {
                let i = choose|i: int| 0 <= i < d.len() && d[i] == y;
                assert(es[i] == d[i]);
            }
            if x == y {
                assert(es[es.len() - 1] == y);
            }
        }
        if path_key(x.0) == k {
            let e0 = entries_at(s0, k);
            assert(e0.push(x).contains(y) <==> e0.contains(y) || x == y) by {
                if e0.push(x).contains(y) {
                    let i = choose|i: int| 0 <= i < e0.push(x).len() && e0.push(x)[i] == y;
                    if i < e0.len() {
                        assert(e0[i] == y);
                    }
                }
                if e0.contains(y) {
                    let i = choose|i: int| 0 <= i < e0.len() && e0[i] == y;
                    assert(e0.push(x)[i] == y);
                }
                if x == y {
                    assert(e0.push(x)[e0.len() as int] == y);
                }
            }
        }
    }
}

proof fn lemma_row_links_hold(t: Map<Seq<char>, Seq<LinkView>>, rows: Seq<(String, Vec<LinkEntry>)>, y: LinkView)
    requires
        forall|i: int| 0 <= i < rows.len() ==> t.contains_key(#[trigger] rows[i].0@) && link_views(rows[i].1@) == t[rows[i].0@],
    ensures
        row_links(rows).contains(y) <==> exists|i: int| 0 <= i < rows.len() && #[trigger] t[rows[i].0@].contains(y),
    decreases rows.len(),
{
    if rows.len() > 0 {
        let d = rows.drop_last();
        lemma_row_links_hold(t, d, y);
        let a = row_links(d);
        let b = link_views(rows.last().1@);
        assert(rows[rows.len() - 1] == rows.last());
        assert(t.contains_key(rows[rows.len() - 1].0@));
        assert(b == t[rows[rows.len() - 1].0@]);
        assert(row_links(rows) == a + b);
        assert((a + b).contains(y) <==> a.contains(y) || b.contains(y)) by {
            if (a + b).contains(y) {
                let i = choose|i: int| 0 <= i < (a + b).len() && (a + b)[i] == y;
                if i < a.len() {
                    assert(a[i] == y);
                } else {
                    assert(b[i - a.len()] == y);
                }
            }
            if a.contains(y) {
                let i = choose|i: int| 0 <= i < a.len() && a[i] == y;
                assert((a + b)[i] == y);
            }
            if b.contains(y) {
                let i = choose|i: int| 0 <= i < b.len() && b[i] == y;
                assert((a + b)[a.len() + i] == y);
            }
        }
        if exists|i: int| 0 <= i < rows.len() && #[trigger] t[rows[i].0@].contains(y) {
            let i = choose|i: int| 0 <= i < rows.len() && #[trigger] t[rows[i].0@].contains(y);
            if i < d.len() {
                assert(d[i] == rows[i]);
            }
        }
        if exists|i: int| 0 <= i < d.len() && #[trigger] t[d[i].0@].contains(y) {
            let i = choose|i: int| 0 <= i < d.len() && #[trigger] t[d[i].0@].contains(y);
            assert(rows[i] == d[i]);
        }
    }
}

/// Saving the links and loading them back gives the same links: rebuilt
/// from a listing of the target map (each target once with its links, in
/// any order, as [`LinkIndex::target_rows`] hands them out), the target
/// map is the same, and each note's outgoing links are the same links,
/// in the order of the listing.
pub proof fn law_saved_links_restore(
    t: Map<Seq<char>, Seq<LinkView>>,
    s: Map<Seq<char>, Seq<LinkView>>,
    rows: Seq<(String, Vec<LinkEntry>)>,
    k: Seq<char>,
    y: LinkView,
)
    requires
        crate::links::table_wf(t, true),
        crate::links::table_wf(s, false),
        crate::links::paired(t, s),
        lists(link_rows(rows), t),
    ensures
        add_targets(empty_table(), row_links(rows)) == t,
        entries_at(add_sources(empty_table(), row_links(rows)), k).contains(y) <==> entries_at(s, k).contains(y),
{
    let lr = link_rows(rows);
    assert forall|i: int, j: int| 0 <= i < j < rows.len() implies rows[i].0@ != rows[j].0@ by {
        assert(lr[i].0 == rows[i].0@ && lr[j].0 == rows[j].0@);
    }
    assert forall|i: int| 0 <= i < rows.len() implies t.contains_key(#[trigger] rows[i].0@) && link_views(rows[i].1@) == t[rows[i].0@] by {
        assert(lr[i] == (rows[i].0@, link_views(rows[i].1@)));
        assert(t.contains_key(lr[i].0) && lr[i].1 == t[lr[i].0]);
    }
    lemma_row_targets(t, rows);
    let r = add_targets(empty_table(), row_links(rows));
    assert forall|q: Seq<char>| #[trigger] r.contains_key(q) <==> t.contains_key(q) by {
        if t.contains_key(q) {
            let i = choose|i: int| 0 <= i < lr.len() && #[trigger] lr[i].0 == q;
            assert(lr[i].0 == rows[i].0@);
        }
    }
    assert(r =~= t);
    lemma_sources_hold(empty_table(), row_links(rows), k, y);
    lemma_row_links_hold(t, rows, y);
    if entries_at(s, k).contains(y) {
        let i = choose|i: int| 0 <= i < entries_at(s, k).len() && entries_at(s, k)[i] == y;
        assert(s.contains_key(k));
        assert(s[k][i] == y);
        assert(path_key(y.0) == k);
        assert(t.contains_key(path_key(s[k][i].1)) && t[path_key(s[k][i].1)].contains(s[k][i]));
        let q = choose|q: int| 0 <= q < lr.len() && #[trigger] lr[q].0 == path_key(y.1);
        assert(lr[q].0 == rows[q].0@);
        assert(t[rows[q].0@].contains(y));
    }
    if entries_at(add_sources(empty_table(), row_links(rows)), k).contains(y) {
        assert(path_key(y.0) == k);
        let i = choose|i: int| 0 <= i < rows.len() && #[trigger] t[rows[i].0@].contains(y);
        let tk = rows[i].0@;
        let j = choose|j: int| 0 <= j < t[tk].len() && t[tk][j] == y;
        assert(s.contains_key(path_key(t[tk][j].0)) && s[path_key(t[tk][j].0)].contains(t[tk][j]));
    }
}

} // verus!
