//! The indexes of a vault kept together, and how one note is indexed anew.
use vstd::prelude::*;
use vstd::string::StringSliceAdditionalSpecFns;
use dashmap::DashMap;
use crate::date::Date;
use crate::model::ByteSpan;
use crate::names::FilenameIndex;
use crate::parser::{parse_content, tags_from, dates_from, links_from};
use crate::paths::{path_key, path_key_of, render, link_state, state_stem, resolve_link};
use crate::tags::{TagIndex, TagView, strip_note, add_tags};
use crate::dates::{DateIndex, strip_date_note, add_dates};
use crate::links::{LinkIndex, LinkEntry, LinkView, entries_at, strip_targets, add_targets, add_sources};
use crate::diagnostics::{Diagnostics, file_diagnostics};

verus! {

/// What a note was last indexed with: its tags and its dates, in order.
#[derive(Clone, Debug)]
pub struct FileIndexState {
    pub tags: Vec<String>,
    pub dates: Vec<Date>,
}

/// A file state as plain values.
pub type FileStateView = (Seq<Seq<char>>, Seq<Date>);

impl View for FileIndexState {
    type V = FileStateView;

    open spec fn view(&self) -> FileStateView {
        (Seq::new(self.tags@.len(), |i: int| self.tags@[i]@), self.dates@)
    }
}

/// A map with no notes.
pub open spec fn no_states() -> Map<Seq<char>, FileStateView> {
    Map::empty()
}

/// What the file-state map holds: for each note's path key, its state.
pub uninterp spec fn state_table(m: DashMap<String, FileIndexState>) -> Map<Seq<char>, FileStateView>;

/// `DashMap::new`: a map with no entries.
#[verifier::external_body]
fn state_new() -> (m: DashMap<String, FileIndexState>)
    ensures
        state_table(m) == no_states(),
{
    DashMap::new()
}

/// `DashMap::insert`: `key` now holds `v`, whatever it held before.
#[verifier::external_body]
fn state_insert(m: &mut DashMap<String, FileIndexState>, key: String, v: FileIndexState)
    ensures
        state_table(*final(m)) == state_table(*old(m)).insert(key@, v@),
{
    m.insert(key, v);
}

/// `DashMap::clear`: no entries are left.
#[verifier::external_body]
fn state_clear(m: &mut DashMap<String, FileIndexState>)
    ensures
        state_table(*final(m)) == no_states(),
{
    m.clear();
}

/// Where a link written `raw` in the note at `source` is filed: under the
/// one note whose stem it names, or else under its normalized path.
pub open spec fn link_target(source: Seq<char>, raw: Seq<char>, names: FilenameIndex) -> Seq<char> {
    let st = link_state(source, raw);
    let ps = names.lookup(state_stem(st));
    if ps.len() == 1 {
        ps[0]
    } else {
        render(st)
    }
}

/// The links found in the note at `source` (file name, label, span), as
/// index entries.
pub open spec fn link_entries(source: Seq<char>, ls: Seq<(Seq<char>, Seq<char>, ByteSpan)>, names: FilenameIndex) -> Seq<LinkView> {
    Seq::new(ls.len(), |i: int| (source, link_target(source, ls[i].0, names), ls[i].1, ls[i].2))
}

/// The tag, date, link and diagnostics indexes of a vault, and what each
/// note was last indexed with.
pub struct ConcurrentIndex {
    pub tags: TagIndex,
    pub dates: DateIndex,
    pub links: LinkIndex,
    pub diagnostics: Diagnostics,
    pub file_states: DashMap<String, FileIndexState>,
}

impl ConcurrentIndex {
    /// What each note was last indexed with, by path key.
    pub open spec fn states(&self) -> Map<Seq<char>, FileStateView> {
        state_table(self.file_states)
    }

    /// The indexes are well formed.
    pub open spec fn wf(&self) -> bool {
        self.tags.wf() && self.dates.wf() && self.links.wf()
    }

    /// Empty indexes.
    pub fn new() -> (r: Self)
        ensures
            r.wf(),
            r.tags.tags() == crate::tags::no_tags(),
            r.dates.dates() == crate::dates::no_dates(),
            r.links.targets() == crate::links::empty_table(),
            r.links.sources() == crate::links::empty_table(),
            r.diagnostics.table() == crate::diagnostics::no_diags(),
            r.states() == no_states(),
    {
        ConcurrentIndex {
            tags: TagIndex::new(),
            dates: DateIndex::new(),
            links: LinkIndex::new(),
            diagnostics: Diagnostics::new(),
            file_states: state_new(),
        }
    }

    /// Empties every index.
    pub fn clear(&mut self)
        ensures
            final(self).wf(),
            final(self).tags.tags() == crate::tags::no_tags(),
            final(self).dates.dates() == crate::dates::no_dates(),
            final(self).links.targets() == crate::links::empty_table(),
            final(self).links.sources() == crate::links::empty_table(),
            final(self).diagnostics.table() == crate::diagnostics::no_diags(),
            final(self).states() == no_states(),
    {
        self.tags.clear();
        self.dates.clear();
        self.links.clear();
        self.diagnostics.clear();
        state_clear(&mut self.file_states);
    }

    /// Indexes the note at `path` with text `content` anew: what it was
    /// indexed with before is forgotten, then its tags, dates and links are
    /// added in the order they occur (a link filed under the one note of
    /// its stem, if `names` knows exactly one, else under its normalized
    /// path), its diagnostics are checked and its state is kept. That this
    /// leaves every other note as it was, and that a second call with the
    /// same text changes nothing, is proved from this contract in
    /// [`crate::watch::law_reindex_keeps_other_notes`] and
    /// [`crate::watch::law_reindex_twice_is_once`].
    pub fn reindex_file(&mut self, path: &str, content: &str, vault_path: &str, names: &FilenameIndex)
        requires
            old(self).wf(),
            content.spec_bytes().len() < usize::MAX,
        ensures
            final(self).wf(),
            final(self).tags.tags() == add_tags(
                strip_note(old(self).tags.tags(), path_key(path@)),
                path@,
                tags_from(content.spec_bytes(), 0),
            ),
            final(self).dates.dates() == add_dates(
                strip_date_note(old(self).dates.dates(), path_key(path@)),
                path@,
                dates_from(content.spec_bytes(), 0),
            ),
            final(self).links.targets() == add_targets(
                strip_targets(
                    old(self).links.targets(),
                    entries_at(old(self).links.sources(), path_key(path@)),
                    path_key(path@),
                ),
                link_entries(path@, links_from(content.spec_bytes(), 0), *names),
            ),
            final(self).links.sources() == add_sources(
                old(self).links.sources().remove(path_key(path@)),
                link_entries(path@, links_from(content.spec_bytes(), 0), *names),
            ),
            final(self).diagnostics.table() == old(self).diagnostics.table().insert(
                path_key(path@),
                file_diagnostics(path@, content.spec_bytes(), *names),
            ),
            final(self).states() == old(self).states().insert(
                path_key(path@),
                (
                    Seq::new(tags_from(content.spec_bytes(), 0).len(), |i: int| tags_from(content.spec_bytes(), 0)[i].0),
                    Seq::new(dates_from(content.spec_bytes(), 0).len(), |i: int| dates_from(content.spec_bytes(), 0)[i].0),
                ),
            ),
    {
        let ghost p = path_key(path@);
        let ghost b = content.spec_bytes();
        let ghost old_tags = self.tags.tags();
        let ghost old_dates = self.dates.dates();
        let ghost old_t = self.links.targets();
        let ghost old_s = self.links.sources();
        let ghost old_d = self.diagnostics.table();
        let ghost old_states = self.states();
        self.tags.remove_file(path);
        assert(self.tags.tags() =~= strip_note(old_tags, p));
        self.dates.remove_file(path);
        assert(self.dates.dates() =~= strip_date_note(old_dates, p));
        self.links.remove_file(path);
        assert(self.links.targets() =~= strip_targets(old_t, entries_at(old_s, p), p));
        self.diagnostics.remove(path);
        let result = parse_content(content);
        let ghost ts = tags_from(b, 0);
        let ghost tag_base = self.tags.tags();
        let mut i: usize = 0;
        while i < result.tags.len()
            invariant
                i <= result.tags@.len(),
                crate::parser::tag_views(result.tags@) == ts,
                self.tags.wf(),
                self.tags.tags() == add_tags(tag_base, path@, ts.take(i as int)),
                self.dates.wf(),
                self.links.wf(),
                self.dates.dates() == strip_date_note(old_dates, p),
                self.links.targets() == strip_targets(old_t, entries_at(old_s, p), p),
                self.links.sources() == old_s.remove(p),
                self.diagnostics.table() == old_d.remove(p),
                self.states() == old_states,
            decreases result.tags@.len() - i,
        {
            assert(ts[i as int] == result.tags@[i as int]@);
            assert(ts.take(i + 1).drop_last() =~= ts.take(i as int));
            self.tags.add(path, result.tags[i].name.as_str(), result.tags[i].span);
            i = i + 1;
        }
        assert(ts.take(ts.len() as int) =~= ts);
        let ghost ds = dates_from(b, 0);
        let ghost date_base = self.dates.dates();
        let mut j: usize = 0;
        while j < result.dates.len()
            invariant
                j <= result.dates@.len(),
                crate::parser::date_views(result.dates@) == ds,
                ds == dates_from(b, 0),
                self.dates.wf(),
                self.dates.dates() == add_dates(date_base, path@, ds.take(j as int)),
                self.tags.wf(),
                self.links.wf(),
                self.tags.tags() == add_tags(tag_base, path@, ts),
                self.links.targets() == strip_targets(old_t, entries_at(old_s, p), p),
                self.links.sources() == old_s.remove(p),
                self.diagnostics.table() == old_d.remove(p),
                self.states() == old_states,
            decreases result.dates@.len() - j,
        {
            assert(ds[j as int] == result.dates@[j as int]@);
            assert(ds.take(j + 1).drop_last() =~= ds.take(j as int));
            proof {
                crate::parser::lemma_dates_exist(b, 0);
                assert(crate::parser::existing_date(dates_from(b, 0)[j as int].0));
            }
            self.dates.add(path, result.dates[j].date, result.dates[j].span);
            j = j + 1;
        }
        assert(ds.take(ds.len() as int) =~= ds);
        let ghost ls = links_from(b, 0);
        let ghost es = link_entries(path@, ls, *names);
        let ghost t_base = self.links.targets();
        let ghost s_base = self.links.sources();
        let mut k: usize = 0;
        while k < result.links.len()
            invariant
                k <= result.links@.len(),
                crate::parser::link_views(result.links@) == ls,
                es == link_entries(path@, ls, *names),
                self.links.wf(),
                self.tags.wf(),
                self.dates.wf(),
                self.tags.tags() == add_tags(tag_base, path@, ts),
                self.dates.dates() == add_dates(date_base, path@, ds),
                self.diagnostics.table() == old_d.remove(p),
                self.states() == old_states,
                self.links.targets() == add_targets(t_base, es.take(k as int)),
                self.links.sources() == add_sources(s_base, es.take(k as int)),
            decreases result.links@.len() - k,
        {
            let link = &result.links[k];
            assert(ls[k as int] == link@);
            let (normalized, stem) = resolve_link(path, link.file_name.as_str());
            let target = match names.get(stem.as_str()) {
                Some(v) => {
                    if v.len() == 1 {
                        assert(v@[0]@ == names.lookup(stem@)[0]);
                        v[0].clone()
                    } else {
                        normalized
                    }
                },
                None => normalized,
            };
            let entry = LinkEntry {
                source: path.to_owned(),
                target,
                label: link.label.clone(),
                span: link.span,
            };
            assert(entry@ == es[k as int]);
            assert(es.take(k + 1).drop_last() =~= es.take(k as int));
            self.links.add(path, entry);
            k = k + 1;
        }
        assert(es.take(es.len() as int) =~= es);
        self.diagnostics.check_file(path, content, vault_path, names);
        assert(old_d.remove(p).insert(p, file_diagnostics(path@, b, *names)) =~= old_d.insert(p, file_diagnostics(path@, b, *names)));
        let mut tag_names: Vec<String> = Vec::new();
        let mut q: usize = 0;
        while q < result.tags.len()
            invariant
                q <= result.tags@.len(),
                tag_names@.len() == q,
                crate::parser::tag_views(result.tags@) == ts,
                Seq::new(tag_names@.len(), |a: int| tag_names@[a]@) == Seq::new(q as nat, |a: int| ts[a].0),
            decreases result.tags@.len() - q,
        {
            assert(ts[q as int] == result.tags@[q as int]@);
            let ghost before = tag_names@;
            tag_names.push(result.tags[q].name.clone());
            assert(tag_names@[q as int]@ == ts[q as int].0);
            assert forall|a: int| 0 <= a < q implies tag_names@[a]@ == ts[a].0 by {
                assert(tag_names@[a] == before[a]);
                assert(Seq::new(before.len(), |c: int| before[c]@)[a] == Seq::new(q as nat, |c: int| ts[c].0)[a]);
            }
            assert(Seq::new(tag_names@.len(), |a: int| tag_names@[a]@) =~= Seq::new((q + 1) as nat, |a: int| ts[a].0));
            q = q + 1;
        }
        let mut date_list: Vec<Date> = Vec::new();
        let mut r: usize = 0;
        while r < result.dates.len()
            invariant
                r <= result.dates@.len(),
                crate::parser::date_views(result.dates@) == ds,
                date_list@ == Seq::new(r as nat, |a: int| ds[a].0),
            decreases result.dates@.len() - r,
        {
            assert(ds[r as int] == result.dates@[r as int]@);
            date_list.push(result.dates[r].date);
            assert(date_list@ =~= Seq::new((r + 1) as nat, |a: int| ds[a].0));
            r = r + 1;
        }
        let state = FileIndexState { tags: tag_names, dates: date_list };
        state_insert(&mut self.file_states, path_key_of(path), state);
    }
}

impl Default for ConcurrentIndex {
    fn default() -> (r: Self)
        ensures
            r.wf(),
            r.states() == no_states(),
    {
        ConcurrentIndex::new()
    }
}

/// Where re-indexing files each link of a note: a link whose stem the
/// file-name index knows for exactly one note is filed under that note;
/// one whose stem it knows for no note, or for two or more (an ambiguous
/// link), is filed under the link's own normalized path, whichever notes
/// share the stem. The entry keeps the note it comes from, the label and
/// the span.
pub proof fn law_link_filing(
    source: Seq<char>,
    ls: Seq<(Seq<char>, Seq<char>, ByteSpan)>,
    names: FilenameIndex,
    i: int,
)
    requires
        0 <= i < ls.len(),
    ensures
        link_entries(source, ls, names).len() == ls.len(),
        names.lookup(state_stem(link_state(source, ls[i].0))).len() == 1 ==> link_entries(source, ls, names)[i].1
            == names.lookup(state_stem(link_state(source, ls[i].0)))[0],
        names.lookup(state_stem(link_state(source, ls[i].0))).len() >= 2 ==> link_entries(source, ls, names)[i].1
            == render(link_state(source, ls[i].0)),
        names.lookup(state_stem(link_state(source, ls[i].0))).len() == 0 ==> link_entries(source, ls, names)[i].1
            == render(link_state(source, ls[i].0)),
        link_entries(source, ls, names)[i].0 == source,
        link_entries(source, ls, names)[i].2 == ls[i].1,
        link_entries(source, ls, names)[i].3 == ls[i].2,
{
}

/// The notes that share an ambiguous link's stem play no part in where it
/// is filed: a file-name index that knows the stem for two or more notes
/// files the link where any index that does not know it for exactly one
/// note does (one that knows it for none, or for other notes).
pub proof fn law_ambiguous_filing_ignores_candidates(
    source: Seq<char>,
    raw: Seq<char>,
    a: FilenameIndex,
    b: FilenameIndex,
)
    requires
        a.lookup(state_stem(link_state(source, raw))).len() >= 2,
        b.lookup(state_stem(link_state(source, raw))).len() != 1,
    ensures
        link_target(source, raw, a) == link_target(source, raw, b),
{
}

} // verus!
