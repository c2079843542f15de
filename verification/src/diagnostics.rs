//! Diagnostics of notes: references the parser could not use, links to no
//! note, and links whose name fits several notes.
use vstd::prelude::*;
use vstd::string::StringSliceAdditionalSpecFns;
use dashmap::DashMap;
use crate::model::ByteSpan;
use crate::names::FilenameIndex;
use crate::parser::{parse_content, links_from, link_errors_from, date_errors_from, LinkSpan};
use crate::paths::{path_key, path_key_of, render, link_state, state_stem, resolve_link};
use crate::text::push_str;

verus! {

/// How serious a diagnostic is.
#[derive(Clone, Copy, Debug, PartialEq, Eq, Structural)]
pub enum Severity {
    Warning,
}

/// A problem found in a note, and where.
#[derive(Clone, Debug)]
pub struct Diagnostic {
    pub span: ByteSpan,
    pub message: String,
    pub severity: Severity,
}

/// A diagnostic as plain values: span, message, severity.
pub type DiagView = (ByteSpan, Seq<char>, Severity);

impl View for Diagnostic {
    type V = DiagView;

    open spec fn view(&self) -> DiagView {
        (self.span, self.message@, self.severity)
    }
}

impl Diagnostic {
    /// A copy of the diagnostic.
    pub fn duplicate(&self) -> (r: Self)
        ensures
            r@ == self@,
    {
        Diagnostic { span: self.span, message: self.message.clone(), severity: self.severity }
    }
}

/// The diagnostics as plain values.
pub open spec fn diag_views(s: Seq<Diagnostic>) -> Seq<DiagView> {
    Seq::new(s.len(), |i: int| s[i]@)
}

/// The paths joined by `, `.
pub open spec fn join_paths(ps: Seq<Seq<char>>) -> Seq<char>
    decreases ps.len(),
{
    if ps.len() == 0 {
        seq![]
    } else if ps.len() == 1 {
        ps[0]
    } else {
        join_paths(ps.drop_last()) + ", "@ + ps.last()
    }
}

/// What is said of the link `l` (file name, label, span) written in the
/// note at `source`: nothing when its stem names one note, else that it is
/// broken (no note) or ambiguous (several).
pub open spec fn link_diag(source: Seq<char>, l: (Seq<char>, Seq<char>, ByteSpan), names: FilenameIndex) -> Seq<DiagView> {
    let stem = state_stem(link_state(source, l.0));
    let ps = names.lookup(stem);
    if ps.len() == 0 {
        seq![(l.2, "Broken link: "@ + l.0 + " — file not found"@, Severity::Warning)]
    } else if ps.len() > 1 {
        seq![(l.2, "Ambiguous link: "@ + stem + " — multiple files: "@ + join_paths(ps), Severity::Warning)]
    } else {
        seq![]
    }
}

/// What is said of the links `ls`, one after the other.
pub open spec fn links_diags(source: Seq<char>, ls: Seq<(Seq<char>, Seq<char>, ByteSpan)>, names: FilenameIndex) -> Seq<DiagView>
    decreases ls.len(),
{
    if ls.len() == 0 {
        seq![]
    } else {
        links_diags(source, ls.drop_last(), names) + link_diag(source, ls.last(), names)
    }
}

/// Each parse error as a warning.
pub open spec fn error_diags(es: Seq<(ByteSpan, Seq<char>, crate::parser::ParseErrorKind)>) -> Seq<DiagView> {
    Seq::new(es.len(), |i: int| (es[i].0, es[i].1, Severity::Warning))
}

/// The diagnostics of the note at `source` with text `b`: its parse errors,
/// then what is said of its links.
pub open spec fn file_diagnostics(source: Seq<char>, b: Seq<u8>, names: FilenameIndex) -> Seq<DiagView> {
    error_diags(link_errors_from(b, 0) + date_errors_from(b, 0)) + links_diags(source, links_from(b, 0), names)
}

/// A map with no notes.
pub open spec fn no_diags() -> Map<Seq<char>, Seq<DiagView>> {
    Map::empty()
}

/// What the diagnostics map holds: for each note's path key, its
/// diagnostics.
pub uninterp spec fn diag_table(m: DashMap<String, Vec<Diagnostic>>) -> Map<Seq<char>, Seq<DiagView>>;

/// `DashMap::new`: a map with no entries.
#[verifier::external_body]
fn table_new() -> (m: DashMap<String, Vec<Diagnostic>>)
    ensures
        diag_table(m) == no_diags(),
{
    DashMap::new()
}

/// `DashMap::get` with the value cloned out: the diagnostics under `key`,
/// if the key is present (String keys compare by their text).
#[verifier::external_body]
fn table_get(m: &DashMap<String, Vec<Diagnostic>>, key: &str) -> (r: Option<Vec<Diagnostic>>)
    ensures
        r is Some <==> diag_table(*m).contains_key(key@),
        r matches Some(v) ==> diag_views(v@) == diag_table(*m)[key@],
{
    match m.get(key) {
        Some(entry) => Some(entry.value().clone()),
        None => None,
    }
}

/// `DashMap::insert`: `key` now holds `v`, whatever it held before.
#[verifier::external_body]
fn table_insert(m: &mut DashMap<String, Vec<Diagnostic>>, key: String, v: Vec<Diagnostic>)
    ensures
        diag_table(*final(m)) == diag_table(*old(m)).insert(key@, diag_views(v@)),
{
    m.insert(key, v);
}

/// `DashMap::remove`: `key` is no longer present.
#[verifier::external_body]
fn table_remove(m: &mut DashMap<String, Vec<Diagnostic>>, key: &str)
    ensures
        diag_table(*final(m)) == diag_table(*old(m)).remove(key@),
{
    m.remove(key);
}

/// `DashMap::clear`: no entries are left.
#[verifier::external_body]
fn table_clear(m: &mut DashMap<String, Vec<Diagnostic>>)
    ensures
        diag_table(*final(m)) == no_diags(),
{
    m.clear();
}

/// The keys of the map, read by `DashMap::iter`: each present key once, in
/// an order that depends on the map's hasher and is left unsaid.
#[verifier::external_body]
fn table_keys(m: &DashMap<String, Vec<Diagnostic>>) -> (r: Vec<String>)
    ensures
        forall|i: int, j: int| 0 <= i < j < r@.len() ==> r@[i]@ != r@[j]@,
        forall|i: int| 0 <= i < r@.len() ==> diag_table(*m).contains_key(#[trigger] r@[i]@),
        forall|k: Seq<char>| diag_table(*m).contains_key(k) ==> exists|i: int| 0 <= i < r@.len() && #[trigger] r@[i]@ == k,
{
    let mut r = Vec::new();
    for entry in m.iter() {
        r.push(entry.key().clone());
    }
    r
}

/// The paths joined by `, `.
pub(crate) fn join_exec(ps: &Vec<String>) -> (r: String)
    ensures
        r@ == join_paths(Seq::new(ps@.len(), |i: int| ps@[i]@)),
{
    let ghost all = Seq::new(ps@.len(), |i: int| ps@[i]@);
    let mut out = String::new();
    let mut i: usize = 0;
    while i < ps.len()
        invariant
            i <= ps@.len(),
            all == Seq::new(ps@.len(), |q: int| ps@[q]@),
            out@ == join_paths(all.take(i as int)),
        decreases ps@.len() - i,
    {
        if i > 0 {
            push_str(&mut out, ", ");
        }
        push_str(&mut out, ps[i].as_str());
        proof {
            assert(all.take(i + 1).drop_last() =~= all.take(i as int));
            if i == 0 {
                assert(all.take(0) =~= Seq::<Seq<char>>::empty());
                assert(all.take(1) =~= seq![all[0]]);
            }
        }
        i = i + 1;
    }
    assert(all.take(all.len() as int) =~= all);
    out
}

/// What is said of one link (see [`link_diag`]).
fn diagnose_link(source: &str, link: &LinkSpan, names: &FilenameIndex, out: &mut Vec<Diagnostic>)
    ensures
        diag_views(final(out)@) == diag_views(old(out)@) + link_diag(source@, link@, *names),
{
    let (_target, stem) = resolve_link(source, link.file_name.as_str());
    let ghost before = diag_views(out@);
    match names.get(stem.as_str()) {
        None => {
            let mut m = "Broken link: ".to_owned();
            push_str(&mut m, link.file_name.as_str());
            push_str(&mut m, " — file not found");
            out.push(Diagnostic { span: link.span, message: m, severity: Severity::Warning });
            assert(diag_views(out@) =~= before + link_diag(source@, link@, *names));
        },
        Some(files) => {
            if files.len() > 1 {
                let mut m = "Ambiguous link: ".to_owned();
                push_str(&mut m, stem.as_str());
                push_str(&mut m, " — multiple files: ");
                let list = join_exec(&files);
                push_str(&mut m, list.as_str());
                out.push(Diagnostic { span: link.span, message: m, severity: Severity::Warning });
                assert(diag_views(out@) =~= before + link_diag(source@, link@, *names));
            } else {
                assert(diag_views(out@) =~= before + link_diag(source@, link@, *names));
            }
        },
    }
}

/// The diagnostics of every note checked, by path.
pub struct Diagnostics {
    file_diagnostics: DashMap<String, Vec<Diagnostic>>,
}

impl Diagnostics {
    /// The diagnostics kept, by path key.
    pub closed spec fn table(&self) -> Map<Seq<char>, Seq<DiagView>> {
        diag_table(self.file_diagnostics)
    }

    /// No note checked yet.
    pub fn new() -> (r: Self)
        ensures
            r.table() == no_diags(),
    {
        Diagnostics { file_diagnostics: table_new() }
    }

    /// Checks the note at `path` with text `content` and keeps what is
    /// found, in place of what was kept for it (the vault path is not
    /// used).
    pub fn check_file(&mut self, path: &str, content: &str, _vault_path: &str, names: &FilenameIndex)
        requires
            content.spec_bytes().len() < usize::MAX,
        ensures
            final(self).table() == old(self).table().insert(
                path_key(path@),
                file_diagnostics(path@, content.spec_bytes(), *names),
            ),
    {
        let result = parse_content(content);
        let ghost b = content.spec_bytes();
        let mut diags: Vec<Diagnostic> = Vec::new();
        let mut i: usize = 0;
        let ghost errs = link_errors_from(b, 0) + date_errors_from(b, 0);
        while i < result.errors.len()
            invariant
                i <= result.errors@.len(),
                crate::parser::error_views(result.errors@) == errs,
                diag_views(diags@) == error_diags(errs.take(i as int)),
            decreases result.errors@.len() - i,
        {
            let e = &result.errors[i];
            let ghost before = diag_views(diags@);
            let d = Diagnostic { span: e.span, message: e.message.clone(), severity: Severity::Warning };
            assert(d@ == (e.span, e.message@, Severity::Warning));
            diags.push(d);
            proof {
                assert(errs[i as int] == result.errors@[i as int]@);
                assert(diag_views(diags@) =~= before.push((errs[i as int].0, errs[i as int].1, Severity::Warning)));
                assert(error_diags(errs.take(i + 1)) =~= error_diags(errs.take(i as int)).push((errs[i as int].0, errs[i as int].1, Severity::Warning)));
            }
            i = i + 1;
        }
        assert(errs.take(errs.len() as int) =~= errs);
        let ghost head = diag_views(diags@);
        let ghost ls = links_from(b, 0);
        let mut j: usize = 0;
        while j < result.links.len()
            invariant
                j <= result.links@.len(),
                crate::parser::link_views(result.links@) == ls,
                diag_views(diags@) == head + links_diags(path@, ls.take(j as int), *names),
            decreases result.links@.len() - j,
        {
            proof {
                assert(ls[j as int] == result.links@[j as int]@);
                assert(ls.take(j + 1).drop_last() =~= ls.take(j as int));
            }
            diagnose_link(path, &result.links[j], names, &mut diags);
            proof {
                assert(head + links_diags(path@, ls.take(j + 1), *names) =~= head + links_diags(path@, ls.take(j as int), *names) + link_diag(path@, ls[j as int], *names));
            }
            j = j + 1;
        }
        assert(ls.take(ls.len() as int) =~= ls);
        let key = path_key_of(path);
        table_insert(&mut self.file_diagnostics, key, diags);
    }

    /// The diagnostics kept for `path`, none if it was not checked.
    pub fn get(&self, path: &str) -> (r: Vec<Diagnostic>)
        ensures
            diag_views(r@) == if self.table().contains_key(path_key(path@)) {
                self.table()[path_key(path@)]
            } else {
                seq![]
            },
    {
        let key = path_key_of(path);
        match table_get(&self.file_diagnostics, key.as_str()) {
            Some(v) => v,
            None => {
                let v: Vec<Diagnostic> = Vec::new();
                assert(diag_views(v@) =~= seq![]);
                v
            },
        }
    }

    /// Every note checked with its diagnostics, in the map's order.
    pub fn all(&self) -> (r: Vec<(String, Vec<Diagnostic>)>)
        ensures
            forall|i: int, j: int| 0 <= i < j < r@.len() ==> r@[i].0@ != r@[j].0@,
            forall|i: int| 0 <= i < r@.len() ==> self.table().contains_key(#[trigger] r@[i].0@) && diag_views(r@[i].1@)
                == self.table()[r@[i].0@],
            forall|k: Seq<char>| self.table().contains_key(k) ==> exists|i: int| 0 <= i < r@.len() && #[trigger] r@[i].0@ == k,
    {
        let keys = table_keys(&self.file_diagnostics);
        let mut out: Vec<(String, Vec<Diagnostic>)> = Vec::new();
        let mut i: usize = 0;
        while i < keys.len()
            invariant
                i <= keys@.len(),
                out@.len() == i,
                forall|a: int| 0 <= a < keys@.len() ==> self.table().contains_key(#[trigger] keys@[a]@),
                forall|a: int| 0 <= a < i ==> #[trigger] out@[a].0@ == keys@[a]@ && diag_views(out@[a].1@) == self.table()[keys@[a]@],
            decreases keys@.len() - i,
        {
            assert(self.table().contains_key(keys@[i as int]@));
            let v = match table_get(&self.file_diagnostics, keys[i].as_str()) {
                Some(v) => v,
                None => Vec::new(),
            };
            let ghost before = out@;
            out.push((keys[i].clone(), v));
            proof {
                assert forall|a: int| 0 <= a < i + 1 implies #[trigger] out@[a].0@ == keys@[a]@ && diag_views(out@[a].1@) == self.table()[keys@[a]@] by {
                    if a < i {
                        assert(out@[a] == before[a]);
                    }
                }
            }
            i = i + 1;
        }
        proof {
            assert forall|k: Seq<char>| self.table().contains_key(k) implies exists|i: int| 0 <= i < out@.len() && #[trigger] out@[i].0@ == k by {
                let q = choose|q: int| 0 <= q < keys@.len() && #[trigger] keys@[q]@ == k;
                assert(out@[q].0@ == k);
            }
        }
        out
    }

    /// Forgets what was kept for `path`.
    pub fn remove(&mut self, path: &str)
        ensures
            final(self).table() == old(self).table().remove(path_key(path@)),
    {
        let key = path_key_of(path);
        table_remove(&mut self.file_diagnostics, key.as_str());
    }

    /// Forgets every note's diagnostics.
    pub fn clear(&mut self)
        ensures
            final(self).table() == no_diags(),
    {
        table_clear(&mut self.file_diagnostics);
    }
}

impl Default for Diagnostics {
    fn default() -> (r: Self)
        ensures
            r.table() == no_diags(),
    {
        Diagnostics::new()
    }
}

/// The list that [`Diagnostics::get`] hands out for the path key `k` of
/// the table `t`.
pub open spec fn kept_for(t: Map<Seq<char>, Seq<DiagView>>, k: Seq<char>) -> Seq<DiagView> {
    if t.contains_key(k) { t[k] } else { seq![] }
}

/// Checking a note replaces the list kept for it: after two checks of the
/// note at `path` (with any texts and file-name indexes) the table is what
/// the second check alone makes of the first table, and every other note
/// keeps its list through both. The vault path plays no part in either.
pub proof fn law_check_file_replaces(
    before: Diagnostics,
    mid: Diagnostics,
    after: Diagnostics,
    path: Seq<char>,
    first: Seq<u8>,
    second: Seq<u8>,
    names1: FilenameIndex,
    names2: FilenameIndex,
    other: Seq<char>,
)
    requires
        mid.table() == before.table().insert(path_key(path), file_diagnostics(path, first, names1)),
        after.table() == mid.table().insert(path_key(path), file_diagnostics(path, second, names2)),
    ensures
        after.table() == before.table().insert(path_key(path), file_diagnostics(path, second, names2)),
        kept_for(after.table(), path_key(path)) == file_diagnostics(path, second, names2),
        path_key(other) != path_key(path) ==> kept_for(after.table(), path_key(other)) == kept_for(
            before.table(),
            path_key(other),
        ),
{
    assert(after.table() =~= before.table().insert(path_key(path), file_diagnostics(path, second, names2)));
}

} // verus!
