//! The tool server's tools that answer from the indexes: tags with their
//! counts, dates with their notes, the links into and out of a note, and
//! diagnostics. Each takes the request's parameters and gives a JSON result
//! or an error code and message.
use vstd::prelude::*;
use crate::json::{Json, JsonView, jstr, field, text_of, member_views, element_views, lemma_array_view, lemma_object_view};
use crate::model::ByteSpan;
use crate::date::{Date, iso_date, iso_date_string, valid_ymd};
use crate::tags::{TagView, tag_views, tag_entries};
use crate::dates::{date_views, date_entries, note_date};
use crate::links::{LinkEntry, LinkView, link_views, entries_at};
use crate::diagnostics::{Diagnostic, DiagView, diag_views, join_paths, join_exec};
use crate::names::FilenameIndex;
use crate::index::ConcurrentIndex;
use crate::paths::{path_key, file_name, file_stem, file_name_of, file_stem_of, join_path, join_path_of};
use crate::text::{decimal, push_decimal, push_str};
use crate::search::entry_paths;
use crate::order::texts;
use chrono::Datelike;

verus! {

/// What a tool gives: a JSON result, or an error code and message.
pub type ToolResult = Result<Json, (i32, String)>;

/// A tool's result as plain values.
pub open spec fn result_view(r: ToolResult) -> Result<JsonView, (i32, Seq<char>)> {
    match r {
        Ok(j) => Ok(j@),
        Err((c, m)) => Err((c, m@)),
    }
}

/// A natural number as JSON.
pub open spec fn jnum(n: nat) -> JsonView {
    JsonView::Number(decimal(n))
}

/// A span as JSON.
pub open spec fn span_json(s: ByteSpan) -> JsonView {
    JsonView::Object(seq![("offset"@, jnum(s.offset as nat)), ("length"@, jnum(s.length as nat))])
}

/// A diagnostic as JSON.
pub open spec fn diag_json(d: DiagView) -> JsonView {
    JsonView::Object(seq![("span"@, span_json(d.0)), ("message"@, jstr(d.1)), ("severity"@, jstr("Warning"@))])
}

/// Diagnostics as a JSON array.
pub open spec fn diags_json(ds: Seq<DiagView>) -> JsonView {
    JsonView::Array(Seq::new(ds.len(), |i: int| diag_json(ds[i])))
}

/// A link as JSON: source, target and label.
pub open spec fn link_json(l: LinkView) -> JsonView {
    JsonView::Object(seq![("source"@, jstr(l.0)), ("target"@, jstr(l.1)), ("label"@, jstr(l.2))])
}

/// Links as a JSON array.
pub open spec fn links_json(ls: Seq<LinkView>) -> JsonView {
    JsonView::Array(Seq::new(ls.len(), |i: int| link_json(ls[i])))
}

/// The text parameter `key`, if the parameters have it as a string.
pub open spec fn param_text(params: Option<JsonView>, key: Seq<char>) -> Option<Seq<char>> {
    match params {
        Some(p) => text_of(field(p, key)),
        None => None,
    }
}

/// The `path` parameter of a tool that requires one, or its error.
pub open spec fn required_path(params: Option<JsonView>) -> Result<Seq<char>, (i32, Seq<char>)> {
    match params {
        None => Err((-32602i32, "Missing parameters"@)),
        Some(_) => match param_text(params, "path"@) {
            Some(p) => Ok(p),
            None => Err((-32602i32, "Missing required parameter: path"@)),
        },
    }
}

/// What `get_backlinks` answers: the links into the note named by the
/// stem of `path` (or `path` itself when it has no file name).
pub open spec fn backlinks_result(targets: Map<Seq<char>, Seq<LinkView>>, params: Option<JsonView>) -> Result<JsonView, (i32, Seq<char>)> {
    match required_path(params) {
        Err(e) => Err(e),
        Ok(p) => {
            let target = match file_name(p) {
                Some(_) => file_stem(p),
                None => p,
            };
            Ok(links_json(entries_at(targets, path_key(target))))
        },
    }
}

/// What `get_outgoing_links` answers: the links out of the note at `path`
/// below the vault.
pub open spec fn outgoing_result(sources: Map<Seq<char>, Seq<LinkView>>, vault: Seq<char>, params: Option<JsonView>) -> Result<JsonView, (i32, Seq<char>)> {
    match required_path(params) {
        Err(e) => Err(e),
        Ok(p) => Ok(links_json(entries_at(sources, path_key(join_path(vault, p))))),
    }
}

/// The entry of `get_tags` for one tag: its name and its number of notes.
pub open spec fn tag_item(name: Seq<char>, notes: nat) -> JsonView {
    JsonView::Object(seq![("tag"@, jstr(name)), ("count"@, jnum(notes))])
}

/// The entry of `get_dates` for one date: its ISO text and its notes.
pub open spec fn date_item(d: Date, es: Seq<TagView>) -> JsonView {
    JsonView::Object(seq![
        ("date"@, jstr(iso_date(d))),
        ("notes"@, JsonView::Array(Seq::new(es.len(), |i: int| jstr(es[i].0)))),
    ])
}

/// Is `a` no later than `b`?
pub open spec fn date_le(a: Date, b: Date) -> bool {
    a.year < b.year || (a.year == b.year && (a.month < b.month || (a.month == b.month && a.day <= b.day)))
}

/// The entries of `get_dates` for the dates `ds` that lie in `range`
/// (every date without one), in order.
pub open spec fn date_items(m: Map<Date, Seq<TagView>>, ds: Seq<Date>, range: Option<(Date, Date)>) -> Seq<JsonView>
    decreases ds.len(),
{
    if ds.len() == 0 {
        seq![]
    } else {
        let d = ds.last();
        let rest = date_items(m, ds.drop_last(), range);
        let inside = match range {
            Some((from, to)) => date_le(from, d) && date_le(d, to),
            None => true,
        };
        if inside { rest.push(date_item(d, date_entries(m, d))) } else { rest }
    }
}

/// What chrono reads from a `DD.MM.YYYY` text (`NaiveDate::parse_from_str`
/// with `%d.%m.%Y`).
pub uninterp spec fn dmy_date(s: Seq<char>) -> Option<Date>;

/// The date written `DD.MM.YYYY` in `s`, if chrono reads one
/// (`NaiveDate::parse_from_str` with the format `%d.%m.%Y`). chrono gives
/// only days that exist.
#[verifier::external_body]
fn parse_dmy(s: &str) -> (r: Option<Date>)
    ensures
        r == dmy_date(s@),
        r matches Some(d) ==> valid_ymd(d.year as int, d.month as int, d.day as int),
{
    match chrono::NaiveDate::parse_from_str(s, "%d.%m.%Y") {
        Ok(nd) => Some(Date { year: nd.year(), month: nd.month(), day: nd.day() }),
        Err(_) => None,
    }
}

/// The range `get_dates` is asked for: both ends read, or the error for
/// the first that does not read; no range unless both are given.
pub open spec fn date_range(params: Option<JsonView>) -> Result<Option<(Date, Date)>, (i32, Seq<char>)> {
    match (param_text(params, "from"@), param_text(params, "to"@)) {
        (Some(f), Some(t)) => match dmy_date(f) {
            None => Err((-32602i32, "Invalid date format for 'from': "@ + f + ". Expected DD.MM.YYYY"@)),
            Some(a) => match dmy_date(t) {
                None => Err((-32602i32, "Invalid date format for 'to': "@ + t + ". Expected DD.MM.YYYY"@)),
                Some(b) => Ok(Some((a, b))),
            },
        },
        _ => Ok(None),
    }
}

// ---------------------------------------------------------------- code

/// The decimal text of `n` as JSON.
fn num_json(n: usize) -> (r: Json)
    ensures
        r@ == jnum(n as nat),
{
    let mut t = String::new();
    push_decimal(&mut t, n as u64);
    Json::Number(t)
}

fn object(m: Vec<(String, Json)>) -> (r: Json)
    ensures
        r@ == JsonView::Object(member_views(m@)),
{
    proof {
        lemma_object_view(m);
    }
    Json::Object(m)
}

fn array(v: Vec<Json>) -> (r: Json)
    ensures
        r@ == JsonView::Array(element_views(v@)),
{
    proof {
        lemma_array_view(v);
    }
    Json::Array(v)
}

/// The text parameter `key` (see [`param_text`]).
fn param(params: &Option<Json>, key: &str) -> (r: Option<String>)
    ensures
        match param_text(crate::rpc::opt_view(*params), key@) {
            Some(t) => r matches Some(x) && x@ == t,
            None => r is None,
        },
{
    match params {
        Some(p) => match p.get(key) {
            Some(v) => match v.as_str() {
                Some(t) => Some(t.clone()),
                None => None,
            },
            None => None,
        },
        None => None,
    }
}

/// The `path` a tool requires (see [`required_path`]).
fn path_param(params: &Option<Json>) -> (r: Result<String, (i32, String)>)
    ensures
        match required_path(crate::rpc::opt_view(*params)) {
            Ok(p) => r matches Ok(x) && x@ == p,
            Err((c, m)) => r matches Err((c2, m2)) && c2 == c && m2@ == m,
        },
{
    if params.is_none() {
        return Err((-32602, String::from_str("Missing parameters")));
    }
    match param(params, "path") {
        Some(p) => Ok(p),
        None => Err((-32602, String::from_str("Missing required parameter: path"))),
    }
}

/// A span as JSON (see [`span_json`]).
fn span_to_json(s: ByteSpan) -> (r: Json)
    ensures
        r@ == span_json(s),
{
    let mut m: Vec<(String, Json)> = Vec::new();
    m.push((String::from_str("offset"), num_json(s.offset)));
    m.push((String::from_str("length"), num_json(s.length)));
    assert(member_views(m@) =~= seq![("offset"@, jnum(s.offset as nat)), ("length"@, jnum(s.length as nat))]);
    object(m)
}

/// Diagnostics as JSON (see [`diags_json`]).
fn diags_to_json(ds: &Vec<Diagnostic>) -> (r: Json)
    ensures
        r@ == diags_json(diag_views(ds@)),
{
    let mut items: Vec<Json> = Vec::new();
    let mut i: usize = 0;
    while i < ds.len()
        invariant
            i <= ds@.len(),
            items@.len() == i,
            forall|k: int| 0 <= k < i ==> #[trigger] items@[k]@ == diag_json(ds@[k]@),
        decreases ds@.len() - i,
    {
        let d = &ds[i];
        let mut m: Vec<(String, Json)> = Vec::new();
        m.push((String::from_str("span"), span_to_json(d.span)));
        m.push((String::from_str("message"), Json::Str(d.message.clone())));
        m.push((String::from_str("severity"), Json::Str(String::from_str("Warning"))));
        assert(member_views(m@) =~= seq![("span"@, span_json(d.span)), ("message"@, jstr(d.message@)), ("severity"@, jstr("Warning"@))]);
        items.push(object(m));
        i = i + 1;
    }
    assert(element_views(items@) =~= Seq::new(diag_views(ds@).len(), |k: int| diag_json(diag_views(ds@)[k])));
    array(items)
}

/// Links as JSON (see [`links_json`]).
fn links_to_json(ls: &Vec<LinkEntry>) -> (r: Json)
    ensures
        r@ == links_json(link_views(ls@)),
{
    let mut items: Vec<Json> = Vec::new();
    let mut i: usize = 0;
    while i < ls.len()
        invariant
            i <= ls@.len(),
            items@.len() == i,
            forall|k: int| 0 <= k < i ==> #[trigger] items@[k]@ == link_json(ls@[k]@),
        decreases ls@.len() - i,
    {
        let l = &ls[i];
        let mut m: Vec<(String, Json)> = Vec::new();
        m.push((String::from_str("source"), Json::Str(l.source.clone())));
        m.push((String::from_str("target"), Json::Str(l.target.clone())));
        m.push((String::from_str("label"), Json::Str(l.label.clone())));
        assert(member_views(m@) =~= seq![("source"@, jstr(l.source@)), ("target"@, jstr(l.target@)), ("label"@, jstr(l.label@))]);
        items.push(object(m));
        i = i + 1;
    }
    assert(element_views(items@) =~= Seq::new(link_views(ls@).len(), |k: int| link_json(link_views(ls@)[k])));
    array(items)
}

/// The links into the note named by `path`'s stem (see
/// [`backlinks_result`]).
pub fn get_backlinks(index: &ConcurrentIndex, params: Option<Json>) -> (r: ToolResult)
    ensures
        result_view(r) == backlinks_result(index.links.targets(), crate::rpc::opt_view(params)),
{
    let path = match path_param(&params) {
        Ok(p) => p,
        Err(e) => return Err(e),
    };
    let target = match file_name_of(path.as_str()) {
        Some(_) => file_stem_of(path.as_str()),
        None => path,
    };
    let links = index.links.backlinks(target.as_str());
    Ok(links_to_json(&links))
}

/// The links out of the note at `path` below the vault (see
/// [`outgoing_result`]).
pub fn get_outgoing_links(index: &ConcurrentIndex, vault_path: &str, params: Option<Json>) -> (r: ToolResult)
    ensures
        result_view(r) == outgoing_result(index.links.sources(), vault_path@, crate::rpc::opt_view(params)),
{
    let path = match path_param(&params) {
        Ok(p) => p,
        Err(e) => return Err(e),
    };
    let source = join_path_of(vault_path, path.as_str());
    let links = index.links.outgoing(source.as_str());
    Ok(links_to_json(&links))
}

/// Every tag with its number of notes, one entry each, in the index's
/// order.
pub fn get_tags(index: &ConcurrentIndex, _params: Option<Json>) -> (r: ToolResult)
    ensures
        r matches Ok(j) && exists|names: Seq<Seq<char>>| {
            &&& names.no_duplicates()
            &&& (forall|k: Seq<char>| names.contains(k) <==> index.tags.tags().contains_key(k))
            &&& j@ == JsonView::Array(Seq::new(names.len(), |i: int| tag_item(names[i], tag_entries(index.tags.tags(), names[i]).len())))
        },
{
    let names = index.tags.all_tags();
    let ghost nv = texts(names@);
    let mut items: Vec<Json> = Vec::new();
    let mut i: usize = 0;
    while i < names.len()
        invariant
            i <= names@.len(),
            nv == texts(names@),
            items@.len() == i,
            forall|k: int| 0 <= k < i ==> #[trigger] items@[k]@ == tag_item(nv[k], tag_entries(index.tags.tags(), nv[k]).len()),
        decreases names@.len() - i,
    {
        let es = index.tags.get(names[i].as_str());
        assert(tag_views(es@).len() == es@.len());
        let mut m: Vec<(String, Json)> = Vec::new();
        m.push((String::from_str("tag"), Json::Str(names[i].clone())));
        m.push((String::from_str("count"), num_json(es.len())));
        assert(member_views(m@) =~= seq![("tag"@, jstr(nv[i as int])), ("count"@, jnum(es@.len() as nat))]);
        items.push(object(m));
        i = i + 1;
    }
    let ghost m = index.tags.tags();
    proof {
        assert(nv.no_duplicates()) by {
            assert forall|a: int, b: int| 0 <= a < nv.len() && 0 <= b < nv.len() && a != b implies nv[a] != nv[b] by {
                if a < b {
                    assert(names@[a]@ != names@[b]@);
                } else {
                    assert(names@[b]@ != names@[a]@);
                }
            }
        }
        assert forall|k: Seq<char>| nv.contains(k) <==> m.contains_key(k) by {
            if nv.contains(k) {
                let q = choose|q: int| 0 <= q < nv.len() && nv[q] == k;
                assert(m.contains_key(names@[q]@));
            }
            if m.contains_key(k) {
                let q = choose|q: int| 0 <= q < names@.len() && #[trigger] names@[q]@ == k;
                assert(nv[q] == k);
            }
        }
        assert(element_views(items@) =~= Seq::new(nv.len(), |q: int| tag_item(nv[q], tag_entries(m, nv[q]).len())));
    }
    Ok(array(items))
}

/// The diagnostics of the note at `path`, or of every note checked.
pub fn get_diagnostics(index: &ConcurrentIndex, params: Option<Json>) -> (r: ToolResult)
    ensures
        match param_text(crate::rpc::opt_view(params), "path"@) {
            Some(p) => r matches Ok(j) && j@ == JsonView::Object(seq![("diagnostics"@, diags_json(
                if index.diagnostics.table().contains_key(path_key(p)) { index.diagnostics.table()[path_key(p)] } else { seq![] },
            ))]),
            None => r matches Ok(j) && exists|ks: Seq<Seq<char>>| {
                &&& ks.no_duplicates()
                &&& (forall|k: Seq<char>| ks.contains(k) <==> index.diagnostics.table().contains_key(k))
                &&& j@ == JsonView::Object(seq![("files"@, JsonView::Array(Seq::new(ks.len(), |i: int| JsonView::Object(seq![
                    ("path"@, jstr(ks[i])),
                    ("diagnostics"@, diags_json(index.diagnostics.table()[ks[i]])),
                ]))))])
            },
        },
{
    match param(&params, "path") {
        Some(p) => {
            let ds = index.diagnostics.get(p.as_str());
            let mut m: Vec<(String, Json)> = Vec::new();
            let dj = diags_to_json(&ds);
            let ghost dv = dj@;
            m.push((String::from_str("diagnostics"), dj));
            assert(member_views(m@) =~= seq![("diagnostics"@, dv)]);
            Ok(object(m))
        },
        None => {
            let all = index.diagnostics.all();
            let ghost t = index.diagnostics.table();
            let ghost ks = Seq::new(all@.len(), |i: int| all@[i].0@);
            let mut files: Vec<Json> = Vec::new();
            let mut i: usize = 0;
            while i < all.len()
                invariant
                    i <= all@.len(),
                    ks == Seq::new(all@.len(), |i: int| all@[i].0@),
                    t == index.diagnostics.table(),
                    forall|a: int| 0 <= a < all@.len() ==> t.contains_key(#[trigger] all@[a].0@) && diag_views(all@[a].1@) == t[all@[a].0@],
                    files@.len() == i,
                    forall|k: int| 0 <= k < i ==> #[trigger] files@[k]@ == JsonView::Object(seq![
                        ("path"@, jstr(ks[k])),
                        ("diagnostics"@, diags_json(t[ks[k]])),
                    ]),
                decreases all@.len() - i,
            {
                let mut m: Vec<(String, Json)> = Vec::new();
                let dj = diags_to_json(&all[i].1);
                let ghost dv = dj@;
                m.push((String::from_str("path"), Json::Str(all[i].0.clone())));
                m.push((String::from_str("diagnostics"), dj));
                assert(member_views(m@) =~= seq![("path"@, jstr(ks[i as int])), ("diagnostics"@, dv)]);
                files.push(object(m));
                i = i + 1;
            }
            proof {
                assert(ks.no_duplicates()) by {
                    assert forall|a: int, b: int| 0 <= a < ks.len() && 0 <= b < ks.len() && a != b implies ks[a] != ks[b] by {
                        if a < b {
                            assert(all@[a].0@ != all@[b].0@);
                        } else {
                            assert(all@[b].0@ != all@[a].0@);
                        }
                    }
                }
                assert forall|k: Seq<char>| ks.contains(k) <==> t.contains_key(k) by {
                    if ks.contains(k) {
                        let q = choose|q: int| 0 <= q < ks.len() && ks[q] == k;
                        assert(t.contains_key(all@[q].0@));
                    }
                    if t.contains_key(k) {
                        let q = choose|q: int| 0 <= q < all@.len() && #[trigger] all@[q].0@ == k;
                        assert(ks[q] == k);
                    }
                }
            }
            let ghost fs = Seq::new(ks.len(), |i: int| JsonView::Object(seq![
                ("path"@, jstr(ks[i])),
                ("diagnostics"@, diags_json(t[ks[i]])),
            ]));
            assert(element_views(files@) =~= fs);
            let fj = array(files);
            let ghost fv = fj@;
            let mut m: Vec<(String, Json)> = Vec::new();
            m.push((String::from_str("files"), fj));
            assert(member_views(m@) =~= seq![("files"@, fv)]);
            let res = object(m);
            assert(res@ == JsonView::Object(seq![("files"@, JsonView::Array(fs))]));
            Ok(res)
        },
    }
}

/// Every date with its notes, one entry each, in the index's order; with
/// both `from` and `to` (`DD.MM.YYYY`), only the dates between them (see
/// [`date_range`]).
pub fn get_dates(index: &ConcurrentIndex, params: Option<Json>) -> (r: ToolResult)
    requires
        index.dates.wf(),
    ensures
        match date_range(crate::rpc::opt_view(params)) {
            Err((c, m)) => r matches Err((c2, m2)) && c2 == c && m2@ == m,
            Ok(range) => r matches Ok(j) && exists|ds: Seq<Date>| {
                &&& ds.no_duplicates()
                &&& (forall|d: Date| ds.contains(d) <==> index.dates.dates().contains_key(d))
                &&& j@ == JsonView::Array(date_items(index.dates.dates(), ds, range))
            },
        },
{
    let from = param(&params, "from");
    let to = param(&params, "to");
    let range = match (from, to) {
        (Some(f), Some(t)) => {
            let a = match parse_dmy(f.as_str()) {
                Some(a) => a,
                None => {
                    let mut m = String::from_str("Invalid date format for 'from': ");
                    crate::text::push_str(&mut m, f.as_str());
                    crate::text::push_str(&mut m, ". Expected DD.MM.YYYY");
                    return Err((-32602, m));
                },
            };
            let b = match parse_dmy(t.as_str()) {
                Some(b) => b,
                None => {
                    let mut m = String::from_str("Invalid date format for 'to': ");
                    crate::text::push_str(&mut m, t.as_str());
                    crate::text::push_str(&mut m, ". Expected DD.MM.YYYY");
                    return Err((-32602, m));
                },
            };
            Some((a, b))
        },
        _ => None,
    };
    let rows = index.dates.all_dates();
    let ghost m = index.dates.dates();
    let ghost ds = Seq::new(rows@.len(), |i: int| rows@[i].0);
    let mut items: Vec<Json> = Vec::new();
    let mut i: usize = 0;
    while i < rows.len()
        invariant
            i <= rows@.len(),
            index.dates.wf(),
            m == index.dates.dates(),
            ds == Seq::new(rows@.len(), |i: int| rows@[i].0),
            forall|a: int| 0 <= a < rows@.len() ==> m.contains_key(#[trigger] rows@[a].0) && date_views(rows@[a].1@) == m[rows@[a].0],
            element_views(items@) == date_items(m, ds.take(i as int), range),
        decreases rows@.len() - i,
    {
        let d = rows[i].0;
        assert(ds.take(i + 1).drop_last() =~= ds.take(i as int));
        assert(ds.take(i + 1).last() == d);
        let inside = match range {
            Some((a, b)) => date_before_eq(a, d) && date_before_eq(d, b),
            None => true,
        };
        if inside {
            assert(m.contains_key(d));
            assert(note_date(d));
            let es = &rows[i].1;
            let mut notes: Vec<Json> = Vec::new();
            let mut k: usize = 0;
            while k < es.len()
                invariant
                    k <= es@.len(),
                    notes@.len() == k,
                    forall|q: int| 0 <= q < k ==> #[trigger] notes@[q]@ == jstr(es@[q].path@),
                decreases es@.len() - k,
            {
                notes.push(Json::Str(es[k].path.clone()));
                k = k + 1;
            }
            let ghost ev = date_views(es@);
            assert(ev == date_entries(m, d));
            assert(element_views(notes@) =~= Seq::new(ev.len(), |q: int| jstr(ev[q].0)));
            let nj = array(notes);
            let ghost nv = nj@;
            let mut obj: Vec<(String, Json)> = Vec::new();
            obj.push((String::from_str("date"), Json::Str(iso_date_string(d))));
            obj.push((String::from_str("notes"), nj));
            assert(member_views(obj@) =~= seq![("date"@, jstr(iso_date(d))), ("notes"@, nv)]);
            let ghost before = element_views(items@);
            let item = object(obj);
            let ghost iv = item@;
            items.push(item);
            assert(element_views(items@) =~= before.push(iv));
        }
        i = i + 1;
    }
    proof {
        assert(ds.take(rows@.len() as int) =~= ds);
        assert(ds.no_duplicates()) by {
            assert forall|a: int, b: int| 0 <= a < ds.len() && 0 <= b < ds.len() && a != b implies ds[a] != ds[b] by {
                if a < b {
                    assert(rows@[a].0 != rows@[b].0);
                } else {
                    assert(rows@[b].0 != rows@[a].0);
                }
            }
        }
        assert forall|d: Date| ds.contains(d) <==> m.contains_key(d) by {
            if ds.contains(d) {
                let q = choose|q: int| 0 <= q < ds.len() && ds[q] == d;
                assert(m.contains_key(rows@[q].0));
            }
            if m.contains_key(d) {
                let q = choose|q: int| 0 <= q < rows@.len() && #[trigger] rows@[q].0 == d;
                assert(ds[q] == d);
            }
        }
    }
    Ok(array(items))
}

/// Is `a` no later than `b` (see [`date_le`])?
fn date_before_eq(a: Date, b: Date) -> (r: bool)
    ensures
        r == date_le(a, b),
{
    a.year < b.year || (a.year == b.year && (a.month < b.month || (a.month == b.month && a.day <= b.day)))
}


/// What `resolve_link` answers for the `target` parameter: the path of the
/// one note with that stem, or that the link is broken (no such note) or
/// ambiguous (several, listed).
pub open spec fn resolve_result(names: FilenameIndex, params: Option<JsonView>) -> Result<JsonView, (i32, Seq<char>)> {
    match params {
        None => Err((-32602i32, "Missing parameters"@)),
        Some(_) => match param_text(params, "target"@) {
            None => Err((-32602i32, "Missing required parameter: target"@)),
            Some(t) => {
                let ps = names.lookup(t);
                if ps.len() == 1 {
                    Ok(JsonView::Object(seq![("path"@, jstr(ps[0]))]))
                } else if ps.len() == 0 {
                    Err((-32000i32, "Broken link: "@ + t + " — file not found"@))
                } else {
                    Err((-32000i32, "Ambiguous link: "@ + t + " — multiple files: "@ + join_paths(ps)))
                }
            },
        },
    }
}

/// Resolves a link target to the note it names (see [`resolve_result`]).
pub fn resolve_link(names: &FilenameIndex, params: Option<Json>) -> (r: ToolResult)
    ensures
        result_view(r) == resolve_result(*names, crate::rpc::opt_view(params)),
{
    if params.is_none() {
        return Err((-32602, String::from_str("Missing parameters")));
    }
    let target = match param(&params, "target") {
        Some(t) => t,
        None => return Err((-32602, String::from_str("Missing required parameter: target"))),
    };
    match names.get(target.as_str()) {
        None => {
            let mut m = "Broken link: ".to_owned();
            push_str(&mut m, target.as_str());
            push_str(&mut m, " — file not found");
            Err((-32000, m))
        },
        Some(paths) => {
            if paths.len() == 1 {
                let mut members: Vec<(String, Json)> = Vec::new();
                members.push((String::from_str("path"), Json::Str(paths[0].clone())));
                assert(member_views(members@) =~= seq![("path"@, jstr(names.lookup(target@)[0]))]);
                Ok(object(members))
            } else {
                let mut m = "Ambiguous link: ".to_owned();
                push_str(&mut m, target.as_str());
                push_str(&mut m, " — multiple files: ");
                let list = join_exec(&paths);
                push_str(&mut m, list.as_str());
                Err((-32000, m))
            }
        },
    }
}

/// Does `d` lie between `from` and `to`, both included, in calendar order:
/// by year, then month, then day?
pub open spec fn calendar_between(from: Date, d: Date, to: Date) -> bool {
    &&& (from.year < d.year || (from.year == d.year && (from.month < d.month || (from.month == d.month
        && from.day <= d.day))))
    &&& (d.year < to.year || (d.year == to.year && (d.month < to.month || (d.month == to.month
        && d.day <= to.day))))
}

/// Without a range, `get_dates` lists every date of `ds`, in order, each
/// with its notes.
pub proof fn law_dates_without_range_list_all(m: Map<Date, Seq<TagView>>, ds: Seq<Date>)
    ensures
        date_items(m, ds, None) == Seq::new(ds.len(), |i: int| date_item(ds[i], date_entries(m, ds[i]))),
    decreases ds.len(),
{
    if ds.len() > 0 {
        law_dates_without_range_list_all(m, ds.drop_last());
        assert(date_items(m, ds, None) =~= Seq::new(ds.len(), |i: int| date_item(ds[i], date_entries(m, ds[i]))));
    }
}

/// With a range, `get_dates` lists exactly the dates of `ds` from `from`
/// to `to`, both ends included, in calendar order: the same items as the
/// listing without a range of just those dates.
pub proof fn law_date_range_is_inclusive(m: Map<Date, Seq<TagView>>, ds: Seq<Date>, from: Date, to: Date)
    ensures
        date_items(m, ds, Some((from, to))) == date_items(m, ds.filter(|d: Date| calendar_between(from, d, to)), None),
    decreases ds.len(),
{
    reveal_with_fuel(Seq::filter, 1);
    let pred = |d: Date| calendar_between(from, d, to);
    if ds.len() > 0 {
        law_date_range_is_inclusive(m, ds.drop_last(), from, to);
        let f = ds.drop_last().filter(pred);
        assert(ds.filter(pred) == if pred(ds.last()) { f.push(ds.last()) } else { f });
        if pred(ds.last()) {
            assert(f.push(ds.last()).drop_last() =~= f);
        }
    } else {
        assert(ds.filter(pred) =~= ds);
    }
}

} // verus!
