//! The tag index: for each tag, the notes that carry it and where.
use vstd::prelude::*;
use dashmap::DashMap;
use crate::model::ByteSpan;
use crate::paths::{path_key, path_key_of};
use crate::text::chars_of;
use crate::order::{sort_by_key, sorted_by_key, lemma_same_elements};

verus! {

/// The notes that carry a tag: one note and the spans of the tag in it.
#[derive(Clone, Debug)]
pub struct TagEntry {
    pub path: String,
    pub spans: Vec<ByteSpan>,
}

/// A tag entry as plain values: the note's path and the spans.
pub type TagView = (Seq<char>, Seq<ByteSpan>);

impl View for TagEntry {
    type V = TagView;

    open spec fn view(&self) -> TagView {
        (self.path@, self.spans@)
    }
}

impl TagEntry {
    /// A copy of the entry.
    pub fn duplicate(&self) -> (r: Self)
        ensures
            r@ == self@,
    {
        let mut spans: Vec<ByteSpan> = Vec::new();
        let mut i: usize = 0;
        while i < self.spans.len()
            invariant
                i <= self.spans@.len(),
                spans@ == self.spans@.take(i as int),
            decreases self.spans@.len() - i,
        {
            spans.push(self.spans[i]);
            assert(self.spans@.take(i + 1) =~= self.spans@.take(i as int).push(self.spans@[i as int]));
            i = i + 1;
        }
        assert(self.spans@.take(self.spans@.len() as int) =~= self.spans@);
        TagEntry { path: self.path.clone(), spans }
    }
}

/// A tag offered for completion, with how many times it occurs.
#[derive(Clone, Debug)]
pub struct TagCompletion {
    pub name: String,
    pub count: usize,
}

/// The entries as plain values.
pub open spec fn tag_views(s: Seq<TagEntry>) -> Seq<TagView> {
    Seq::new(s.len(), |i: int| s[i]@)
}

/// A map with no keys.
pub open spec fn no_tags() -> Map<Seq<char>, Seq<TagView>> {
    Map::empty()
}

/// What the tag map holds: for each tag, its entries.
pub uninterp spec fn tag_table(m: DashMap<String, Vec<TagEntry>>) -> Map<Seq<char>, Seq<TagView>>;

/// `DashMap::new`: a map with no entries.
#[verifier::external_body]
fn table_new() -> (m: DashMap<String, Vec<TagEntry>>)
    ensures
        tag_table(m) == no_tags(),
{
    DashMap::new()
}

/// `DashMap::get` with the value cloned out: the entries of `key`, if the
/// key is present (String keys compare by their text).
#[verifier::external_body]
fn table_get(m: &DashMap<String, Vec<TagEntry>>, key: &str) -> (r: Option<Vec<TagEntry>>)
    ensures
        r is Some <==> tag_table(*m).contains_key(key@),
        r matches Some(v) ==> tag_views(v@) == tag_table(*m)[key@],
{
    match m.get(key) {
        Some(entry) => Some(entry.value().clone()),
        None => None,
    }
}

/// `DashMap::insert`: `key` now holds `v`, whatever it held before.
#[verifier::external_body]
fn table_insert(m: &mut DashMap<String, Vec<TagEntry>>, key: String, v: Vec<TagEntry>)
    ensures
        tag_table(*final(m)) == tag_table(*old(m)).insert(key@, tag_views(v@)),
{
    m.insert(key, v);
}

/// `DashMap::remove`: `key` is no longer present.
#[verifier::external_body]
fn table_remove(m: &mut DashMap<String, Vec<TagEntry>>, key: &str)
    ensures
        tag_table(*final(m)) == tag_table(*old(m)).remove(key@),
{
    m.remove(key);
}

/// `DashMap::clear`: no entries are left.
#[verifier::external_body]
fn table_clear(m: &mut DashMap<String, Vec<TagEntry>>)
    ensures
        tag_table(*final(m)) == no_tags(),
{
    m.clear();
}

/// The keys of the map, read by `DashMap::iter`: each present key once, in
/// an order that depends on the map's hasher and is left unsaid.
#[verifier::external_body]
fn table_keys(m: &DashMap<String, Vec<TagEntry>>) -> (r: Vec<String>)
    ensures
        forall|i: int, j: int| 0 <= i < j < r@.len() ==> r@[i]@ != r@[j]@,
        forall|i: int| 0 <= i < r@.len() ==> tag_table(*m).contains_key(#[trigger] r@[i]@),
        forall|k: Seq<char>| tag_table(*m).contains_key(k) ==> exists|i: int| 0 <= i < r@.len() && #[trigger] r@[i]@ == k,
{
    let mut r = Vec::new();
    for entry in m.iter() {
        r.push(entry.key().clone());
    }
    r
}

/// What std's `str::to_lowercase` makes of a text (Unicode lower-casing,
/// context-dependent for a final capital sigma).
pub uninterp spec fn lowercase(s: Seq<char>) -> Seq<char>;

/// std's `str::to_lowercase`.
#[verifier::external_body]
pub(crate) fn to_lower(s: &str) -> (r: String)
    ensures
        r@ == lowercase(s@),
{
    s.to_lowercase()
}

/// The entries of `tag`, none if the tag is absent.
pub open spec fn tag_entries(m: Map<Seq<char>, Seq<TagView>>, tag: Seq<char>) -> Seq<TagView> {
    if m.contains_key(tag) {
        m[tag]
    } else {
        seq![]
    }
}

/// Index of the first entry of `es` before `n` for the path with key `p`,
/// or -1.
pub open spec fn find_path(es: Seq<TagView>, p: Seq<char>, n: int) -> int
    decreases n,
{
    if n <= 0 {
        -1
    } else if find_path(es, p, n - 1) >= 0 {
        find_path(es, p, n - 1)
    } else if path_key(es[n - 1].0) == p {
        n - 1
    } else {
        -1
    }
}

/// The entries after one more occurrence of the tag in `path` at `span`:
/// added to the note's entry if it has one, else a new entry.
pub open spec fn with_span(es: Seq<TagView>, path: Seq<char>, span: ByteSpan) -> Seq<TagView> {
    let i = find_path(es, path_key(path), es.len() as int);
    if i >= 0 {
        es.update(i, (es[i].0, es[i].1.push(span)))
    } else {
        es.push((path, seq![span]))
    }
}

/// The entries of notes other than the one with key `p`.
pub open spec fn drop_path(es: Seq<TagView>, p: Seq<char>) -> Seq<TagView>
    decreases es.len(),
{
    if es.len() == 0 {
        es
    } else if path_key(es.last().0) == p {
        drop_path(es.drop_last(), p)
    } else {
        drop_path(es.drop_last(), p).push(es.last())
    }
}

/// Does one of the entries belong to the note with key `p`?
pub open spec fn has_path(es: Seq<TagView>, p: Seq<char>) -> bool {
    exists|i: int| 0 <= i < es.len() && path_key(#[trigger] es[i].0) == p
}

/// The map after the note with key `p` no longer carries `tag`: the tag
/// keeps its other notes, and disappears with the last one.
pub open spec fn without_note(m: Map<Seq<char>, Seq<TagView>>, tag: Seq<char>, p: Seq<char>) -> Map<Seq<char>, Seq<TagView>> {
    if !m.contains_key(tag) {
        m
    } else if drop_path(m[tag], p).len() == 0 {
        m.remove(tag)
    } else {
        m.insert(tag, drop_path(m[tag], p))
    }
}

/// The map once the note with key `p` carries no tag (see
/// [`TagIndex::remove_file`]).
pub open spec fn strip_note(m: Map<Seq<char>, Seq<TagView>>, p: Seq<char>) -> Map<Seq<char>, Seq<TagView>> {
    Map::new(
        |k: Seq<char>| m.contains_key(k) && (has_path(m[k], p) ==> drop_path(m[k], p).len() > 0),
        |k: Seq<char>| if has_path(m[k], p) { drop_path(m[k], p) } else { m[k] },
    )
}

/// The map once `path` carries each tag of `ts` (name, span), in order.
pub open spec fn add_tags(m: Map<Seq<char>, Seq<TagView>>, path: Seq<char>, ts: Seq<(Seq<char>, ByteSpan)>) -> Map<Seq<char>, Seq<TagView>>
    decreases ts.len(),
{
    if ts.len() == 0 {
        m
    } else {
        let m0 = add_tags(m, path, ts.drop_last());
        m0.insert(ts.last().0, with_span(tag_entries(m0, ts.last().0), path, ts.last().1))
    }
}

/// How many spans the entries hold in all.
pub open spec fn span_total(es: Seq<TagView>) -> nat
    decreases es.len(),
{
    if es.len() == 0 {
        0
    } else {
        span_total(es.drop_last()) + es.last().1.len()
    }
}

/// The occurrence count reported for a tag: its span total, or the largest
/// `usize` if the total does not fit.
pub open spec fn tag_count(es: Seq<TagView>) -> nat {
    if span_total(es) <= usize::MAX {
        span_total(es)
    } else {
        usize::MAX as nat
    }
}

/// Does the tag `name` match the lower-cased query `q`: does its
/// lower-cased name contain `q`, or `q` contain it?
pub open spec fn fuzzy_match(q: Seq<char>, name: Seq<char>) -> bool {
    contains_text(lowercase(name), q) || contains_text(q, lowercase(name))
}

/// The rank key of the tag `name` with `count` occurrences for the
/// lower-cased query `q`: exact matches first.
pub open spec fn fuzzy_rank(q: Seq<char>, name: Seq<char>, count: nat) -> Seq<i64> {
    rank_key(lowercase(name) == q, count, name)
}

/// Does the text `t` occur in `s`?
pub open spec fn contains_text(s: Seq<char>, t: Seq<char>) -> bool {
    exists|i: int| 0 <= i && i + t.len() <= s.len() && #[trigger] s.subrange(i, i + t.len()) == t
}

/// The rank key of a completion: exact matches first (when `exact` is
/// used), then higher counts, then names in code point order.
pub open spec fn rank_key(exact: bool, count: nat, name: Seq<char>) -> Seq<i64> {
    seq![if exact { 0i64 } else { 1i64 }, (-(count / 0x1_0000_0000)) as i64, (-(count % 0x1_0000_0000)) as i64]
        + Seq::new(name.len(), |i: int| name[i] as i64)
}

/// Every tag holds at least one entry, and no note twice.
pub open spec fn tags_wf(m: Map<Seq<char>, Seq<TagView>>) -> bool {
    forall|k: Seq<char>| #[trigger] m.contains_key(k) ==> m[k].len() > 0 && forall|i: int, j: int|
        0 <= i < j < m[k].len() ==> path_key(m[k][i].0) != path_key(m[k][j].0)
}

/// Is `p` a prefix of `s`?
fn is_prefix_chars(p: &Vec<char>, s: &Vec<char>) -> (r: bool)
    ensures
        r == p@.is_prefix_of(s@),
{
    if p.len() > s.len() {
        return false;
    }
    let mut i: usize = 0;
    while i < p.len()
        invariant
            p@.len() <= s@.len(),
            i <= p@.len(),
            forall|j: int| 0 <= j < i ==> p@[j] == s@[j],
        decreases p@.len() - i,
    {
        if p[i] != s[i] {
            assert(p@[i as int] != s@.subrange(0, p@.len() as int)[i as int]);
            return false;
        }
        i = i + 1;
    }
    assert(s@.subrange(0, p@.len() as int) =~= p@);
    true
}

/// Does `t` occur in `s`?
pub(crate) fn contains_chars(s: &Vec<char>, t: &Vec<char>) -> (r: bool)
    ensures
        r == contains_text(s@, t@),
{
    if t.len() > s.len() {
        proof {
            assert forall|i: int| 0 <= i && i + t@.len() <= s@.len() implies #[trigger] s@.subrange(i, i + t@.len()) != t@ by {
            }
        }
        return false;
    }
    let n = s.len();
    let mut i: usize = 0;
    while i <= n - t.len()
        invariant
            n == s@.len(),
            t@.len() <= s@.len(),
            i <= s@.len() - t@.len() + 1,
            forall|k: int| 0 <= k < i ==> #[trigger] s@.subrange(k, k + t@.len()) != t@,
        decreases s@.len() - t@.len() + 1 - i,
    {
        let mut j: usize = 0;
        let mut same = true;
        while j < t.len()
            invariant
                n == s@.len(),
                i + t@.len() <= n,
                j <= t@.len(),
                same == (forall|q: int| 0 <= q < j ==> s@[i + q] == t@[q]),
            decreases t@.len() - j,
        {
            if s[i + j] != t[j] {
                same = false;
            }
            j = j + 1;
        }
        if same {
            assert(s@.subrange(i as int, i + t@.len()) =~= t@);
            return true;
        }
        proof {
            let q = choose|q: int| 0 <= q < t@.len() && s@[i + q] != t@[q];
            assert(s@.subrange(i as int, i + t@.len())[q] != t@[q]);
        }
        i = i + 1;
    }
    false
}

/// The rank key of a completion (see [`rank_key`]).
fn rank_key_of(exact: bool, count: usize, name: &String) -> (r: Vec<i64>)
    ensures
        r@ == rank_key(exact, count as nat, name@),
{
    let c = count as u64;
    let hi = c / 0x1_0000_0000u64;
    let lo = c % 0x1_0000_0000u64;
    let mut r: Vec<i64> = Vec::new();
    r.push(if exact { 0 } else { 1 });
    r.push(-(hi as i64));
    r.push(-(lo as i64));
    let chars = chars_of(name.as_str());
    let ghost head = r@;
    let mut i: usize = 0;
    while i < chars.len()
        invariant
            i <= chars@.len(),
            chars@ == name@,
            r@ == head + Seq::new(i as nat, |q: int| name@[q] as i64),
        decreases chars@.len() - i,
    {
        r.push(chars[i] as i64);
        assert(Seq::new((i + 1) as nat, |q: int| name@[q] as i64) =~= Seq::new(i as nat, |q: int| name@[q] as i64).push(name@[i as int] as i64));
        i = i + 1;
    }
    assert(r@ =~= rank_key(exact, count as nat, name@));
    r
}

/// Does `x` stand among the texts of `s` before position `n`?
pub open spec fn has_text_before(s: Seq<String>, x: Seq<char>, n: int) -> bool {
    exists|q: int| 0 <= q < n && #[trigger] s[q]@ == x
}

/// Is the tag `name` an exact match for the lower-cased query `q`, when
/// there is one?
pub open spec fn exactness(q: Option<Seq<char>>, name: Seq<char>) -> bool {
    match q {
        Some(qq) => lowercase(name) == qq,
        None => false,
    }
}

/// The text of an optional character vector.
pub open spec fn opt_view(q: Option<Vec<char>>) -> Option<Seq<char>> {
    match q {
        Some(v) => Some(v@),
        None => None,
    }
}

proof fn lemma_push_name(keys: Seq<String>, before: Seq<String>, after: Seq<String>, i: int)
    requires
        0 <= i < keys.len(),
        forall|a: int, b: int| 0 <= a < b < keys.len() ==> keys[a]@ != keys[b]@,
        forall|a: int, b: int| 0 <= a < b < before.len() ==> before[a]@ != before[b]@,
        forall|a: int| 0 <= a < before.len() ==> has_text_before(keys, #[trigger] before[a]@, i),
        after.len() == before.len() + 1,
        forall|a: int| 0 <= a < before.len() ==> after[a] == before[a],
        after[before.len() as int]@ == keys[i]@,
    ensures
        forall|a: int, b: int| 0 <= a < b < after.len() ==> after[a]@ != after[b]@,
{
    assert forall|a: int, b: int| 0 <= a < b < after.len() implies after[a]@ != after[b]@ by {
        if b == before.len() {
            assert(after[a] == before[a]);
            assert(has_text_before(keys, before[a]@, i));
            let q = choose|q: int| 0 <= q < i && #[trigger] keys[q]@ == before[a]@;
            assert(keys[q]@ != keys[i]@);
        } else {
            assert(after[a] == before[a] && after[b] == before[b]);
        }
    }
}

/// Are the two character sequences equal?
pub(crate) fn same_chars(a: &Vec<char>, b: &Vec<char>) -> (r: bool)
    ensures
        r == (a@ == b@),
{
    if a.len() != b.len() {
        return false;
    }
    let mut i: usize = 0;
    while i < a.len()
        invariant
            a@.len() == b@.len(),
            i <= a@.len(),
            forall|j: int| 0 <= j < i ==> a@[j] == b@[j],
        decreases a@.len() - i,
    {
        if a[i] != b[i] {
            return false;
        }
        i = i + 1;
    }
    assert(a@ =~= b@);
    true
}

/// Is there a completion named `name` with count `count` among `items`?
pub open spec fn listed(items: Seq<(Vec<i64>, TagCompletion)>, name: Seq<char>, count: usize) -> bool {
    exists|a: int| 0 <= a < items.len() && #[trigger] items[a].1.name@ == name && items[a].1.count == count
}

/// Is one of the completions `r` named `name`?
pub open spec fn named_in(r: Seq<TagCompletion>, name: Seq<char>) -> bool {
    exists|i: int| 0 <= i < r.len() && #[trigger] r[i].name@ == name
}

/// The completions ordered by their keys `rk`, at most `max` of them: the
/// first ones in that order.
fn rank_and_take(
    items: Vec<(Vec<i64>, TagCompletion)>,
    max: usize,
    Ghost(rk): Ghost<spec_fn(Seq<char>, nat) -> Seq<i64>>,
) -> (r: Vec<TagCompletion>)
    requires
        forall|a: int, b: int| 0 <= a < b < items@.len() ==> items@[a].1.name@ != items@[b].1.name@,
        forall|a: int| 0 <= a < items@.len() ==> #[trigger] items@[a].0@ == rk(items@[a].1.name@, items@[a].1.count as nat),
    ensures
        r@.len() == if items@.len() < max { items@.len() } else { max as nat },
        forall|i: int, j: int| 0 <= i < j < r@.len() ==> r@[i].name@ != r@[j].name@,
        forall|i: int| 0 <= i < r@.len() ==> listed(items@, #[trigger] r@[i].name@, r@[i].count),
        items@.len() <= max ==> forall|a: int| 0 <= a < items@.len() ==> named_in(r@, #[trigger] items@[a].1.name@),
        forall|a: int| 0 <= a < items@.len() ==> named_in(r@, #[trigger] items@[a].1.name@)
            || (r@.len() == max && forall|i: int| 0 <= i < r@.len() ==> !crate::order::lex_lt(
                items@[a].0@,
                rk(#[trigger] r@[i].name@, r@[i].count as nat),
            )),
        forall|i: int, j: int| 0 <= i < j < r@.len() ==> !crate::order::lex_lt(
            rk(#[trigger] r@[j].name@, r@[j].count as nat),
            rk(#[trigger] r@[i].name@, r@[i].count as nat),
        ),
{
    let ghost pairs = items@;
    let sorted = sort_by_key(items);
    proof {
        assert(pairs.no_duplicates()) by {
            assert forall|a: int, b: int| 0 <= a < pairs.len() && 0 <= b < pairs.len() && a != b implies pairs[a] != pairs[b] by {
                if a < b {
                    assert(pairs[a].1.name@ != pairs[b].1.name@);
                } else {
                    assert(pairs[b].1.name@ != pairs[a].1.name@);
                }
            }
        }
        lemma_same_elements(pairs, sorted@);
    }
    let mut out: Vec<TagCompletion> = Vec::new();
    let mut j: usize = 0;
    while j < sorted.len() && j < max
        invariant
            j <= sorted@.len(),
            j <= max,
            out@.len() == j,
            sorted@.len() == pairs.len(),
            forall|t: int| 0 <= t < j ==> #[trigger] out@[t].name@ == sorted@[t].1.name@ && out@[t].count == sorted@[t].1.count,
        decreases sorted@.len() - j,
    {
        out.push(TagCompletion { name: sorted[j].1.name.clone(), count: sorted[j].1.count });
        j = j + 1;
    }
    proof {
        assert forall|t: int| 0 <= t < sorted@.len() implies #[trigger] sorted@[t].0@ == rk(sorted@[t].1.name@, sorted@[t].1.count as nat)
            && exists|a: int| 0 <= a < pairs.len() && pairs[a] == sorted@[t] by {
            assert(pairs.contains(sorted@[t]));
            let a = choose|a: int| 0 <= a < pairs.len() && pairs[a] == sorted@[t];
            assert(pairs[a].0@ == rk(pairs[a].1.name@, pairs[a].1.count as nat));
        }
        assert forall|i: int, k: int| 0 <= i < k < out@.len() implies out@[i].name@ != out@[k].name@ by {
            let a = choose|a: int| 0 <= a < pairs.len() && pairs[a] == sorted@[i];
            let b = choose|b: int| 0 <= b < pairs.len() && pairs[b] == sorted@[k];
            assert(sorted@[i] != sorted@[k]);
            if a < b {
                assert(pairs[a].1.name@ != pairs[b].1.name@);
            } else if b < a {
                assert(pairs[b].1.name@ != pairs[a].1.name@);
            }
        }
        assert forall|i: int| 0 <= i < out@.len() implies listed(pairs, #[trigger] out@[i].name@, out@[i].count) by {
            let a = choose|a: int| 0 <= a < pairs.len() && pairs[a] == sorted@[i];
            assert(pairs[a].1.name@ == out@[i].name@);
        }
        assert(out@.len() == if pairs.len() < max { pairs.len() } else { max as nat });
        if pairs.len() <= max {
            assert forall|a: int| 0 <= a < pairs.len() implies named_in(out@, #[trigger] pairs[a].1.name@) by {
                assert(sorted@.contains(pairs[a]));
                let t = choose|t: int| 0 <= t < sorted@.len() && sorted@[t] == pairs[a];
                assert(out@[t].name@ == pairs[a].1.name@);
            }
        }
        assert forall|a: int| 0 <= a < pairs.len() implies named_in(out@, #[trigger] pairs[a].1.name@)
            || (out@.len() == max && forall|i: int| 0 <= i < out@.len() ==> !crate::order::lex_lt(
                pairs[a].0@,
                rk(#[trigger] out@[i].name@, out@[i].count as nat),
            )) by {
            assert(sorted@.contains(pairs[a]));
            let t = choose|t: int| 0 <= t < sorted@.len() && sorted@[t] == pairs[a];
            if t < out@.len() {
                assert(out@[t].name@ == pairs[a].1.name@);
            } else {
                assert forall|i: int| 0 <= i < out@.len() implies !crate::order::lex_lt(
                    pairs[a].0@,
                    rk(#[trigger] out@[i].name@, out@[i].count as nat),
                ) by {
                    assert(!crate::order::lex_lt(sorted@[t].0@, sorted@[i].0@));
                }
            }
        }
        assert forall|i: int, k: int| 0 <= i < k < out@.len() implies !crate::order::lex_lt(
            rk(#[trigger] out@[k].name@, out@[k].count as nat),
            rk(#[trigger] out@[i].name@, out@[i].count as nat),
        ) by {
            assert(!crate::order::lex_lt(sorted@[k].0@, sorted@[i].0@));
        }
    }
    out
}

/// All tags and where they occur.
pub struct TagIndex {
    tags: DashMap<String, Vec<TagEntry>>,
}

pub(crate) proof fn lemma_find_path(es: Seq<TagView>, p: Seq<char>, n: int)
    requires
        0 <= n <= es.len(),
    ensures
        -1 <= find_path(es, p, n) < n,
        find_path(es, p, n) >= 0 ==> path_key(es[find_path(es, p, n)].0) == p,
        find_path(es, p, n) >= 0 ==> forall|j: int| 0 <= j < find_path(es, p, n) ==> path_key(#[trigger] es[j].0) != p,
        find_path(es, p, n) < 0 ==> forall|j: int| 0 <= j < n ==> path_key(#[trigger] es[j].0) != p,
    decreases n,
{
    if n > 0 {
        lemma_find_path(es, p, n - 1);
    }
}

pub(crate) proof fn lemma_drop_path_step(es: Seq<TagView>, p: Seq<char>, i: int)
    requires
        0 <= i < es.len(),
    ensures
        drop_path(es.take(i + 1), p) == if path_key(es[i].0) == p {
            drop_path(es.take(i), p)
        } else {
            drop_path(es.take(i), p).push(es[i])
        },
{
    assert(es.take(i + 1).drop_last() =~= es.take(i));
}

pub(crate) proof fn lemma_drop_path_props(es: Seq<TagView>, p: Seq<char>)
    requires
        forall|i: int, j: int| 0 <= i < j < es.len() ==> path_key(es[i].0) != path_key(es[j].0),
    ensures
        forall|i: int, j: int| 0 <= i < j < drop_path(es, p).len() ==> path_key(drop_path(es, p)[i].0) != path_key(drop_path(es, p)[j].0),
        forall|i: int| 0 <= i < drop_path(es, p).len() ==> #[trigger] es.contains(drop_path(es, p)[i]),
    decreases es.len(),
{
    if es.len() > 0 {
        let d = es.drop_last();
        lemma_drop_path_props(d, p);
        let r = drop_path(d, p);
        assert forall|i: int| 0 <= i < r.len() implies #[trigger] es.contains(r[i]) by {
            assert(d.contains(r[i]));
            let q = choose|q: int| 0 <= q < d.len() && d[q] == r[i];
            assert(es[q] == d[q]);
        }
        if path_key(es.last().0) != p {
            let r2 = r.push(es.last());
            assert forall|i: int| 0 <= i < r2.len() implies #[trigger] es.contains(r2[i]) by {
                if i < r.len() {
                    assert(r2[i] == r[i]);
                } else {
                    assert(es[es.len() - 1] == r2[i]);
                }
            }
            assert forall|i: int, j: int| 0 <= i < j < r2.len() implies path_key(r2[i].0) != path_key(r2[j].0) by {
                if j == r.len() {
                    assert(r2[i] == r[i]);
                    assert(es.contains(r[i]));
                    let q = choose|q: int| 0 <= q < es.len() && es[q] == r[i];
                    assert(d.contains(r[i]));
                    let q2 = choose|q2: int| 0 <= q2 < d.len() && d[q2] == r[i];
                    assert(es[q2] == d[q2]);
                    assert(q2 < es.len() - 1);
                } else {
                    assert(r2[i] == r[i] && r2[j] == r[j]);
                }
            }
        }
    }
}

impl TagIndex {
    /// The tags and their entries.
    pub closed spec fn tags(&self) -> Map<Seq<char>, Seq<TagView>> {
        tag_table(self.tags)
    }

    /// Every tag holds at least one entry, and no note twice.
    pub open spec fn wf(&self) -> bool {
        tags_wf(self.tags())
    }

    /// An index with no tags.
    pub fn new() -> (r: Self)
        ensures
            r.wf(),
            r.tags() == no_tags(),
    {
        TagIndex { tags: table_new() }
    }

    /// Records that `path` carries `tag` at `span`.
    pub fn add(&mut self, path: &str, tag: &str, span: ByteSpan)
        requires
            old(self).wf(),
        ensures
            final(self).wf(),
            final(self).tags() == old(self).tags().insert(tag@, with_span(tag_entries(old(self).tags(), tag@), path@, span)),
    {
        let ghost es = tag_entries(self.tags(), tag@);
        let mut entries = match table_get(&self.tags, tag) {
            Some(v) => v,
            None => Vec::new(),
        };
        assert(tag_views(entries@) =~= es);
        let pk = path_key_of(path);
        let mut i: usize = 0;
        proof {
            lemma_find_path(es, pk@, es.len() as int);
        }
        while i < entries.len()
            invariant
                i <= entries@.len(),
                tag_views(entries@) == es,
                forall|j: int| 0 <= j < i ==> path_key(#[trigger] es[j].0) != pk@,
            ensures
                i <= entries@.len(),
                forall|j: int| 0 <= j < i ==> path_key(#[trigger] es[j].0) != pk@,
                i < entries@.len() ==> path_key(es[i as int].0) == pk@,
            decreases entries@.len() - i,
        {
            let k = path_key_of(&entries[i].path);
            assert(es[i as int] == entries@[i as int]@);
            if k == pk {
                break;
            }
            i = i + 1;
        }
        let ghost found = i < entries@.len();
        proof {
            if found {
                assert(path_key(es[i as int].0) == pk@) by {
                    assert(es[i as int] == entries@[i as int]@);
                }
                lemma_find_path(es, pk@, es.len() as int);
                let f = find_path(es, pk@, es.len() as int);
                assert(f == i) by {
                    if f < i {
                        assert(path_key(es[f].0) != pk@);
                    }
                    if f > i || f < 0 {
                        assert(path_key(es[i as int].0) != pk@);
                    }
                }
            } else {
                lemma_find_path(es, pk@, es.len() as int);
                let f = find_path(es, pk@, es.len() as int);
                if f >= 0 {
                    assert(path_key(es[f].0) != pk@);
                }
            }
        }
        if i < entries.len() {
            let mut e = entries[i].duplicate();
            e.spans.push(span);
            let ghost ev = e@;
            entries.set(i, e);
            assert(tag_views(entries@) =~= es.update(i as int, (es[i as int].0, es[i as int].1.push(span))));
        } else {
            let mut spans: Vec<ByteSpan> = Vec::new();
            spans.push(span);
            let e = TagEntry { path: path.to_owned(), spans };
            assert(e@ == (path@, seq![span]));
            entries.push(e);
            assert(tag_views(entries@) =~= es.push((path@, seq![span])));
        }
        table_insert(&mut self.tags, tag.to_owned(), entries);
        proof {
            let m = self.tags();
            let w = with_span(es, path@, span);
            assert forall|k: Seq<char>| #[trigger] m.contains_key(k) implies m[k].len() > 0 && forall|a: int, b: int|
                0 <= a < b < m[k].len() ==> path_key(m[k][a].0) != path_key(m[k][b].0) by {
                if k == tag@ {
                    assert forall|a: int, b: int| 0 <= a < b < w.len() implies path_key(w[a].0) != path_key(w[b].0) by {
                        if found {
                            assert(w[a].0 == es[a].0 && w[b].0 == es[b].0);
                        } else {
                            if b == es.len() {
                                assert(w[a] == es[a]);
                                assert(path_key(es[a].0) != pk@);
                            } else {
                                assert(w[a] == es[a] && w[b] == es[b]);
                            }
                        }
                    }
                }
            }
        }
    }

    /// `path` no longer carries `tag`; a tag left without notes disappears.
    pub fn remove(&mut self, path: &str, tag: &str)
        requires
            old(self).wf(),
        ensures
            final(self).wf(),
            final(self).tags() == without_note(old(self).tags(), tag@, path_key(path@)),
    {
        let entries = match table_get(&self.tags, tag) {
            Some(v) => v,
            None => {
                return;
            },
        };
        let ghost es = tag_views(entries@);
        let pk = path_key_of(path);
        let mut kept: Vec<TagEntry> = Vec::new();
        let mut i: usize = 0;
        while i < entries.len()
            invariant
                i <= entries@.len(),
                es == tag_views(entries@),
                tag_views(kept@) == drop_path(es.take(i as int), pk@),
            decreases entries@.len() - i,
        {
            let k = path_key_of(&entries[i].path);
            proof {
                lemma_drop_path_step(es, pk@, i as int);
                assert(es[i as int] == entries@[i as int]@);
            }
            if k != pk {
                let ghost before = tag_views(kept@);
                kept.push(entries[i].duplicate());
                assert(tag_views(kept@) =~= before.push(entries@[i as int]@));
            }
            i = i + 1;
        }
        assert(es.take(es.len() as int) =~= es);
        let ghost d = drop_path(es, pk@);
        if kept.len() == 0 {
            table_remove(&mut self.tags, tag);
        } else {
            table_insert(&mut self.tags, tag.to_owned(), kept);
        }
        proof {
            lemma_drop_path_props(es, pk@);
            let m = self.tags();
            assert forall|k: Seq<char>| #[trigger] m.contains_key(k) implies m[k].len() > 0 && forall|a: int, b: int|
                0 <= a < b < m[k].len() ==> path_key(m[k][a].0) != path_key(m[k][b].0) by {
            }
        }
    }

    /// The entries of `tag`, none if no note carries it.
    pub fn get(&self, tag: &str) -> (r: Vec<TagEntry>)
        ensures
            tag_views(r@) == tag_entries(self.tags(), tag@),
    {
        match table_get(&self.tags, tag) {
            Some(v) => v,
            None => {
                let v: Vec<TagEntry> = Vec::new();
                assert(tag_views(v@) =~= seq![]);
                v
            },
        }
    }

    /// Every tag, once each, in the map's order.
    pub fn all_tags(&self) -> (r: Vec<String>)
        ensures
            forall|i: int, j: int| 0 <= i < j < r@.len() ==> r@[i]@ != r@[j]@,
            forall|i: int| 0 <= i < r@.len() ==> self.tags().contains_key(#[trigger] r@[i]@),
            forall|k: Seq<char>| self.tags().contains_key(k) ==> exists|i: int| 0 <= i < r@.len() && #[trigger] r@[i]@ == k,
    {
        table_keys(&self.tags)
    }

    /// The tags whose lower-cased name starts with the lower-cased
    /// `prefix`, with their counts, most frequent first and, among equally
    /// frequent ones, by name.
    pub fn autocomplete(&self, prefix: &str) -> (r: Vec<TagCompletion>)
        ensures
            forall|i: int, j: int| 0 <= i < j < r@.len() ==> r@[i].name@ != r@[j].name@,
            forall|i: int| #![trigger r@[i]] 0 <= i < r@.len() ==> {
                &&& self.tags().contains_key(r@[i].name@)
                &&& lowercase(prefix@).is_prefix_of(lowercase(r@[i].name@))
                &&& r@[i].count == tag_count(self.tags()[r@[i].name@])
            },
            forall|k: Seq<char>| self.tags().contains_key(k) && lowercase(prefix@).is_prefix_of(lowercase(k))
                ==> named_in(r@, k),
            forall|i: int, j: int| 0 <= i < j < r@.len() ==> !crate::order::lex_lt(
                rank_key(false, r@[j].count as nat, r@[j].name@),
                rank_key(false, r@[i].count as nat, r@[i].name@),
            ),
    {
        let lower = chars_of(to_lower(prefix).as_str());
        let keys = table_keys(&self.tags);
        let mut names: Vec<String> = Vec::new();
        let mut i: usize = 0;
        while i < keys.len()
            invariant
                i <= keys@.len(),
                lower@ == lowercase(prefix@),
                forall|a: int, b: int| 0 <= a < b < keys@.len() ==> keys@[a]@ != keys@[b]@,
                forall|a: int| 0 <= a < keys@.len() ==> self.tags().contains_key(#[trigger] keys@[a]@),
                forall|a: int| 0 <= a < names@.len() ==> self.tags().contains_key(#[trigger] names@[a]@)
                    && lowercase(prefix@).is_prefix_of(lowercase(names@[a]@)) && has_text_before(keys@, names@[a]@, i as int),
                forall|a: int, b: int| 0 <= a < b < names@.len() ==> names@[a]@ != names@[b]@,
                forall|q: int| 0 <= q < i && lowercase(prefix@).is_prefix_of(lowercase(#[trigger] keys@[q]@))
                    ==> crate::links::has_text(names@, keys@[q]@),
            decreases keys@.len() - i,
        {
            let name_lower = chars_of(to_lower(keys[i].as_str()).as_str());
            let ghost before = names@;
            if is_prefix_chars(&lower, &name_lower) {
                names.push(keys[i].clone());
                proof {
                    lemma_push_name(keys@, before, names@, i as int);
                }
            }
            proof {
                assert forall|a: int| 0 <= a < names@.len() implies has_text_before(keys@, #[trigger] names@[a]@, i + 1) by {
                    if a < before.len() {
                        assert(names@[a] == before[a]);
                        let q = choose|q: int| 0 <= q < i && #[trigger] keys@[q]@ == before[a]@;
                    } else {
                        assert(keys@[i as int]@ == names@[a]@);
                    }
                }
                assert forall|q: int| 0 <= q < i + 1 && lowercase(prefix@).is_prefix_of(lowercase(#[trigger] keys@[q]@))
                    implies crate::links::has_text(names@, keys@[q]@) by {
                    if q < i {
                        let a = choose|a: int| 0 <= a < before.len() && #[trigger] before[a]@ == keys@[q]@;
                        assert(names@[a] == before[a]);
                    } else {
                        assert(names@[before.len() as int]@ == keys@[q]@);
                    }
                }
            }
            i = i + 1;
        }
        let items = self.rank_items(&names, &None);
        let out = rank_and_take(items, names.len(), Ghost(|name: Seq<char>, count: nat| rank_key(false, count, name)));
        proof {
            assert forall|k: Seq<char>| self.tags().contains_key(k) && lowercase(prefix@).is_prefix_of(lowercase(k))
                implies named_in(out@, k) by {
                let q = choose|q: int| 0 <= q < keys@.len() && #[trigger] keys@[q]@ == k;
                assert(crate::links::has_text(names@, keys@[q]@));
                let a = choose|a: int| 0 <= a < names@.len() && #[trigger] names@[a]@ == k;
                assert(items@[a].1.name@ == k);
            }
            assert forall|i: int| #![trigger out@[i]] 0 <= i < out@.len() implies {
                &&& self.tags().contains_key(out@[i].name@)
                &&& lowercase(prefix@).is_prefix_of(lowercase(out@[i].name@))
                &&& out@[i].count == tag_count(self.tags()[out@[i].name@])
            } by {
                assert(listed(items@, out@[i].name@, out@[i].count));
                let a = choose|a: int| 0 <= a < items@.len() && #[trigger] items@[a].1.name@ == out@[i].name@ && items@[a].1.count == out@[i].count;
                assert(items@[a].1.name@ == names@[a]@);
            }
        }
        out
    }

    /// Completions for the tags `names`: each with its count and its rank
    /// key, exact matches being those whose lower-cased name is `q`.
    fn rank_items(&self, names: &Vec<String>, q: &Option<Vec<char>>) -> (r: Vec<(Vec<i64>, TagCompletion)>)
        requires
            forall|a: int, b: int| 0 <= a < b < names@.len() ==> names@[a]@ != names@[b]@,
        ensures
            r@.len() == names@.len(),
            forall|a: int, b: int| 0 <= a < b < r@.len() ==> r@[a].1.name@ != r@[b].1.name@,
            forall|a: int| #![trigger r@[a]] 0 <= a < r@.len() ==> {
                &&& r@[a].1.name@ == names@[a]@
                &&& r@[a].1.count == tag_count(tag_entries(self.tags(), names@[a]@))
                &&& r@[a].0@ == rank_key(exactness(opt_view(*q), names@[a]@), r@[a].1.count as nat, names@[a]@)
            },
    {
        let mut r: Vec<(Vec<i64>, TagCompletion)> = Vec::new();
        let mut i: usize = 0;
        while i < names.len()
            invariant
                i <= names@.len(),
                r@.len() == i,
                forall|a: int| #![trigger r@[a]] 0 <= a < i ==> {
                    &&& r@[a].1.name@ == names@[a]@
                    &&& r@[a].1.count == tag_count(tag_entries(self.tags(), names@[a]@))
                    &&& r@[a].0@ == rank_key(exactness(opt_view(*q), names@[a]@), r@[a].1.count as nat, names@[a]@)
                },
            decreases names@.len() - i,
        {
            let count = self.count_of(names[i].as_str());
            let exact = match q {
                Some(qv) => {
                    let nl = chars_of(to_lower(names[i].as_str()).as_str());
                    same_chars(&nl, qv)
                },
                None => false,
            };
            let name = names[i].clone();
            let key = rank_key_of(exact, count, &name);
            r.push((key, TagCompletion { name, count }));
            i = i + 1;
        }
        proof {
            assert forall|a: int, b: int| 0 <= a < b < r@.len() implies r@[a].1.name@ != r@[b].1.name@ by {
                assert(r@[a].1.name@ == names@[a]@ && r@[b].1.name@ == names@[b]@);
            }
        }
        r
    }

    /// The tags whose lower-cased name contains the lower-cased `query` or
    /// is contained in it, exact matches first, then by count and name; at
    /// most `max_results` of them, the first ones in that order.
    pub fn fuzzy_search(&self, query: &str, max_results: usize) -> (r: Vec<TagCompletion>)
        ensures
            r@.len() <= max_results,
            forall|i: int, j: int| 0 <= i < j < r@.len() ==> r@[i].name@ != r@[j].name@,
            forall|i: int| #![trigger r@[i]] 0 <= i < r@.len() ==> {
                &&& self.tags().contains_key(r@[i].name@)
                &&& fuzzy_match(lowercase(query@), r@[i].name@)
                &&& r@[i].count == tag_count(self.tags()[r@[i].name@])
            },
            forall|k: Seq<char>| self.tags().contains_key(k) && fuzzy_match(lowercase(query@), k)
                ==> named_in(r@, k) || (r@.len() == max_results && forall|i: int| 0 <= i < r@.len() ==> !crate::order::lex_lt(
                    fuzzy_rank(lowercase(query@), k, tag_count(self.tags()[k])),
                    #[trigger] fuzzy_rank(lowercase(query@), r@[i].name@, r@[i].count as nat),
                )),
            forall|i: int, j: int| 0 <= i < j < r@.len() ==> !crate::order::lex_lt(
                fuzzy_rank(lowercase(query@), r@[j].name@, r@[j].count as nat),
                fuzzy_rank(lowercase(query@), r@[i].name@, r@[i].count as nat),
            ),
    {
        let q = chars_of(to_lower(query).as_str());
        let keys = table_keys(&self.tags);
        let mut names: Vec<String> = Vec::new();
        let mut i: usize = 0;
        while i < keys.len()
            invariant
                i <= keys@.len(),
                q@ == lowercase(query@),
                forall|a: int, b: int| 0 <= a < b < keys@.len() ==> keys@[a]@ != keys@[b]@,
                forall|a: int| 0 <= a < keys@.len() ==> self.tags().contains_key(#[trigger] keys@[a]@),
                forall|a: int| 0 <= a < names@.len() ==> self.tags().contains_key(#[trigger] names@[a]@)
                    && fuzzy_match(q@, names@[a]@) && has_text_before(keys@, names@[a]@, i as int),
                forall|a: int, b: int| 0 <= a < b < names@.len() ==> names@[a]@ != names@[b]@,
                forall|k: int| 0 <= k < i && fuzzy_match(q@, #[trigger] keys@[k]@)
                    ==> crate::links::has_text(names@, keys@[k]@),
            decreases keys@.len() - i,
        {
            let name_lower = chars_of(to_lower(keys[i].as_str()).as_str());
            let ghost before = names@;
            if contains_chars(&name_lower, &q) || contains_chars(&q, &name_lower) {
                names.push(keys[i].clone());
                proof {
                    lemma_push_name(keys@, before, names@, i as int);
                }
            }
            proof {
                assert forall|a: int| 0 <= a < names@.len() implies has_text_before(keys@, #[trigger] names@[a]@, i + 1) by {
                    if a < before.len() {
                        assert(names@[a] == before[a]);
                        let k = choose|k: int| 0 <= k < i && #[trigger] keys@[k]@ == before[a]@;
                    } else {
                        assert(keys@[i as int]@ == names@[a]@);
                    }
                }
                assert forall|k: int| 0 <= k < i + 1 && fuzzy_match(q@, #[trigger] keys@[k]@)
                    implies crate::links::has_text(names@, keys@[k]@) by {
                    if k < i {
                        let a = choose|a: int| 0 <= a < before.len() && #[trigger] before[a]@ == keys@[k]@;
                        assert(names@[a] == before[a]);
                    } else {
                        assert(names@[before.len() as int]@ == keys@[k]@);
                    }
                }
            }
            i = i + 1;
        }
        let qq = Some(q);
        let items = self.rank_items(&names, &qq);
        let ghost qv = lowercase(query@);
        let out = rank_and_take(items, max_results, Ghost(|name: Seq<char>, count: nat| fuzzy_rank(qv, name, count)));
        proof {
            assert forall|k: Seq<char>| self.tags().contains_key(k) && fuzzy_match(qv, k)
                implies named_in(out@, k) || (out@.len() == max_results && forall|i: int| 0 <= i < out@.len() ==> !crate::order::lex_lt(
                    fuzzy_rank(qv, k, tag_count(self.tags()[k])),
                    #[trigger] fuzzy_rank(qv, out@[i].name@, out@[i].count as nat),
                )) by {
                let kk = choose|kk: int| 0 <= kk < keys@.len() && #[trigger] keys@[kk]@ == k;
                assert(fuzzy_match(q@, keys@[kk]@));
                assert(crate::links::has_text(names@, keys@[kk]@));
                let a = choose|a: int| 0 <= a < names@.len() && #[trigger] names@[a]@ == k;
                assert(items@[a].1.name@ == k);
                assert(items@[a].0@ == fuzzy_rank(qv, k, tag_count(self.tags()[k])));
                if !named_in(out@, items@[a].1.name@) {
                    assert forall|i: int| 0 <= i < out@.len() implies !crate::order::lex_lt(
                        fuzzy_rank(qv, k, tag_count(self.tags()[k])),
                        #[trigger] fuzzy_rank(qv, out@[i].name@, out@[i].count as nat),
                    ) by {
                        assert(out@[i].name@ == out@[i].name@);
                    }
                }
            }
            assert forall|i: int| #![trigger out@[i]] 0 <= i < out@.len() implies {
                &&& self.tags().contains_key(out@[i].name@)
                &&& fuzzy_match(qv, out@[i].name@)
                &&& out@[i].count == tag_count(self.tags()[out@[i].name@])
            } by {
                assert(listed(items@, out@[i].name@, out@[i].count));
                let a = choose|a: int| 0 <= a < items@.len() && #[trigger] items@[a].1.name@ == out@[i].name@ && items@[a].1.count == out@[i].count;
                assert(items@[a].1.name@ == names@[a]@);
            }
        }
        out
    }

    /// `path` no longer carries any tag: each tag it carried keeps its other
    /// notes, and disappears with the last one.
    pub fn remove_file(&mut self, path: &str)
        requires
            old(self).wf(),
        ensures
            final(self).wf(),
            forall|k: Seq<char>| #[trigger] final(self).tags().contains_key(k) <==> old(self).tags().contains_key(k)
                && (has_path(old(self).tags()[k], path_key(path@)) ==> drop_path(old(self).tags()[k], path_key(path@)).len() > 0),
            forall|k: Seq<char>| #[trigger] final(self).tags().contains_key(k) ==> final(self).tags()[k] == if has_path(
                old(self).tags()[k],
                path_key(path@),
            ) {
                drop_path(old(self).tags()[k], path_key(path@))
            } else {
                old(self).tags()[k]
            },
    {
        let ghost old_m = self.tags();
        let pk = path_key_of(path);
        let ghost p = pk@;
        let keys = table_keys(&self.tags);
        let mut i: usize = 0;
        while i < keys.len()
            invariant
                i <= keys@.len(),
                p == pk@,
                p == path_key(path@),
                self.wf(),
                forall|a: int, b: int| 0 <= a < b < keys@.len() ==> keys@[a]@ != keys@[b]@,
                forall|a: int| 0 <= a < keys@.len() ==> old_m.contains_key(#[trigger] keys@[a]@),
                forall|k: Seq<char>| #[trigger] self.tags().contains_key(k) <==> old_m.contains_key(k)
                    && (has_path(old_m[k], p) && has_text_before(keys@, k, i as int) ==> drop_path(old_m[k], p).len() > 0),
                forall|k: Seq<char>| #[trigger] self.tags().contains_key(k) ==> self.tags()[k] == if has_path(old_m[k], p)
                    && has_text_before(keys@, k, i as int) {
                    drop_path(old_m[k], p)
                } else {
                    old_m[k]
                },
            decreases keys@.len() - i,
        {
            let ghost kv = keys@[i as int]@;
            proof {
                assert forall|k: Seq<char>| has_text_before(keys@, k, i + 1) <==> has_text_before(keys@, k, i as int) || k == kv by {
                    if has_text_before(keys@, k, i + 1) && k != kv {
                        let q = choose|q: int| 0 <= q < i + 1 && #[trigger] keys@[q]@ == k;
                        assert(q < i);
                    }
                    if k == kv {
                        assert(keys@[i as int]@ == k);
                    }
                }
                assert(!has_text_before(keys@, kv, i as int)) by {
                    if has_text_before(keys@, kv, i as int) {
                        let q = choose|q: int| 0 <= q < i && #[trigger] keys@[q]@ == kv;
                        assert(keys@[q]@ != keys@[i as int]@);
                    }
                }
            }
            let entries = self.get(keys[i].as_str());
            assert(tag_views(entries@) == old_m[kv]);
            let mut j: usize = 0;
            let mut found = false;
            while j < entries.len()
                invariant
                    j <= entries@.len(),
                    found == has_path(tag_views(entries@).take(j as int), p),
                    p == pk@,
                decreases entries@.len() - j,
            {
                let k = path_key_of(&entries[j].path);
                proof {
                    let a = tag_views(entries@).take(j as int);
                    let b = tag_views(entries@).take(j + 1);
                    assert(b[j as int] == entries@[j as int]@);
                    if has_path(b, p) {
                        let q = choose|q: int| 0 <= q < b.len() && path_key(#[trigger] b[q].0) == p;
                        if q < j {
                            assert(a[q] == b[q]);
                        }
                    }
                    if has_path(a, p) {
                        let q = choose|q: int| 0 <= q < a.len() && path_key(#[trigger] a[q].0) == p;
                        assert(b[q] == a[q]);
                    }
                    if path_key(b[j as int].0) == p {
                        assert(has_path(b, p));
                    }
                    assert(has_path(b, p) <==> has_path(a, p) || path_key(b[j as int].0) == p);
                }
                if k == pk {
                    found = true;
                }
                j = j + 1;
            }
            assert(tag_views(entries@).take(entries@.len() as int) =~= tag_views(entries@));
            if found {
                self.remove(path, keys[i].as_str());
            }
            i = i + 1;
        }
        proof {
            assert forall|k: Seq<char>| old_m.contains_key(k) implies has_text_before(keys@, k, keys@.len() as int) by {
                let q = choose|q: int| 0 <= q < keys@.len() && #[trigger] keys@[q]@ == k;
            }
        }
    }

    /// Every tag with its entries, in the map's order.
    pub fn iter(&self) -> (r: Vec<(String, Vec<TagEntry>)>)
        ensures
            forall|i: int, j: int| 0 <= i < j < r@.len() ==> r@[i].0@ != r@[j].0@,
            forall|i: int| 0 <= i < r@.len() ==> self.tags().contains_key(#[trigger] r@[i].0@) && tag_views(r@[i].1@)
                == self.tags()[r@[i].0@],
            forall|k: Seq<char>| self.tags().contains_key(k) ==> exists|i: int| 0 <= i < r@.len() && #[trigger] r@[i].0@ == k,
    {
        let keys = table_keys(&self.tags);
        let mut out: Vec<(String, Vec<TagEntry>)> = Vec::new();
        let mut i: usize = 0;
        while i < keys.len()
            invariant
                i <= keys@.len(),
                out@.len() == i,
                forall|a: int| 0 <= a < keys@.len() ==> self.tags().contains_key(#[trigger] keys@[a]@),
                forall|a: int| 0 <= a < i ==> #[trigger] out@[a].0@ == keys@[a]@ && tag_views(out@[a].1@) == self.tags()[keys@[a]@],
            decreases keys@.len() - i,
        {
            let v = self.get(keys[i].as_str());
            assert(self.tags().contains_key(keys@[i as int]@));
            let ghost before = out@;
            out.push((keys[i].clone(), v));
            proof {
                assert forall|a: int| 0 <= a < i + 1 implies #[trigger] out@[a].0@ == keys@[a]@ && tag_views(out@[a].1@) == self.tags()[keys@[a]@] by {
                    if a < i {
                        assert(out@[a] == before[a]);
                    }
                }
            }
            i = i + 1;
        }
        proof {
            assert forall|k: Seq<char>| self.tags().contains_key(k) implies exists|i: int| 0 <= i < out@.len() && #[trigger] out@[i].0@ == k by {
                let q = choose|q: int| 0 <= q < keys@.len() && #[trigger] keys@[q]@ == k;
                assert(out@[q].0@ == k);
            }
        }
        out
    }

    /// How often `tag` occurs (see [`tag_count`]).
    fn count_of(&self, tag: &str) -> (r: usize)
        ensures
            r == tag_count(tag_entries(self.tags(), tag@)),
    {
        let entries = match table_get(&self.tags, tag) {
            Some(v) => v,
            None => Vec::new(),
        };
        let ghost es = tag_views(entries@);
        assert(es =~= tag_entries(self.tags(), tag@));
        let mut total: usize = 0;
        let mut i: usize = 0;
        while i < entries.len()
            invariant
                i <= entries@.len(),
                es == tag_views(entries@),
                total == tag_count(es.take(i as int)),
            decreases entries@.len() - i,
        {
            assert(es.take(i + 1).drop_last() =~= es.take(i as int));
            assert(es[i as int] == entries@[i as int]@);
            total = total.saturating_add(entries[i].spans.len());
            i = i + 1;
        }
        assert(es.take(es.len() as int) =~= es);
        total
    }

    /// Forgets every tag.
    pub fn clear(&mut self)
        ensures
            final(self).wf(),
            final(self).tags() == no_tags(),
    {
        table_clear(&mut self.tags);
    }
}

impl Default for TagIndex {
    fn default() -> (r: Self)
        ensures
            r.wf(),
            r.tags() == no_tags(),
    {
        TagIndex::new()
    }
}

pub(crate) proof fn lemma_drop_path_gone(es: Seq<TagView>, p: Seq<char>)
    ensures
        !has_path(drop_path(es, p), p),
    decreases es.len(),
{
    if es.len() > 0 {
        lemma_drop_path_gone(es.drop_last(), p);
        let d = drop_path(es.drop_last(), p);
        if path_key(es.last().0) != p {
            if has_path(d.push(es.last()), p) {
                let i = choose|i: int| 0 <= i < d.push(es.last()).len() && path_key(#[trigger] d.push(es.last())[i].0) == p;
                if i < d.len() {
                    assert(d.push(es.last())[i] == d[i]);
                }
            }
        }
    }
}

pub(crate) proof fn lemma_with_span_has(es: Seq<TagView>, path: Seq<char>, span: ByteSpan)
    ensures
        has_path(with_span(es, path, span), path_key(path)),
{
    let k = path_key(path);
    lemma_find_path(es, k, es.len() as int);
    let i = find_path(es, k, es.len() as int);
    let w = with_span(es, path, span);
    if i >= 0 {
        assert(w[i].0 == es[i].0);
    } else {
        assert(w[es.len() as int].0 == path);
    }
}

/// Once a note is forgotten, no tag holds it.
pub proof fn law_forgotten_note_untagged(m: Map<Seq<char>, Seq<TagView>>, p: Seq<char>, k: Seq<char>)
    requires
        strip_note(m, p).contains_key(k),
    ensures
        !has_path(strip_note(m, p)[k], p),
{
    lemma_drop_path_gone(m[k], p);
}

/// Indexing a note anew replaces its tags: after its old entries are
/// dropped and the tags `ts` found in its text are added, exactly the tags
/// named in `ts` hold the note.
pub proof fn law_reindex_replaces_tags(m: Map<Seq<char>, Seq<TagView>>, path: Seq<char>, ts: Seq<(Seq<char>, ByteSpan)>, k: Seq<char>)
    ensures
        ({
            let r = add_tags(strip_note(m, path_key(path)), path, ts);
            r.contains_key(k) && has_path(r[k], path_key(path))
        }) <==> exists|i: int| 0 <= i < ts.len() && #[trigger] ts[i].0 == k,
    decreases ts.len(),
{
    let p = path_key(path);
    let base = strip_note(m, p);
    if ts.len() == 0 {
        if base.contains_key(k) {
            law_forgotten_note_untagged(m, p, k);
        }
    } else {
        let pre = ts.drop_last();
        law_reindex_replaces_tags(m, path, pre, k);
        let m0 = add_tags(base, path, pre);
        let last = ts.last();
        if last.0 == k {
            lemma_with_span_has(tag_entries(m0, k), path, last.1);
            assert(ts[ts.len() - 1].0 == k);
        } else {
            assert((exists|i: int| 0 <= i < ts.len() && #[trigger] ts[i].0 == k) <==> (exists|i: int| 0 <= i < pre.len() && #[trigger] pre[i].0 == k)) by {
                if exists|i: int| 0 <= i < ts.len() && #[trigger] ts[i].0 == k {
                    let i = choose|i: int| 0 <= i < ts.len() && #[trigger] ts[i].0 == k;
                    assert(i < pre.len());
                    assert(pre[i] == ts[i]);
                }
                if exists|i: int| 0 <= i < pre.len() && #[trigger] pre[i].0 == k {
                    let i = choose|i: int| 0 <= i < pre.len() && #[trigger] pre[i].0 == k;
                    assert(ts[i] == pre[i]);
                }
            }
        }
    }
}

proof fn lemma_span_total_push(es: Seq<TagView>, x: TagView)
    ensures
        span_total(es.push(x)) == span_total(es) + x.1.len(),
{
    assert(es.push(x).drop_last() =~= es);
}

proof fn lemma_span_total_update(es: Seq<TagView>, i: int, x: TagView)
    requires
        0 <= i < es.len(),
    ensures
        span_total(es.update(i, x)) + es[i].1.len() == span_total(es) + x.1.len(),
    decreases es.len(),
{
    let u = es.update(i, x);
    if i == es.len() - 1 {
        assert(u.drop_last() =~= es.drop_last());
    } else {
        lemma_span_total_update(es.drop_last(), i, x);
        assert(u.drop_last() =~= es.drop_last().update(i, x));
        assert(u.last() == es.last());
    }
}

/// Counting occurrences: a tag with no notes occurs no time, and each
/// further occurrence of it, in a note that already carries it or in a new
/// one, raises the count that autocomplete and fuzzy search report by one
/// (below the largest `usize`, where the count stops).
pub proof fn law_occurrence_count(es: Seq<TagView>, path: Seq<char>, span: ByteSpan)
    ensures
        tag_count(seq![]) == 0,
        span_total(with_span(es, path, span)) == span_total(es) + 1,
        tag_count(es) < usize::MAX ==> tag_count(with_span(es, path, span)) == tag_count(es) + 1,
{
    let i = find_path(es, path_key(path), es.len() as int);
    lemma_find_path(es, path_key(path), es.len() as int);
    if i >= 0 {
        lemma_span_total_update(es, i, (es[i].0, es[i].1.push(span)));
    } else {
        lemma_span_total_push(es, (path, seq![span]));
    }
}

/// Adding a tag's occurrence to the index raises that tag's count by one
/// and leaves every other tag's count as it was.
pub proof fn law_add_counts_one_more(m: Map<Seq<char>, Seq<TagView>>, path: Seq<char>, tag: Seq<char>, span: ByteSpan, other: Seq<char>)
    requires
        tag_count(tag_entries(m, tag)) < usize::MAX,
        other != tag,
    ensures
        tag_count(tag_entries(m.insert(tag, with_span(tag_entries(m, tag), path, span)), tag)) == tag_count(tag_entries(m, tag)) + 1,
        tag_count(tag_entries(m.insert(tag, with_span(tag_entries(m, tag), path, span)), other)) == tag_count(tag_entries(m, other)),
{
    law_occurrence_count(tag_entries(m, tag), path, span);
}

} // verus!
