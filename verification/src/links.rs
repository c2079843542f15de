//! The link index: every wiki-link between notes, filed twice, once under
//! the note it points to and once under the note it is written in. Paths
//! are compared by their components, as std compares paths.
use vstd::prelude::*;
use dashmap::DashMap;
use crate::model::ByteSpan;
use crate::paths::{path_key, path_key_of, path_order, path_order_of};
use crate::order::{sort_by_key, sorted_by_key, lemma_same_elements};
use vstd::seq_lib::to_multiset_contains;

verus! {

/// One link: the note it is written in, the note it points to, its label
/// and where it stands in the source note.
#[derive(Clone, Debug)]
pub struct LinkEntry {
    pub source: String,
    pub target: String,
    pub label: String,
    pub span: ByteSpan,
}

/// A link as plain values: source, target, label, span.
pub type LinkView = (Seq<char>, Seq<char>, Seq<char>, ByteSpan);

impl View for LinkEntry {
    type V = LinkView;

    open spec fn view(&self) -> LinkView {
        (self.source@, self.target@, self.label@, self.span)
    }
}

impl LinkEntry {
    /// A copy of the link.
    pub fn duplicate(&self) -> (r: Self)
        ensures
            r@ == self@,
    {
        LinkEntry {
            source: self.source.clone(),
            target: self.target.clone(),
            label: self.label.clone(),
            span: self.span,
        }
    }
}

/// The links as plain values.
pub open spec fn link_views(s: Seq<LinkEntry>) -> Seq<LinkView> {
    Seq::new(s.len(), |i: int| s[i]@)
}

/// A map with no keys.
pub open spec fn empty_table() -> Map<Seq<char>, Seq<LinkView>> {
    Map::empty()
}

/// What a map of the link index holds: for each path key, its links.
pub uninterp spec fn link_table(m: DashMap<String, Vec<LinkEntry>>) -> Map<Seq<char>, Seq<LinkView>>;

/// `DashMap::new`: a map with no entries.
#[verifier::external_body]
fn table_new() -> (m: DashMap<String, Vec<LinkEntry>>)
    ensures
        link_table(m) == empty_table(),
{
    DashMap::new()
}

/// `DashMap::get` with the value cloned out: the links filed under `key`,
/// if the key is present (String keys compare by their text).
#[verifier::external_body]
fn table_get(m: &DashMap<String, Vec<LinkEntry>>, key: &str) -> (r: Option<Vec<LinkEntry>>)
    ensures
        r is Some <==> link_table(*m).contains_key(key@),
        r matches Some(v) ==> link_views(v@) == link_table(*m)[key@],
{
    match m.get(key) {
        Some(entry) => Some(entry.value().clone()),
        None => None,
    }
}

/// `DashMap::insert`: `key` now holds `v`, whatever it held before.
#[verifier::external_body]
fn table_insert(m: &mut DashMap<String, Vec<LinkEntry>>, key: String, v: Vec<LinkEntry>)
    ensures
        link_table(*final(m)) == link_table(*old(m)).insert(key@, link_views(v@)),
{
    m.insert(key, v);
}

/// `DashMap::remove`: `key` is no longer present.
#[verifier::external_body]
fn table_remove(m: &mut DashMap<String, Vec<LinkEntry>>, key: &str)
    ensures
        link_table(*final(m)) == link_table(*old(m)).remove(key@),
{
    m.remove(key);
}

/// `DashMap::clear`: no entries are left.
#[verifier::external_body]
fn table_clear(m: &mut DashMap<String, Vec<LinkEntry>>)
    ensures
        link_table(*final(m)) == empty_table(),
{
    m.clear();
}

/// The keys of the map, read by `DashMap::iter`: each present key once, in
/// an order that depends on the map's hasher and is left unsaid.
#[verifier::external_body]
fn table_keys(m: &DashMap<String, Vec<LinkEntry>>) -> (r: Vec<String>)
    ensures
        forall|i: int, j: int| 0 <= i < j < r@.len() ==> r@[i]@ != r@[j]@,
        forall|i: int| 0 <= i < r@.len() ==> link_table(*m).contains_key(#[trigger] r@[i]@),
        forall|k: Seq<char>| link_table(*m).contains_key(k) ==> exists|i: int| 0 <= i < r@.len() && #[trigger] r@[i]@ == k,
{
    let mut r = Vec::new();
    for entry in m.iter() {
        r.push(entry.key().clone());
    }
    r
}

/// The links filed under `k`, none if `k` is absent.
pub open spec fn entries_at(m: Map<Seq<char>, Seq<LinkView>>, k: Seq<char>) -> Seq<LinkView> {
    if m.contains_key(k) {
        m[k]
    } else {
        seq![]
    }
}

/// Every key holds at least one link, and each link under key `k` has `k`
/// as the key of its target (`by_target`) or of its source (otherwise).
pub open spec fn table_wf(m: Map<Seq<char>, Seq<LinkView>>, by_target: bool) -> bool {
    forall|k: Seq<char>| #[trigger] m.contains_key(k) ==> m[k].len() > 0 && forall|i: int|
        0 <= i < m[k].len() ==> path_key(if by_target { m[k][i].1 } else { m[k][i].0 }) == k
}

/// The links of `s` whose source is not the path with key `p`.
pub open spec fn drop_source(s: Seq<LinkView>, p: Seq<char>) -> Seq<LinkView>
    decreases s.len(),
{
    if s.len() == 0 {
        s
    } else if path_key(s.last().0) == p {
        drop_source(s.drop_last(), p)
    } else {
        drop_source(s.drop_last(), p).push(s.last())
    }
}

/// Does one of the links `es` point to the path with key `t`?
pub open spec fn touches(es: Seq<LinkView>, t: Seq<char>) -> bool {
    exists|i: int| 0 <= i < es.len() && path_key(#[trigger] es[i].1) == t
}

/// Is one of the links `es` written in the note with key `s`?
pub open spec fn written_in(es: Seq<LinkView>, s: Seq<char>) -> bool {
    exists|i: int| 0 <= i < es.len() && path_key(#[trigger] es[i].0) == s
}

/// The link pointed at `new` instead, if it pointed to the path with key `ok`.
pub open spec fn retarget(x: LinkView, ok: Seq<char>, new: Seq<char>) -> LinkView {
    if path_key(x.1) == ok {
        (x.0, new, x.2, x.3)
    } else {
        x
    }
}

/// Every link of `s` retargeted.
pub open spec fn retarget_all(s: Seq<LinkView>, ok: Seq<char>, new: Seq<char>) -> Seq<LinkView> {
    Seq::new(s.len(), |i: int| retarget(s[i], ok, new))
}

/// The links filed under the keys `ks`, one key after another.
pub open spec fn concat_at(m: Map<Seq<char>, Seq<LinkView>>, ks: Seq<Seq<char>>) -> Seq<LinkView>
    decreases ks.len(),
{
    if ks.len() == 0 {
        seq![]
    } else {
        concat_at(m, ks.drop_last()) + entries_at(m, ks.last())
    }
}

/// The target map once the links `es` written in the note with key `p`
/// are forgotten (see [`LinkIndex::remove_file`]).
pub open spec fn strip_targets(t: Map<Seq<char>, Seq<LinkView>>, es: Seq<LinkView>, p: Seq<char>) -> Map<Seq<char>, Seq<LinkView>> {
    Map::new(
        |k: Seq<char>| t.contains_key(k) && (touches(es, k) ==> drop_source(t[k], p).len() > 0),
        |k: Seq<char>| if touches(es, k) { drop_source(t[k], p) } else { t[k] },
    )
}

/// The target map once each link of `es` is added.
pub open spec fn add_targets(t: Map<Seq<char>, Seq<LinkView>>, es: Seq<LinkView>) -> Map<Seq<char>, Seq<LinkView>>
    decreases es.len(),
{
    if es.len() == 0 {
        t
    } else {
        let t0 = add_targets(t, es.drop_last());
        t0.insert(path_key(es.last().1), entries_at(t0, path_key(es.last().1)).push(es.last()))
    }
}

/// The source map once each link of `es` is added.
pub open spec fn add_sources(s: Map<Seq<char>, Seq<LinkView>>, es: Seq<LinkView>) -> Map<Seq<char>, Seq<LinkView>>
    decreases es.len(),
{
    if es.len() == 0 {
        s
    } else {
        let s0 = add_sources(s, es.drop_last());
        s0.insert(path_key(es.last().0), entries_at(s0, path_key(es.last().0)).push(es.last()))
    }
}

/// All links, each filed by the key of its target and by the key of its
/// source.
pub struct LinkIndex {
    by_target: DashMap<String, Vec<LinkEntry>>,
    by_source: DashMap<String, Vec<LinkEntry>>,
}

proof fn lemma_drop_source_step(s: Seq<LinkView>, p: Seq<char>, i: int)
    requires
        0 <= i < s.len(),
    ensures
        drop_source(s.take(i + 1), p) == if path_key(s[i].0) == p {
            drop_source(s.take(i), p)
        } else {
            drop_source(s.take(i), p).push(s[i])
        },
{
    assert(s.take(i + 1).drop_last() =~= s.take(i));
}

proof fn lemma_drop_source_keys(s: Seq<LinkView>, p: Seq<char>, t: Seq<char>)
    requires
        forall|i: int| 0 <= i < s.len() ==> path_key(#[trigger] s[i].1) == t,
    ensures
        forall|i: int| 0 <= i < drop_source(s, p).len() ==> path_key(#[trigger] drop_source(s, p)[i].1) == t,
    decreases s.len(),
{
    if s.len() > 0 {
        let d = s.drop_last();
        assert forall|i: int| 0 <= i < d.len() implies path_key(#[trigger] d[i].1) == t by {
            assert(d[i] == s[i]);
        }
        lemma_drop_source_keys(d, p, t);
        let r = drop_source(d, p);
        if path_key(s.last().0) != p {
            assert forall|i: int| 0 <= i < r.push(s.last()).len() implies path_key(#[trigger] r.push(s.last())[i].1) == t by {
                if i < r.len() {
                    assert(r.push(s.last())[i] == r[i]);
                }
            }
        }
    }
}

proof fn lemma_drop_source_none(s: Seq<LinkView>, p: Seq<char>)
    requires
        forall|i: int| 0 <= i < s.len() ==> path_key(#[trigger] s[i].0) != p,
    ensures
        drop_source(s, p) == s,
    decreases s.len(),
{
    if s.len() > 0 {
        lemma_drop_source_none(s.drop_last(), p);
        assert(s.drop_last().push(s.last()) =~= s);
    }
}

proof fn lemma_drop_source_twice(s: Seq<LinkView>, p: Seq<char>)
    ensures
        drop_source(drop_source(s, p), p) == drop_source(s, p),
    decreases s.len(),
{
    if s.len() > 0 {
        lemma_drop_source_twice(s.drop_last(), p);
        let d = drop_source(s.drop_last(), p);
        if path_key(s.last().0) != p {
            assert(d.push(s.last()).drop_last() =~= d);
        }
    }
}

impl LinkIndex {
    /// The links filed by target key.
    pub closed spec fn targets(&self) -> Map<Seq<char>, Seq<LinkView>> {
        link_table(self.by_target)
    }

    /// The links filed by source key.
    pub closed spec fn sources(&self) -> Map<Seq<char>, Seq<LinkView>> {
        link_table(self.by_source)
    }

    /// Both maps are well filed (see [`table_wf`]).
    pub open spec fn wf(&self) -> bool {
        table_wf(self.targets(), true) && table_wf(self.sources(), false)
    }

    /// An index with no links.
    pub fn new() -> (r: Self)
        ensures
            r.wf(),
            r.targets() == empty_table(),
            r.sources() == empty_table(),
    {
        LinkIndex { by_target: table_new(), by_source: table_new() }
    }

    /// Files `entry` under its target and under its source (the first
    /// argument is not used: the entry names its source).
    pub fn add(&mut self, _source: &str, entry: LinkEntry)
        requires
            old(self).wf(),
        ensures
            final(self).wf(),
            final(self).targets() == old(self).targets().insert(
                path_key(entry@.1),
                entries_at(old(self).targets(), path_key(entry@.1)).push(entry@),
            ),
            final(self).sources() == old(self).sources().insert(
                path_key(entry@.0),
                entries_at(old(self).sources(), path_key(entry@.0)).push(entry@),
            ),
    {
        let tk = path_key_of(&entry.target);
        let mut at_target = match table_get(&self.by_target, &tk) {
            Some(v) => v,
            None => Vec::new(),
        };
        let ghost t_before = link_views(at_target@);
        assert(t_before =~= entries_at(old(self).targets(), tk@));
        at_target.push(entry.duplicate());
        assert(link_views(at_target@) =~= t_before.push(entry@));
        table_insert(&mut self.by_target, tk, at_target);
        let sk = path_key_of(&entry.source);
        let mut at_source = match table_get(&self.by_source, &sk) {
            Some(v) => v,
            None => Vec::new(),
        };
        let ghost s_before = link_views(at_source@);
        assert(s_before =~= entries_at(old(self).sources(), sk@));
        at_source.push(entry);
        assert(link_views(at_source@) =~= s_before.push(entry@));
        table_insert(&mut self.by_source, sk, at_source);
        proof {
            let t = self.targets();
            assert forall|k: Seq<char>| #[trigger] t.contains_key(k) implies t[k].len() > 0 && forall|i: int|
                0 <= i < t[k].len() ==> path_key(t[k][i].1) == k by {
                if k == path_key(entry@.1) {
                    assert forall|i: int| 0 <= i < t[k].len() implies path_key(t[k][i].1) == k by {
                        if i < t_before.len() {
                            assert(t[k][i] == t_before[i]);
                        }
                    }
                }
            }
            let s = self.sources();
            assert forall|k: Seq<char>| #[trigger] s.contains_key(k) implies s[k].len() > 0 && forall|i: int|
                0 <= i < s[k].len() ==> path_key(s[k][i].0) == k by {
                if k == path_key(entry@.0) {
                    assert forall|i: int| 0 <= i < s[k].len() implies path_key(s[k][i].0) == k by {
                        if i < s_before.len() {
                            assert(s[k][i] == s_before[i]);
                        }
                    }
                }
            }
        }
    }

    /// The links that point to `target`.
    pub fn backlinks(&self, target: &str) -> (r: Vec<LinkEntry>)
        ensures
            link_views(r@) == entries_at(self.targets(), path_key(target@)),
    {
        let tk = path_key_of(target);
        match table_get(&self.by_target, &tk) {
            Some(v) => v,
            None => {
                let v: Vec<LinkEntry> = Vec::new();
                assert(link_views(v@) =~= seq![]);
                v
            },
        }
    }

    /// The links filed under the target key `key`.
    pub(crate) fn backlinks_at(&self, key: &str) -> (r: Vec<LinkEntry>)
        ensures
            link_views(r@) == entries_at(self.targets(), key@),
    {
        match table_get(&self.by_target, key) {
            Some(v) => v,
            None => {
                let v: Vec<LinkEntry> = Vec::new();
                assert(link_views(v@) =~= seq![]);
                v
            },
        }
    }

    /// The links written in `source`.
    pub fn outgoing(&self, source: &str) -> (r: Vec<LinkEntry>)
        ensures
            link_views(r@) == entries_at(self.sources(), path_key(source@)),
    {
        let sk = path_key_of(source);
        match table_get(&self.by_source, &sk) {
            Some(v) => v,
            None => {
                let v: Vec<LinkEntry> = Vec::new();
                assert(link_views(v@) =~= seq![]);
                v
            },
        }
    }

    /// Forgets the links written in `path`: they leave the source map, and
    /// each target they point to keeps only its links from other notes
    /// (a target left with none is removed).
    pub fn remove_file(&mut self, path: &str)
        requires
            old(self).wf(),
        ensures
            final(self).wf(),
            final(self).sources() == old(self).sources().remove(path_key(path@)),
            forall|t: Seq<char>| #[trigger] final(self).targets().contains_key(t) <==> old(self).targets().contains_key(t)
                && (touches(entries_at(old(self).sources(), path_key(path@)), t)
                    ==> drop_source(old(self).targets()[t], path_key(path@)).len() > 0),
            forall|t: Seq<char>| #[trigger] final(self).targets().contains_key(t) ==> final(self).targets()[t] == if touches(
                entries_at(old(self).sources(), path_key(path@)),
                t,
            ) {
                drop_source(old(self).targets()[t], path_key(path@))
            } else {
                old(self).targets()[t]
            },
    {
        let pk = path_key_of(path);
        let ghost p = pk@;
        let ghost old_t = self.targets();
        let ghost old_s = self.sources();
        let entries = match table_get(&self.by_source, &pk) {
            Some(v) => v,
            None => {
                proof {
                    assert(old_s.remove(p) =~= old_s);
                    assert forall|t: Seq<char>| old_t.contains_key(t) implies !touches(entries_at(old_s, p), t) by {
                    }
                }
                return;
            },
        };
        let ghost es = link_views(entries@);
        table_remove(&mut self.by_source, &pk);
        let mut i: usize = 0;
        while i < entries.len()
            invariant
                i <= entries@.len(),
                es == link_views(entries@),
                es == entries_at(old_s, p),
                p == path_key(path@),
                p == pk@,
                self.sources() == old_s.remove(p),
                table_wf(old_t, true),
                forall|t: Seq<char>| #[trigger] self.targets().contains_key(t) <==> old_t.contains_key(t)
                    && (touches(es.take(i as int), t) ==> drop_source(old_t[t], p).len() > 0),
                forall|t: Seq<char>| #[trigger] self.targets().contains_key(t) ==> self.targets()[t] == if touches(
                    es.take(i as int),
                    t,
                ) {
                    drop_source(old_t[t], p)
                } else {
                    old_t[t]
                },
            decreases entries@.len() - i,
        {
            let tk = path_key_of(&entries[i].target);
            let ghost t = tk@;
            assert(es[i as int] == entries@[i as int]@);
            proof {
                let a = es.take(i as int);
                let b = es.take(i + 1);
                assert(path_key(b[i as int].1) == t);
                assert forall|u: Seq<char>| touches(b, u) <==> touches(a, u) || u == t by {
                    if touches(b, u) {
                        let j = choose|j: int| 0 <= j < b.len() && path_key(#[trigger] b[j].1) == u;
                        if j < i {
                            assert(a[j] == b[j]);
                            assert(touches(a, u));
                        }
                    }
                    if touches(a, u) {
                        let j = choose|j: int| 0 <= j < a.len() && path_key(#[trigger] a[j].1) == u;
                        assert(b[j] == a[j]);
                        assert(touches(b, u));
                    }
                    if u == t {
                        assert(touches(b, u));
                    }
                }
            }
            match table_get(&self.by_target, &tk) {
                Some(v) => {
                    assert(self.targets().contains_key(t));
                    let mut kept: Vec<LinkEntry> = Vec::new();
                    let mut j: usize = 0;
                    while j < v.len()
                        invariant
                            j <= v@.len(),
                            link_views(kept@) == drop_source(link_views(v@).take(j as int), p),
                            p == pk@,
                        decreases v@.len() - j,
                    {
                        let sk = path_key_of(&v[j].source);
                        proof {
                            lemma_drop_source_step(link_views(v@), p, j as int);
                            assert(link_views(v@)[j as int] == v@[j as int]@);
                        }
                        if sk != pk {
                            let ghost before = link_views(kept@);
                            kept.push(v[j].duplicate());
                            assert(link_views(kept@) =~= before.push(v@[j as int]@));
                        }
                        j = j + 1;
                    }
                    assert(link_views(v@).take(v@.len() as int) =~= link_views(v@));
                    proof {
                        // the target was either untouched so far, or already cleaned
                        let cur = link_views(v@);
                        if touches(es.take(i as int), t) {
                            lemma_drop_source_twice(old_t[t], p);
                        }
                        assert(drop_source(cur, p) == drop_source(old_t[t], p));
                    }
                    if kept.len() == 0 {
                        table_remove(&mut self.by_target, &tk);
                    } else {
                        table_insert(&mut self.by_target, tk, kept);
                    }
                },
                None => {
                    proof {
                        assert(!self.targets().contains_key(t));
                        assert(!old_t.contains_key(t) || (touches(es.take(i as int), t) && drop_source(old_t[t], p).len() == 0));
                        if old_t.contains_key(t) {
                            lemma_drop_source_twice(old_t[t], p);
                        }
                    }
                },
            }
            proof {
                let nt = self.targets();
                assert forall|u: Seq<char>| #[trigger] nt.contains_key(u) <==> old_t.contains_key(u)
                    && (touches(es.take(i + 1), u) ==> drop_source(old_t[u], p).len() > 0) by {
                }
            }
            i = i + 1;
        }
        proof {
            assert(es.take(es.len() as int) =~= es);
            let nt = self.targets();
            assert forall|k: Seq<char>| #[trigger] nt.contains_key(k) implies nt[k].len() > 0 && forall|j: int|
                0 <= j < nt[k].len() ==> path_key(nt[k][j].1) == k by {
                if touches(es, k) {
                    lemma_drop_source_keys(old_t[k], p, k);
                }
            }
        }
    }

    /// Points every link to `old_target` at `new_target` instead: the links
    /// filed under `old_target` move to `new_target` (after those already there), and the copies
    /// filed under their sources are retargeted too.
    pub fn update_target(&mut self, old_target: &str, new_target: &str)
        requires
            old(self).wf(),
        ensures
            final(self).wf(),
            !old(self).targets().contains_key(path_key(old_target@)) ==> final(self).targets() == old(self).targets()
                && final(self).sources() == old(self).sources(),
            old(self).targets().contains_key(path_key(old_target@)) ==> final(self).targets() == old(self).targets().remove(
                path_key(old_target@),
            ).insert(
                path_key(new_target@),
                entries_at(old(self).targets().remove(path_key(old_target@)), path_key(new_target@)) + retarget_all(
                    old(self).targets()[path_key(old_target@)],
                    path_key(old_target@),
                    new_target@,
                ),
            ),
            forall|s: Seq<char>| #[trigger] final(self).sources().contains_key(s) <==> old(self).sources().contains_key(s),
            forall|s: Seq<char>| #[trigger] final(self).sources().contains_key(s) ==> final(self).sources()[s] == if written_in(
                entries_at(old(self).targets(), path_key(old_target@)),
                s,
            ) {
                retarget_all(old(self).sources()[s], path_key(old_target@), new_target@)
            } else {
                old(self).sources()[s]
            },
    {
        let ok = path_key_of(old_target);
        let nk = path_key_of(new_target);
        let ghost old_t = self.targets();
        let ghost old_s = self.sources();
        let removed = match table_get(&self.by_target, &ok) {
            Some(v) => v,
            None => {
                proof {
                    assert forall|s: Seq<char>| old_s.contains_key(s) implies !written_in(entries_at(old_t, ok@), s) by {
                    }
                }
                return;
            },
        };
        let ghost es = link_views(removed@);
        table_remove(&mut self.by_target, &ok);
        let mut at_new = match table_get(&self.by_target, &nk) {
            Some(v) => v,
            None => Vec::new(),
        };
        let ghost base = link_views(at_new@);
        assert(base =~= entries_at(old_t.remove(ok@), nk@));
        let mut i: usize = 0;
        while i < removed.len()
            invariant
                i <= removed@.len(),
                es == link_views(removed@),
                es == old_t[ok@],
                link_views(at_new@) == base + retarget_all(es.take(i as int), ok@, new_target@),
                forall|j: int| 0 <= j < es.len() ==> path_key(#[trigger] es[j].1) == ok@,
                self.targets() == old_t.remove(ok@),
                self.sources() == old_s,
            decreases removed@.len() - i,
        {
            let mut e2 = removed[i].duplicate();
            e2.target = new_target.to_owned();
            let ghost before = link_views(at_new@);
            assert(es[i as int] == removed@[i as int]@);
            at_new.push(e2);
            proof {
                assert(retarget_all(es.take(i + 1), ok@, new_target@) =~= retarget_all(es.take(i as int), ok@, new_target@).push(retarget(es[i as int], ok@, new_target@)));
                assert(link_views(at_new@) =~= before.push(retarget(es[i as int], ok@, new_target@)));
            }
            i = i + 1;
        }
        assert(es.take(es.len() as int) =~= es);
        let ghost nkv = nk@;
        table_insert(&mut self.by_target, nk, at_new);
        let ghost final_t = self.targets();
        assert(final_t == old_t.remove(ok@).insert(nkv, base + retarget_all(es, ok@, new_target@)));
        let mut k: usize = 0;
        while k < removed.len()
            invariant
                k <= removed@.len(),
                es == link_views(removed@),
                es == old_t[ok@],
                ok@ == path_key(old_target@),
                forall|s: Seq<char>| #[trigger] self.sources().contains_key(s) <==> old_s.contains_key(s),
                forall|s: Seq<char>| #[trigger] self.sources().contains_key(s) ==> self.sources()[s] == if written_in(
                    es.take(k as int),
                    s,
                ) {
                    retarget_all(old_s[s], ok@, new_target@)
                } else {
                    old_s[s]
                },
                table_wf(old_s, false),
                self.targets() == final_t,
            decreases removed@.len() - k,
        {
            let sk = path_key_of(&removed[k].source);
            let ghost sv = sk@;
            assert(es[k as int] == removed@[k as int]@);
            proof {
                let a = es.take(k as int);
                let b = es.take(k + 1);
                assert(path_key(b[k as int].0) == sv);
                assert forall|u: Seq<char>| written_in(b, u) <==> written_in(a, u) || u == sv by {
                    if written_in(b, u) {
                        let j = choose|j: int| 0 <= j < b.len() && path_key(#[trigger] b[j].0) == u;
                        if j < k {
                            assert(a[j] == b[j]);
                            assert(written_in(a, u));
                        }
                    }
                    if written_in(a, u) {
                        let j = choose|j: int| 0 <= j < a.len() && path_key(#[trigger] a[j].0) == u;
                        assert(b[j] == a[j]);
                        assert(written_in(b, u));
                    }
                    if u == sv {
                        assert(written_in(b, u));
                    }
                }
            }
            match table_get(&self.by_source, &sk) {
                Some(v) => {
                    assert(self.sources().contains_key(sv));
                    let mut mapped: Vec<LinkEntry> = Vec::new();
                    let mut j: usize = 0;
                    while j < v.len()
                        invariant
                            j <= v@.len(),
                            link_views(mapped@) == retarget_all(link_views(v@).take(j as int), ok@, new_target@),
                        decreases v@.len() - j,
                    {
                        let mut e2 = v[j].duplicate();
                        let tk = path_key_of(&v[j].target);
                        if tk == ok {
                            e2.target = new_target.to_owned();
                        }
                        let ghost before = link_views(mapped@);
                        assert(link_views(v@)[j as int] == v@[j as int]@);
                        mapped.push(e2);
                        proof {
                            assert(retarget_all(link_views(v@).take(j + 1), ok@, new_target@) =~= retarget_all(link_views(v@).take(j as int), ok@, new_target@).push(retarget(link_views(v@)[j as int], ok@, new_target@)));
                            assert(link_views(mapped@) =~= before.push(retarget(link_views(v@)[j as int], ok@, new_target@)));
                        }
                        j = j + 1;
                    }
                    assert(link_views(v@).take(v@.len() as int) =~= link_views(v@));
                    proof {
                        let cur = link_views(v@);
                        if written_in(es.take(k as int), sv) {
                            assert(retarget_all(cur, ok@, new_target@) =~= cur) by {
                                assert forall|q: int| 0 <= q < cur.len() implies retarget(cur[q], ok@, new_target@) == cur[q] by {
                                    let x = old_s[sv][q];
                                    if path_key(x.1) == ok@ {
                                        assert(cur[q] == retarget(x, ok@, new_target@));
                                    }
                                }
                            }
                        }
                    }
                    table_insert(&mut self.by_source, sk, mapped);
                },
                None => {
                    proof {
                        assert(!self.sources().contains_key(sv));
                    }
                },
            }
            k = k + 1;
        }
        proof {
            assert(es.take(es.len() as int) =~= es);
            let nt = self.targets();
            assert forall|key: Seq<char>| #[trigger] nt.contains_key(key) implies nt[key].len() > 0 && forall|j: int|
                0 <= j < nt[key].len() ==> path_key(nt[key][j].1) == key by {
                if key == nkv {
                    let b2 = entries_at(old_t.remove(ok@), nkv);
                    assert forall|j: int| 0 <= j < nt[key].len() implies path_key(nt[key][j].1) == key by {
                        if j >= b2.len() {
                            assert(nt[key][j] == retarget_all(es, ok@, new_target@)[j - b2.len()]);
                        } else {
                            assert(nt[key][j] == b2[j]);
                        }
                    }
                }
            }
            let ns = self.sources();
            assert forall|key: Seq<char>| #[trigger] ns.contains_key(key) implies ns[key].len() > 0 && forall|j: int|
                0 <= j < ns[key].len() ==> path_key(ns[key][j].0) == key by {
                if written_in(es, key) {
                    assert forall|j: int| 0 <= j < ns[key].len() implies path_key(ns[key][j].0) == key by {
                        assert(ns[key][j] == retarget(old_s[key][j], ok@, new_target@));
                    }
                }
            }
        }
    }

    /// Every link, read from the source map: the links of one source after
    /// another, in the map's order of sources.
    pub fn iter(&self) -> (r: Vec<LinkEntry>)
        ensures
            exists|ks: Seq<Seq<char>>| {
                &&& ks.no_duplicates()
                &&& (forall|k: Seq<char>| self.sources().contains_key(k) <==> ks.contains(k))
                &&& link_views(r@) == concat_at(self.sources(), ks)
            },
    {
        let keys = table_keys(&self.by_source);
        let ghost ks = Seq::new(keys@.len(), |i: int| keys@[i]@);
        let mut out: Vec<LinkEntry> = Vec::new();
        let mut i: usize = 0;
        while i < keys.len()
            invariant
                i <= keys@.len(),
                ks == Seq::new(keys@.len(), |q: int| keys@[q]@),
                forall|q: int| 0 <= q < keys@.len() ==> self.sources().contains_key(#[trigger] keys@[q]@),
                link_views(out@) == concat_at(self.sources(), ks.take(i as int)),
            decreases keys@.len() - i,
        {
            let v = match table_get(&self.by_source, keys[i].as_str()) {
                Some(v) => v,
                None => {
                    proof {
                        assert(self.sources().contains_key(keys@[i as int]@));
                    }
                    Vec::new()
                },
            };
            let ghost before = link_views(out@);
            let mut j: usize = 0;
            while j < v.len()
                invariant
                    j <= v@.len(),
                    link_views(out@) == before + link_views(v@).take(j as int),
                decreases v@.len() - j,
            {
                let ghost prev = link_views(out@);
                out.push(v[j].duplicate());
                assert(link_views(out@) =~= prev.push(v@[j as int]@));
                assert(link_views(v@).take(j + 1) =~= link_views(v@).take(j as int).push(v@[j as int]@));
                assert(link_views(out@) =~= before + link_views(v@).take(j + 1));
                j = j + 1;
            }
            proof {
                assert(link_views(v@).take(v@.len() as int) =~= link_views(v@));
                assert(ks.take(i + 1).drop_last() =~= ks.take(i as int));
                assert(ks.take(i + 1).last() == keys@[i as int]@);
            }
            i = i + 1;
        }
        proof {
            assert(ks.take(ks.len() as int) =~= ks);
            assert(ks.no_duplicates());
            assert forall|k: Seq<char>| self.sources().contains_key(k) <==> ks.contains(k) by {
                if self.sources().contains_key(k) {
                    let q = choose|q: int| 0 <= q < keys@.len() && #[trigger] keys@[q]@ == k;
                    assert(ks[q] == k);
                }
                if ks.contains(k) {
                    let q = choose|q: int| 0 <= q < ks.len() && ks[q] == k;
                    assert(self.sources().contains_key(keys@[q]@));
                }
            }
        }
        out
    }

    /// Every target with the links to it, in the map's order.
    pub fn target_rows(&self) -> (r: Vec<(String, Vec<LinkEntry>)>)
        ensures
            forall|i: int, j: int| 0 <= i < j < r@.len() ==> r@[i].0@ != r@[j].0@,
            forall|i: int| 0 <= i < r@.len() ==> self.targets().contains_key(#[trigger] r@[i].0@) && link_views(r@[i].1@)
                == self.targets()[r@[i].0@],
            forall|k: Seq<char>| self.targets().contains_key(k) ==> exists|i: int| 0 <= i < r@.len() && #[trigger] r@[i].0@ == k,
    {
        let keys = table_keys(&self.by_target);
        let mut out: Vec<(String, Vec<LinkEntry>)> = Vec::new();
        let mut i: usize = 0;
        while i < keys.len()
            invariant
                i <= keys@.len(),
                out@.len() == i,
                forall|a: int| 0 <= a < keys@.len() ==> self.targets().contains_key(#[trigger] keys@[a]@),
                forall|a: int| 0 <= a < i ==> #[trigger] out@[a].0@ == keys@[a]@ && link_views(out@[a].1@) == self.targets()[keys@[a]@],
            decreases keys@.len() - i,
        {
            let v = self.backlinks_at(keys[i].as_str());
            assert(self.targets().contains_key(keys@[i as int]@));
            let ghost before = out@;
            out.push((keys[i].clone(), v));
            proof {
                assert forall|a: int| 0 <= a < i + 1 implies #[trigger] out@[a].0@ == keys@[a]@ && link_views(out@[a].1@) == self.targets()[keys@[a]@] by {
                    if a < i {
                        assert(out@[a] == before[a]);
                    }
                }
            }
            i = i + 1;
        }
        proof {
            assert forall|k: Seq<char>| self.targets().contains_key(k) implies exists|i: int| 0 <= i < out@.len() && #[trigger] out@[i].0@ == k by {
                let q = choose|q: int| 0 <= q < keys@.len() && #[trigger] keys@[q]@ == k;
                assert(out@[q].0@ == k);
            }
        }
        out
    }

    /// Forgets every link.
    pub fn clear(&mut self)
        ensures
            final(self).wf(),
            final(self).targets() == empty_table(),
            final(self).sources() == empty_table(),
    {
        table_clear(&mut self.by_target);
        table_clear(&mut self.by_source);
    }

    /// Every target some link points to, once each, ordered by path
    /// components.
    pub fn all_targets(&self) -> (r: Vec<String>)
        ensures
            forall|i: int, j: int| 0 <= i < j < r@.len() ==> r@[i]@ != r@[j]@,
            forall|i: int| 0 <= i < r@.len() ==> self.targets().contains_key(#[trigger] r@[i]@),
            forall|k: Seq<char>| self.targets().contains_key(k) ==> exists|i: int| 0 <= i < r@.len() && #[trigger] r@[i]@ == k,
            forall|i: int, j: int| 0 <= i < j < r@.len() ==> !crate::order::lex_lt(path_order(#[trigger] r@[j]@), path_order(#[trigger] r@[i]@)),
    {
        let keys = table_keys(&self.by_target);
        let sorted = sort_paths(keys);
        proof {
            assert forall|i: int| 0 <= i < sorted@.len() implies self.targets().contains_key(#[trigger] sorted@[i]@) by {
                assert(has_text(keys@, sorted@[i]@));
            }
            assert forall|k: Seq<char>| self.targets().contains_key(k) implies exists|i: int| 0 <= i < sorted@.len() && #[trigger] sorted@[i]@ == k by {
                let q = choose|q: int| 0 <= q < keys@.len() && #[trigger] keys@[q]@ == k;
                assert(has_text(sorted@, keys@[q]@));
            }
        }
        sorted
    }
}

/// Is `x` the text of one of the strings `s`?
pub open spec fn has_text(s: Seq<String>, x: Seq<char>) -> bool {
    exists|q: int| 0 <= q < s.len() && #[trigger] s[q]@ == x
}

/// The texts `items`, distinct as they are, ordered by path components.
#[verifier::spinoff_prover]
#[verifier::rlimit(40)]
pub fn sort_paths(items: Vec<String>) -> (r: Vec<String>)
    requires
        forall|i: int, j: int| 0 <= i < j < items@.len() ==> items@[i]@ != items@[j]@,
    ensures
        r@.len() == items@.len(),
        forall|i: int, j: int| 0 <= i < j < r@.len() ==> r@[i]@ != r@[j]@,
        forall|i: int| 0 <= i < r@.len() ==> has_text(items@, #[trigger] r@[i]@),
        forall|q: int| 0 <= q < items@.len() ==> has_text(r@, #[trigger] items@[q]@),
        forall|i: int, j: int| 0 <= i < j < r@.len() ==> !crate::order::lex_lt(path_order(#[trigger] r@[j]@), path_order(#[trigger] r@[i]@)),
{
    let mut keyed: Vec<(Vec<i64>, String)> = Vec::new();
    let mut i: usize = 0;
    while i < items.len()
        invariant
            i <= items@.len(),
            keyed@.len() == i,
            forall|j: int| 0 <= j < i ==> #[trigger] keyed@[j].1@ == items@[j]@ && keyed@[j].0@ == path_order(items@[j]@),
        decreases items@.len() - i,
    {
        let k = items[i].clone();
        keyed.push((path_order_of(&k), k));
        i = i + 1;
    }
    let ghost pairs = keyed@;
    proof {
        assert(pairs.no_duplicates()) by {
            assert forall|a: int, b: int| 0 <= a < pairs.len() && 0 <= b < pairs.len() && a != b implies pairs[a] != pairs[b] by {
                assert(pairs[a].1@ == items@[a]@);
                assert(pairs[b].1@ == items@[b]@);
                if a < b {
                    assert(items@[a]@ != items@[b]@);
                } else {
                    assert(items@[b]@ != items@[a]@);
                }
            }
        }
    }
    let sorted = sort_by_key(keyed);
    proof {
        lemma_same_elements(pairs, sorted@);
    }
    let mut out: Vec<String> = Vec::new();
    let mut j: usize = 0;
    while j < sorted.len()
        invariant
            j <= sorted@.len(),
            out@.len() == j,
            forall|t: int| 0 <= t < j ==> #[trigger] out@[t]@ == sorted@[t].1@,
        decreases sorted@.len() - j,
    {
        out.push(sorted[j].1.clone());
        j = j + 1;
    }
    proof {
        assert forall|t: int| 0 <= t < out@.len() implies has_text(items@, #[trigger] out@[t]@) by {
            assert(pairs.contains(sorted@[t]));
            let q = choose|q: int| 0 <= q < pairs.len() && pairs[q] == sorted@[t];
            assert(pairs[q].1@ == items@[q]@);
            assert(out@[t]@ == sorted@[t].1@);
            assert(items@[q]@ == out@[t]@);
        }
        assert forall|q: int| 0 <= q < items@.len() implies has_text(out@, #[trigger] items@[q]@) by {
            assert(pairs[q].1@ == items@[q]@);
            assert(sorted@.contains(pairs[q]));
            let t = choose|t: int| 0 <= t < sorted@.len() && sorted@[t] == pairs[q];
            assert(out@[t]@ == items@[q]@);
        }
        assert forall|a: int, b: int| 0 <= a < b < out@.len() implies out@[a]@ != out@[b]@ by {
            assert(pairs.contains(sorted@[a]));
            let qa = choose|q: int| 0 <= q < pairs.len() && pairs[q] == sorted@[a];
            assert(pairs.contains(sorted@[b]));
            let qb = choose|q: int| 0 <= q < pairs.len() && pairs[q] == sorted@[b];
            assert(pairs[qa].1@ == items@[qa]@);
            assert(pairs[qb].1@ == items@[qb]@);
            if out@[a]@ == out@[b]@ {
                if qa < qb {
                    assert(items@[qa]@ != items@[qb]@);
                } else if qb < qa {
                    assert(items@[qb]@ != items@[qa]@);
                }
                assert(sorted@[a] != sorted@[b]);
            }
        }
        assert forall|a: int, b: int| 0 <= a < b < out@.len() implies !crate::order::lex_lt(path_order(#[trigger] out@[b]@), path_order(#[trigger] out@[a]@)) by {
            assert(pairs.contains(sorted@[a]));
            let qa = choose|q: int| 0 <= q < pairs.len() && pairs[q] == sorted@[a];
            assert(pairs.contains(sorted@[b]));
            let qb = choose|q: int| 0 <= q < pairs.len() && pairs[q] == sorted@[b];
            assert(pairs[qa].0@ == path_order(items@[qa]@));
            assert(pairs[qb].0@ == path_order(items@[qb]@));
            assert(!crate::order::lex_lt(sorted@[b].0@, sorted@[a].0@));
        }
    }
    out
}

impl Default for LinkIndex {
    fn default() -> (r: Self)
        ensures
            r.wf(),
            r.targets() == empty_table(),
            r.sources() == empty_table(),
    {
        LinkIndex::new()
    }
}

/// Every link filed by target is filed by source too, and every link
/// filed by source is filed by target.
pub open spec fn paired(t: Map<Seq<char>, Seq<LinkView>>, s: Map<Seq<char>, Seq<LinkView>>) -> bool {
    &&& forall|k: Seq<char>, i: int| t.contains_key(k) && 0 <= i < t[k].len() ==>
        s.contains_key(path_key(#[trigger] t[k][i].0)) && s[path_key(t[k][i].0)].contains(t[k][i])
    &&& forall|k: Seq<char>, i: int| s.contains_key(k) && 0 <= i < s[k].len() ==>
        t.contains_key(path_key(#[trigger] s[k][i].1)) && t[path_key(s[k][i].1)].contains(s[k][i])
}

pub(crate) proof fn lemma_drop_source_contains(s: Seq<LinkView>, p: Seq<char>, y: LinkView)
    ensures
        drop_source(s, p).contains(y) <==> s.contains(y) && path_key(y.0) != p,
    decreases s.len(),
{
    if s.len() > 0 {
        let d = s.drop_last();
        lemma_drop_source_contains(d, p, y);
        let r = drop_source(d, p);
        if s.contains(y) {
            let i = choose|i: int| 0 <= i < s.len() && s[i] == y;
            if i < d.len() {
                assert(d[i] == y);
            }
        }
        if d.contains(y) {
            let i = choose|i: int| 0 <= i < d.len() && d[i] == y;
            assert(s[i] == y);
        }
        if path_key(s.last().0) != p {
            let rp = r.push(s.last());
            if rp.contains(y) && !r.contains(y) {
                let i = choose|i: int| 0 <= i < rp.len() && rp[i] == y;
                assert(i == r.len());
                assert(s[s.len() - 1] == y);
            }
            if r.contains(y) {
                let i = choose|i: int| 0 <= i < r.len() && r[i] == y;
                assert(rp[i] == y);
            }
            if y == s.last() {
                assert(rp[r.len() as int] == y);
            }
        }
    }
}

proof fn lemma_push_contains(s: Seq<LinkView>, x: LinkView, y: LinkView)
    ensures
        s.push(x).contains(y) <==> s.contains(y) || y == x,
{
    if s.contains(y) {
        let i = choose|i: int| 0 <= i < s.len() && s[i] == y;
        assert(s.push(x)[i] == y);
    }
    if y == x {
        assert(s.push(x)[s.len() as int] == y);
    }
    if s.push(x).contains(y) && y != x {
        let i = choose|i: int| 0 <= i < s.push(x).len() && s.push(x)[i] == y;
        assert(s[i] == y);
    }
}

/// Adding a link keeps the two maps in step: what [`LinkIndex::add`] does
/// to them keeps every link filed both by target and by source.
pub proof fn law_add_keeps_pairs(t: Map<Seq<char>, Seq<LinkView>>, s: Map<Seq<char>, Seq<LinkView>>, x: LinkView)
    requires
        paired(t, s),
    ensures
        paired(
            t.insert(path_key(x.1), entries_at(t, path_key(x.1)).push(x)),
            s.insert(path_key(x.0), entries_at(s, path_key(x.0)).push(x)),
        ),
{
    let kt = path_key(x.1);
    let ks = path_key(x.0);
    let t2 = t.insert(kt, entries_at(t, kt).push(x));
    let s2 = s.insert(ks, entries_at(s, ks).push(x));
    assert forall|k: Seq<char>, i: int| t2.contains_key(k) && 0 <= i < t2[k].len() implies
        s2.contains_key(path_key(#[trigger] t2[k][i].0)) && s2[path_key(t2[k][i].0)].contains(t2[k][i]) by {
        let y = t2[k][i];
        let ky = path_key(y.0);
        lemma_push_contains(entries_at(s, ks), x, y);
        if k == kt && i == entries_at(t, kt).len() {
            assert(y == x);
        } else {
            assert(t.contains_key(k) && t[k][i] == y);
            assert(s.contains_key(ky) && s[ky].contains(y));
        }
    }
    assert forall|k: Seq<char>, i: int| s2.contains_key(k) && 0 <= i < s2[k].len() implies
        t2.contains_key(path_key(#[trigger] s2[k][i].1)) && t2[path_key(s2[k][i].1)].contains(s2[k][i]) by {
        let y = s2[k][i];
        let ky = path_key(y.1);
        lemma_push_contains(entries_at(t, kt), x, y);
        if k == ks && i == entries_at(s, ks).len() {
            assert(y == x);
        } else {
            assert(s.contains_key(k) && s[k][i] == y);
            assert(t.contains_key(ky) && t[ky].contains(y));
        }
    }
}

/// Forgetting a note keeps the two maps in step: what
/// [`LinkIndex::remove_file`] does to them leaves every remaining link
/// filed both by target and by source.
pub proof fn law_remove_keeps_pairs(t: Map<Seq<char>, Seq<LinkView>>, s: Map<Seq<char>, Seq<LinkView>>, p: Seq<char>)
    requires
        table_wf(t, true),
        table_wf(s, false),
        paired(t, s),
    ensures
        paired(strip_targets(t, entries_at(s, p), p), s.remove(p)),
{
    let es = entries_at(s, p);
    let t2 = strip_targets(t, es, p);
    let s2 = s.remove(p);
    assert forall|k: Seq<char>, i: int| t2.contains_key(k) && 0 <= i < t2[k].len() implies
        s2.contains_key(path_key(#[trigger] t2[k][i].0)) && s2[path_key(t2[k][i].0)].contains(t2[k][i]) by {
        let y = t2[k][i];
        assert(t2[k].contains(y));
        if touches(es, k) {
            lemma_drop_source_contains(t[k], p, y);
        } else {
            let j = choose|j: int| 0 <= j < t[k].len() && t[k][j] == y;
            assert(s.contains_key(path_key(y.0)) && s[path_key(y.0)].contains(y));
            if path_key(y.0) == p {
                let q = choose|q: int| 0 <= q < es.len() && es[q] == y;
                assert(path_key(t[k][j].1) == k);
                assert(path_key(es[q].1) == k);
            }
        }
        let j = choose|j: int| 0 <= j < t[k].len() && t[k][j] == y;
        assert(s.contains_key(path_key(t[k][j].0)));
    }
    assert forall|k: Seq<char>, i: int| s2.contains_key(k) && 0 <= i < s2[k].len() implies
        t2.contains_key(path_key(#[trigger] s2[k][i].1)) && t2[path_key(s2[k][i].1)].contains(s2[k][i]) by {
        let y = s2[k][i];
        let kt = path_key(y.1);
        assert(s[k][i] == y);
        assert(path_key(y.0) == k);
        assert(t.contains_key(kt) && t[kt].contains(y));
        lemma_drop_source_contains(t[kt], p, y);
        if touches(es, kt) {
            assert(drop_source(t[kt], p).contains(y));
            assert(drop_source(t[kt], p).len() > 0);
        }
    }
}

/// Empty maps are in step.
pub proof fn law_empty_pairs()
    ensures
        paired(empty_table(), empty_table()),
{
}

/// Moving the links of a target keeps the two maps in step: what
/// [`LinkIndex::update_target`] does to them (when `old` is a target)
/// leaves every link filed both by target and by source.
pub proof fn law_retarget_keeps_pairs(t: Map<Seq<char>, Seq<LinkView>>, s: Map<Seq<char>, Seq<LinkView>>, old: Seq<char>, new: Seq<char>)
    requires
        table_wf(t, true),
        table_wf(s, false),
        paired(t, s),
        t.contains_key(path_key(old)),
    ensures
        paired(
            t.remove(path_key(old)).insert(
                path_key(new),
                entries_at(t.remove(path_key(old)), path_key(new)) + retarget_all(t[path_key(old)], path_key(old), new),
            ),
            Map::new(
                |k: Seq<char>| s.contains_key(k),
                |k: Seq<char>| if written_in(entries_at(t, path_key(old)), k) {
                    retarget_all(s[k], path_key(old), new)
                } else {
                    s[k]
                },
            ),
        ),
{
    let ok = path_key(old);
    let nk = path_key(new);
    let moved = t[ok];
    let kept = entries_at(t.remove(ok), nk);
    let t2 = t.remove(ok).insert(nk, kept + retarget_all(moved, ok, new));
    let s2 = Map::new(
        |k: Seq<char>| s.contains_key(k),
        |k: Seq<char>| if written_in(entries_at(t, ok), k) { retarget_all(s[k], ok, new) } else { s[k] },
    );
    assert forall|k: Seq<char>, i: int| t2.contains_key(k) && 0 <= i < t2[k].len() implies
        s2.contains_key(path_key(#[trigger] t2[k][i].0)) && s2[path_key(t2[k][i].0)].contains(t2[k][i]) by {
        let y = t2[k][i];
        if k == nk && i >= kept.len() {
            let j = i - kept.len();
            let x = moved[j];
            assert(y == retarget(x, ok, new));
            let ks = path_key(x.0);
            assert(s.contains_key(ks) && s[ks].contains(x));
            assert(written_in(entries_at(t, ok), ks)) by {
                assert(path_key(entries_at(t, ok)[j].0) == ks);
            }
            let q = choose|q: int| 0 <= q < s[ks].len() && s[ks][q] == x;
            assert(retarget_all(s[ks], ok, new)[q] == y);
        } else {
            let y0 = if k == nk { kept[i] } else { t[k][i] };
            assert(y0 == y);
            assert(k != ok);
            assert(t.contains_key(k) && t[k].contains(y)) by {
                if k == nk {
                    assert(t.remove(ok).contains_key(nk));
                    assert(t[nk][i] == y);
                } else {
                    assert(t[k][i] == y);
                }
            }
            let jj = choose|jj: int| 0 <= jj < t[k].len() && t[k][jj] == y;
            assert(path_key(t[k][jj].1) == k);
            let ks = path_key(y.0);
            assert(s.contains_key(ks) && s[ks].contains(y));
            let q = choose|q: int| 0 <= q < s[ks].len() && s[ks][q] == y;
            if written_in(entries_at(t, ok), ks) {
                assert(retarget(y, ok, new) == y);
                assert(retarget_all(s[ks], ok, new)[q] == y);
            }
        }
    }
    assert forall|k: Seq<char>, i: int| s2.contains_key(k) && 0 <= i < s2[k].len() implies
        t2.contains_key(path_key(#[trigger] s2[k][i].1)) && t2[path_key(s2[k][i].1)].contains(s2[k][i]) by {
        let y = s2[k][i];
        let x = s[k][i];
        let kx = path_key(x.1);
        assert(t.contains_key(kx) && t[kx].contains(x));
        let jj = choose|jj: int| 0 <= jj < t[kx].len() && t[kx][jj] == x;
        if kx == ok {
            assert(written_in(entries_at(t, ok), k)) by {
                assert(path_key(x.0) == k);
                assert(entries_at(t, ok)[jj] == x);
            }
            assert(y == retarget(x, ok, new));
            assert(path_key(y.1) == nk);
            assert((kept + retarget_all(moved, ok, new))[kept.len() + jj] == y);
        } else {
            assert(y == x) by {
                if written_in(entries_at(t, ok), k) {
                    assert(retarget(x, ok, new) == x);
                }
            }
            if kx == nk {
                assert(kept == t[nk]);
                assert((kept + retarget_all(moved, ok, new))[jj] == y);
            } else {
                assert(t2[kx] == t[kx]);
            }
        }
    }
}

} // verus!
