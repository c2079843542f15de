//! Lexicographic order on integer sequences, and sorting by such keys. The
//! orders the library sorts by (text by code point, paths by components,
//! tags by rank) are all written as keys of this kind.
use vstd::prelude::*;
use vstd::utf8::{encode_utf8, encode_utf8_decode_utf8};
use vstd::string::StringSliceAdditionalSpecFns;
use vstd::seq_lib::{to_multiset_insert, to_multiset_build, to_multiset_len, to_multiset_contains};
use vstd::multiset::{Multiset, group_multiset_axioms, lemma_multiset_empty_len};

verus! {

/// Is `a` before `b`, comparing from position `i` on? A proper prefix comes
/// first.
pub open spec fn lex_at(a: Seq<i64>, b: Seq<i64>, i: int) -> bool
    decreases a.len() - i,
{
    if i < 0 || i >= a.len() {
        0 <= i < b.len()
    } else if i >= b.len() {
        false
    } else if a[i] != b[i] {
        a[i] < b[i]
    } else {
        lex_at(a, b, i + 1)
    }
}

/// Lexicographic order: is `a` before `b`?
pub open spec fn lex_lt(a: Seq<i64>, b: Seq<i64>) -> bool {
    lex_at(a, b, 0)
}

pub proof fn lemma_lex_asym(a: Seq<i64>, b: Seq<i64>, i: int)
    requires
        0 <= i,
    ensures
        !(lex_at(a, b, i) && lex_at(b, a, i)),
    decreases a.len() - i,
{
    if i < a.len() && i < b.len() && a[i] == b[i] {
        lemma_lex_asym(a, b, i + 1);
    }
}

pub proof fn lemma_lex_trans(a: Seq<i64>, b: Seq<i64>, c: Seq<i64>, i: int)
    requires
        0 <= i,
        lex_at(a, b, i),
        lex_at(b, c, i),
    ensures
        lex_at(a, c, i),
    decreases a.len() - i,
{
    if i < a.len() && i < b.len() && i < c.len() && a[i] == b[i] && b[i] == c[i] {
        lemma_lex_trans(a, b, c, i + 1);
    }
}

pub proof fn lemma_lex_total(a: Seq<i64>, b: Seq<i64>, i: int)
    requires
        0 <= i <= a.len(),
        i <= b.len(),
        !lex_at(a, b, i),
        !lex_at(b, a, i),
    ensures
        a.len() == b.len(),
        forall|j: int| i <= j < a.len() ==> a[j] == b[j],
    decreases a.len() - i,
{
    if i < a.len() && i < b.len() {
        lemma_lex_total(a, b, i + 1);
    }
}

/// Are the keys of `s` in order (no key after a greater one)?
pub open spec fn sorted_by_key<T>(s: Seq<(Vec<i64>, T)>) -> bool {
    forall|i: int, j: int| 0 <= i < j < s.len() ==> !lex_lt(#[trigger] s[j].0@, #[trigger] s[i].0@)
}

/// Is `a` before `b` in lexicographic order?
pub fn lex_less(a: &Vec<i64>, b: &Vec<i64>) -> (r: bool)
    ensures
        r == lex_lt(a@, b@),
{
    let mut i: usize = 0;
    while i < a.len() && i < b.len() && a[i] == b[i]
        invariant
            i <= a@.len(),
            i <= b@.len(),
            lex_lt(a@, b@) == lex_at(a@, b@, i as int),
        decreases a@.len() - i,
    {
        i = i + 1;
    }
    if i >= a.len() {
        i < b.len()
    } else if i >= b.len() {
        false
    } else {
        a[i] < b[i]
    }
}

/// The items ordered by their keys; items with equal keys may come in any
/// order.
pub fn sort_by_key<T>(items: Vec<(Vec<i64>, T)>) -> (r: Vec<(Vec<i64>, T)>)
    ensures
        r@.to_multiset() == items@.to_multiset(),
        sorted_by_key(r@),
{
    broadcast use to_multiset_insert, to_multiset_build, to_multiset_len, group_multiset_axioms, lemma_multiset_empty_len;

    let mut rest = items;
    let mut out: Vec<(Vec<i64>, T)> = Vec::new();
    assert(out@.to_multiset().len() == 0);
    assert(out@.to_multiset() =~= Multiset::empty());
    assert(out@.to_multiset().add(rest@.to_multiset()) =~= items@.to_multiset());
    while rest.len() > 0
        invariant
            out@.to_multiset().add(rest@.to_multiset()) == items@.to_multiset(),
            sorted_by_key(out@),
        decreases rest@.len(),
    {
        let ghost before = rest@;
        let ghost before_out = out@;
        let x = rest.pop().unwrap();
        assert(before =~= rest@.push(x));
        proof {
            to_multiset_build(rest@, x);
        }
        assert(before.to_multiset() =~= rest@.to_multiset().insert(x));
        let mut p: usize = 0;
        while p < out.len() && !lex_less(&x.0, &out[p].0)
            invariant
                p <= out@.len(),
                forall|k: int| 0 <= k < p ==> !lex_lt(x.0@, #[trigger] out@[k].0@),
            decreases out@.len() - p,
        {
            p = p + 1;
        }
        let ghost old_out = out@;
        proof {
            assert forall|k: int| p <= k < old_out.len() implies !lex_lt(#[trigger] old_out[k].0@, x.0@) by {
                if p < old_out.len() {
                    assert(lex_lt(x.0@, old_out[p as int].0@));
                    if k > p {
                        assert(!lex_lt(old_out[k].0@, old_out[p as int].0@));
                        if lex_lt(old_out[p as int].0@, old_out[k].0@) {
                            lemma_lex_trans(x.0@, old_out[p as int].0@, old_out[k].0@, 0);
                        } else {
                            lemma_lex_total(old_out[p as int].0@, old_out[k].0@, 0);
                            assert(old_out[p as int].0@ =~= old_out[k].0@);
                        }
                    }
                    lemma_lex_asym(x.0@, old_out[k].0@, 0);
                }
            }
        }
        out.insert(p, x);
        proof {
            let n = out@;
            assert(n =~= old_out.insert(p as int, x));
            assert forall|i: int, j: int| 0 <= i < j < n.len() implies !lex_lt(#[trigger] n[j].0@, #[trigger] n[i].0@) by {
                if j < p {
                    assert(n[i] == old_out[i] && n[j] == old_out[j]);
                } else if j == p {
                    assert(n[i] == old_out[i]);
                } else if i == p {
                    assert(n[j] == old_out[j - 1]);
                } else if i < p {
                    assert(n[i] == old_out[i] && n[j] == old_out[j - 1]);
                } else {
                    assert(n[i] == old_out[i - 1] && n[j] == old_out[j - 1]);
                }
            }
            to_multiset_insert(old_out, p as int, x);
            assert(n.to_multiset() =~= old_out.to_multiset().insert(x));
            assert(n.to_multiset().add(rest@.to_multiset()) =~= old_out.to_multiset().add(before.to_multiset()));
        }
    }
    assert(rest@.to_multiset().len() == 0);
    assert(rest@.to_multiset() =~= Multiset::empty());
    assert(out@.to_multiset() =~= out@.to_multiset().add(rest@.to_multiset()));
    out
}

/// Two sequences with the same elements, counted with multiplicity: when
/// one has no repeated element neither has the other, and each element of
/// one stands somewhere in the other.
pub proof fn lemma_same_elements<T>(a: Seq<T>, b: Seq<T>)
    requires
        a.no_duplicates(),
        b.to_multiset() == a.to_multiset(),
    ensures
        b.no_duplicates(),
        b.len() == a.len(),
        forall|t: int| 0 <= t < b.len() ==> a.contains(#[trigger] b[t]),
        forall|q: int| 0 <= q < a.len() ==> b.contains(#[trigger] a[q]),
{
    broadcast use group_multiset_axioms, to_multiset_len;

    a.lemma_multiset_has_no_duplicates();
    assert(a.to_multiset().len() == a.len());
    assert(b.to_multiset().len() == b.len());
    assert forall|x: T| b.to_multiset().contains(x) implies b.to_multiset().count(x) == 1 by {
        assert(a.to_multiset().contains(x));
    }
    b.lemma_multiset_has_no_duplicates_conv();
    assert forall|t: int| 0 <= t < b.len() implies a.contains(#[trigger] b[t]) by {
        to_multiset_contains(b, b[t]);
        to_multiset_contains(a, b[t]);
        assert(b.contains(b[t]));
        assert(a.contains(b[t]));
    }
    assert forall|q: int| 0 <= q < a.len() implies b.contains(#[trigger] a[q]) by {
        to_multiset_contains(a, a[q]);
        to_multiset_contains(b, a[q]);
        assert(a.contains(a[q]));
        assert(b.contains(a[q]));
    }
}

/// Is `s` in strictly increasing order of `key`?
pub open spec fn strictly_sorted<T>(s: Seq<T>, key: spec_fn(T) -> Seq<i64>) -> bool {
    forall|i: int, j: int| 0 <= i < j < s.len() ==> lex_lt(key(#[trigger] s[i]), key(#[trigger] s[j]))
}

/// The elements of the set `set` in increasing order of `key` (for a key
/// that tells elements apart, there is exactly one such sequence).
pub open spec fn in_order<T>(set: Set<T>, key: spec_fn(T) -> Seq<i64>) -> Seq<T> {
    choose|t: Seq<T>| strictly_sorted(t, key) && t.to_set() == set
}

/// Two sequences in strictly increasing order of the same key, with the
/// same elements, are the same sequence.
pub proof fn lemma_sorted_unique<T>(a: Seq<T>, b: Seq<T>, key: spec_fn(T) -> Seq<i64>)
    requires
        strictly_sorted(a, key),
        strictly_sorted(b, key),
        a.to_set() == b.to_set(),
    ensures
        a == b,
    decreases a.len(),
{
    if a.len() == 0 {
        if b.len() > 0 {
            assert(b.to_set().contains(b[0]));
        }
        assert(a =~= b);
    } else {
        assert(a.to_set().contains(a[0]));
        assert(b.len() > 0);
        assert(b.contains(a[0]));
        let j = choose|j: int| 0 <= j < b.len() && b[j] == a[0];
        assert(b.to_set().contains(b[0]));
        assert(a.contains(b[0]));
        let i = choose|i: int| 0 <= i < a.len() && a[i] == b[0];
        if i > 0 {
            assert(lex_lt(key(a[0]), key(a[i])));
            if j > 0 {
                assert(lex_lt(key(b[0]), key(b[j])));
                lemma_lex_trans(key(a[0]), key(a[i]), key(b[j]), 0);
                lemma_lex_asym(key(a[0]), key(a[0]), 0);
            } else {
                lemma_lex_asym(key(a[0]), key(a[0]), 0);
            }
        } else if j > 0 {
            assert(lex_lt(key(b[0]), key(b[j])));
            lemma_lex_asym(key(b[0]), key(b[0]), 0);
        }
        assert(a[0] == b[0]);
        let ta = a.drop_first();
        let tb = b.drop_first();
        assert forall|x: T| ta.to_set().contains(x) <==> tb.to_set().contains(x) by {
            if ta.to_set().contains(x) {
                assert(ta.contains(x));
                let k = choose|k: int| 0 <= k < ta.len() && ta[k] == x;
                assert(a[k + 1] == x);
                assert(a.to_set().contains(x));
                assert(b.contains(x));
                let m = choose|m: int| 0 <= m < b.len() && b[m] == x;
                if m == 0 {
                    assert(lex_lt(key(a[0]), key(a[k + 1])));
                    lemma_lex_asym(key(a[0]), key(a[0]), 0);
                }
                assert(tb[m - 1] == x);
                assert(tb.contains(x));
            }
            if tb.to_set().contains(x) {
                assert(tb.contains(x));
                let k = choose|k: int| 0 <= k < tb.len() && tb[k] == x;
                assert(b[k + 1] == x);
                assert(b.to_set().contains(x));
                assert(a.contains(x));
                let m = choose|m: int| 0 <= m < a.len() && a[m] == x;
                if m == 0 {
                    assert(lex_lt(key(b[0]), key(b[k + 1])));
                    lemma_lex_asym(key(b[0]), key(b[0]), 0);
                }
                assert(ta[m - 1] == x);
                assert(ta.contains(x));
            }
        }
        assert(ta.to_set() =~= tb.to_set());
        assert forall|p: int, q: int| 0 <= p < q < ta.len() implies lex_lt(key(#[trigger] ta[p]), key(#[trigger] ta[q])) by {
            assert(ta[p] == a[p + 1] && ta[q] == a[q + 1]);
        }
        assert forall|p: int, q: int| 0 <= p < q < tb.len() implies lex_lt(key(#[trigger] tb[p]), key(#[trigger] tb[q])) by {
            assert(tb[p] == b[p + 1] && tb[q] == b[q + 1]);
        }
        lemma_sorted_unique(ta, tb, key);
        assert(a =~= b) by {
            assert forall|k: int| 0 <= k < a.len() implies a[k] == b[k] by {
                if k > 0 {
                    assert(a[k] == ta[k - 1]);
                    assert(b[k] == tb[k - 1]);
                }
            }
        }
    }
}

/// A sequence in strictly increasing order of `key` is [`in_order`] of its
/// elements.
pub proof fn lemma_in_order<T>(t: Seq<T>, key: spec_fn(T) -> Seq<i64>)
    requires
        strictly_sorted(t, key),
    ensures
        in_order(t.to_set(), key) == t,
{
    let c = in_order(t.to_set(), key);
    assert(strictly_sorted(c, key) && c.to_set() == t.to_set());
    lemma_sorted_unique(c, t, key);
}

/// The ordering key of a text: its UTF-8 bytes (std compares strings by
/// their bytes).
pub open spec fn text_key(s: Seq<char>) -> Seq<i64> {
    Seq::new(encode_utf8(s).len(), |i: int| encode_utf8(s)[i] as i64)
}

/// The texts of the strings.
pub open spec fn texts(v: Seq<String>) -> Seq<Seq<char>> {
    Seq::new(v.len(), |i: int| v[i]@)
}

pub proof fn lemma_text_key_injective(a: Seq<char>, b: Seq<char>)
    requires
        text_key(a) == text_key(b),
    ensures
        a == b,
{
    let ea = encode_utf8(a);
    let eb = encode_utf8(b);
    assert(ea.len() == text_key(a).len());
    assert forall|i: int| 0 <= i < ea.len() implies ea[i] == eb[i] by {
        let ka = text_key(a);
        let kb = text_key(b);
        assert(ka.len() == ea.len());
        assert(kb.len() == eb.len());
        assert(ka.len() == kb.len());
        assert(ka[i] == ea[i] as i64);
        assert(kb[i] == eb[i] as i64);
        assert(ka[i] == kb[i]);
    }
    assert(ea =~= eb);
    encode_utf8_decode_utf8(a);
    encode_utf8_decode_utf8(b);
}

/// The key of a text (see [`text_key`]).
pub fn text_key_of(s: &String) -> (r: Vec<i64>)
    ensures
        r@ == text_key(s@),
{
    let bytes = s.as_str().as_bytes();
    let mut r: Vec<i64> = Vec::new();
    let mut i: usize = 0;
    while i < bytes.len()
        invariant
            i <= bytes@.len(),
            bytes@ == encode_utf8(s@),
            r@ == Seq::new(i as nat, |q: int| bytes@[q] as i64),
        decreases bytes@.len() - i,
    {
        r.push(bytes[i] as i64);
        assert(Seq::new((i + 1) as nat, |q: int| bytes@[q] as i64) =~= Seq::new(i as nat, |q: int| bytes@[q] as i64).push(bytes@[i as int] as i64));
        i = i + 1;
    }
    r
}

/// The texts of `v`, each once, in increasing order.
pub fn sorted_texts(v: Vec<String>) -> (r: Vec<String>)
    ensures
        strictly_sorted(texts(r@), |t: Seq<char>| text_key(t)),
        texts(r@).to_set() == texts(v@).to_set(),
{
    let ghost tv = texts(v@);
    let mut keyed: Vec<(Vec<i64>, String)> = Vec::new();
    let mut i: usize = 0;
    while i < v.len()
        invariant
            i <= v@.len(),
            keyed@.len() == i,
            forall|j: int| 0 <= j < i ==> #[trigger] keyed@[j].1@ == v@[j]@ && keyed@[j].0@ == text_key(v@[j]@),
        decreases v@.len() - i,
    {
        let k = text_key_of(&v[i]);
        let ghost before = keyed@;
        let pair = (k, v[i].clone());
        let ghost pv = pair;
        keyed.push(pair);
        assert(keyed@ == before.push(pv));
        proof {
            assert forall|j: int| 0 <= j < i + 1 implies #[trigger] keyed@[j].1@ == v@[j]@ && keyed@[j].0@ == text_key(v@[j]@) by {
                if j < i {
                    assert(keyed@[j] == before[j]);
                    assert(before[j].1@ == v@[j]@);
                } else {
                    assert(keyed@[j] == pv);
                }
            }
        }
        i = i + 1;
    }
    let ghost pairs = keyed@;
    let sorted = sort_by_key(keyed);
    let ghost key = |t: Seq<char>| text_key(t);
    proof {
        assert forall|t: int| 0 <= t < sorted@.len() implies #[trigger] sorted@[t].0@ == text_key(sorted@[t].1@) && tv.contains(sorted@[t].1@) by {
            to_multiset_contains(sorted@, sorted@[t]);
            to_multiset_contains(pairs, sorted@[t]);
            assert(pairs.contains(sorted@[t]));
            let q = choose|q: int| 0 <= q < pairs.len() && pairs[q] == sorted@[t];
            assert(tv[q] == v@[q]@);
        }
    }
    let mut out: Vec<String> = Vec::new();
    let mut j: usize = 0;
    while j < sorted.len()
        invariant
            j <= sorted@.len(),
            forall|t: int| 0 <= t < sorted@.len() ==> #[trigger] sorted@[t].0@ == text_key(sorted@[t].1@),
            sorted_by_key(sorted@),
            strictly_sorted(texts(out@), key),
            key == (|t: Seq<char>| text_key(t)),
            j > 0 ==> out@.len() > 0 && out@.last()@ == sorted@[j - 1].1@,
            j == 0 ==> out@.len() == 0,
            forall|x: Seq<char>| texts(out@).to_set().contains(x) <==> exists|t: int| 0 <= t < j && #[trigger] sorted@[t].1@ == x,
            forall|x: int| 0 <= x < out@.len() ==> !lex_lt(text_key(sorted@[j - 1].1@), text_key(#[trigger] out@[x]@)),
        decreases sorted@.len() - j,
    {
        let y = &sorted[j].1;
        let ghost before = out@;
        let fresh = out.len() == 0 || !(out[out.len() - 1] == *y);
        if fresh {
            proof {
                if before.len() > 0 {
                    let last = before.last()@;
                    assert(!lex_lt(sorted@[j as int].0@, sorted@[j - 1].0@));
                    if !lex_lt(text_key(last), text_key(y@)) {
                        lemma_lex_total(text_key(last), text_key(y@), 0);
                        assert(text_key(last) =~= text_key(y@));
                        lemma_text_key_injective(last, y@);
                    }
                    assert forall|x: int| 0 <= x < before.len() implies lex_lt(text_key(before[x]@), text_key(y@)) by {
                        if x < before.len() - 1 {
                            assert(lex_lt(key(texts(before)[x]), key(texts(before)[before.len() - 1])));
                            lemma_lex_trans(text_key(before[x]@), text_key(last), text_key(y@), 0);
                        }
                    }
                }
            }
            out.push(y.clone());
            proof {
                let n = texts(out@);
                assert forall|p: int, q: int| 0 <= p < q < n.len() implies lex_lt(key(#[trigger] n[p]), key(#[trigger] n[q])) by {
                    if q < before.len() {
                        assert(n[p] == texts(before)[p] && n[q] == texts(before)[q]);
                    } else {
                        assert(n[p] == before[p]@);
                    }
                }
            }
        }
        proof {
            let n = texts(out@);
            assert forall|x: Seq<char>| n.to_set().contains(x) <==> exists|t: int| 0 <= t < j + 1 && #[trigger] sorted@[t].1@ == x by {
                if n.to_set().contains(x) {
                    assert(n.contains(x));
                    let q = choose|q: int| 0 <= q < n.len() && n[q] == x;
                    if q < before.len() {
                        assert(texts(before)[q] == x);
                        assert(texts(before).contains(x));
                        assert(texts(before).to_set().contains(x));
                    } else {
                        assert(sorted@[j as int].1@ == x);
                    }
                }
                if exists|t: int| 0 <= t < j + 1 && #[trigger] sorted@[t].1@ == x {
                    let t = choose|t: int| 0 <= t < j + 1 && #[trigger] sorted@[t].1@ == x;
                    if t < j {
                        assert(texts(before).to_set().contains(x));
                        assert(texts(before).contains(x));
                        let q = choose|q: int| 0 <= q < texts(before).len() && texts(before)[q] == x;
                        assert(n[q] == x);
                        assert(n.contains(x));
                    } else {
                        if fresh {
                            assert(n[before.len() as int] == x);
                        } else {
                            assert(n[before.len() - 1] == x);
                        }
                        assert(n.contains(x));
                    }
                }
            }
            assert forall|x: int| 0 <= x < out@.len() implies !lex_lt(text_key(sorted@[j as int].1@), text_key(#[trigger] out@[x]@)) by {
                if x < before.len() {
                    if j > 0 {
                        assert(!lex_lt(text_key(sorted@[j - 1].1@), text_key(before[x]@)));
                        assert(!lex_lt(sorted@[j as int].0@, sorted@[j - 1].0@));
                        if lex_lt(text_key(sorted@[j as int].1@), text_key(before[x]@)) {
                            if lex_lt(text_key(sorted@[j - 1].1@), text_key(sorted@[j as int].1@)) {
                                lemma_lex_trans(text_key(sorted@[j - 1].1@), text_key(sorted@[j as int].1@), text_key(before[x]@), 0);
                            } else {
                                lemma_lex_total(text_key(sorted@[j - 1].1@), text_key(sorted@[j as int].1@), 0);
                                assert(text_key(sorted@[j - 1].1@) =~= text_key(sorted@[j as int].1@));
                            }
                        }
                    }
                } else {
                    lemma_lex_asym(text_key(sorted@[j as int].1@), text_key(sorted@[j as int].1@), 0);
                }
            }
        }
        j = j + 1;
    }
    proof {
        assert forall|x: Seq<char>| texts(out@).to_set().contains(x) <==> tv.to_set().contains(x) by {
            if texts(out@).to_set().contains(x) {
                let t = choose|t: int| 0 <= t < sorted@.len() && #[trigger] sorted@[t].1@ == x;
                assert(sorted@[t].0@ == text_key(sorted@[t].1@));
                assert(tv.contains(x));
            }
            if tv.to_set().contains(x) {
                assert(tv.contains(x));
                let q = choose|q: int| 0 <= q < tv.len() && tv[q] == x;
                assert(pairs[q].1@ == x);
                to_multiset_contains(pairs, pairs[q]);
                to_multiset_contains(sorted@, pairs[q]);
                assert(sorted@.contains(pairs[q]));
                let t = choose|t: int| 0 <= t < sorted@.len() && sorted@[t] == pairs[q];
                assert(sorted@[t].1@ == x);
            }
        }
        assert(texts(out@).to_set() =~= tv.to_set());
    }
    out
}

/// `t` with `x` put in its place by text order (unchanged if it is there).
pub open spec fn insert_text(t: Seq<Seq<char>>, x: Seq<char>) -> Seq<Seq<char>>
    decreases t.len(),
{
    if t.len() == 0 {
        seq![x]
    } else if t.last() == x {
        t
    } else if lex_lt(text_key(t.last()), text_key(x)) {
        t.push(x)
    } else {
        insert_text(t.drop_last(), x).push(t.last())
    }
}

proof fn lemma_insert_text(t: Seq<Seq<char>>, x: Seq<char>)
    requires
        strictly_sorted(t, |a: Seq<char>| text_key(a)),
    ensures
        strictly_sorted(insert_text(t, x), |a: Seq<char>| text_key(a)),
        insert_text(t, x).to_set() == t.to_set().insert(x),
        forall|i: int| 0 <= i < insert_text(t, x).len() ==> #[trigger] insert_text(t, x)[i] == x || t.contains(insert_text(t, x)[i]),
    decreases t.len(),
{
    let key = |a: Seq<char>| text_key(a);
    let r = insert_text(t, x);
    if t.len() == 0 {
        assert(r.to_set() =~= t.to_set().insert(x)) by {
            assert forall|y: Seq<char>| r.to_set().contains(y) implies y == x by {
                assert(r.contains(y));
            }
            assert(r[0] == x);
        }
    } else if t.last() == x {
        assert(t[t.len() - 1] == x);
        assert(r.to_set() =~= t.to_set().insert(x));
    } else if lex_lt(text_key(t.last()), text_key(x)) {
        assert forall|i: int, j: int| 0 <= i < j < r.len() implies lex_lt(key(#[trigger] r[i]), key(#[trigger] r[j])) by {
            if j == t.len() {
                if i < t.len() - 1 {
                    assert(lex_lt(key(t[i]), key(t[t.len() - 1])));
                    lemma_lex_trans(text_key(t[i]), text_key(t.last()), text_key(x), 0);
                }
            } else {
                assert(r[i] == t[i] && r[j] == t[j]);
            }
        }
        assert forall|y: Seq<char>| r.to_set().contains(y) <==> t.to_set().insert(x).contains(y) by {
            if r.contains(y) {
                let i = choose|i: int| 0 <= i < r.len() && r[i] == y;
                if i < t.len() {
                    assert(t[i] == y);
                }
            }
            if t.contains(y) {
                let i = choose|i: int| 0 <= i < t.len() && t[i] == y;
                assert(r[i] == y);
            }
            if y == x {
                assert(r[t.len() as int] == x);
            }
        }
        assert(r.to_set() =~= t.to_set().insert(x));
        assert forall|i: int| 0 <= i < r.len() implies #[trigger] r[i] == x || t.contains(r[i]) by {
            if i < t.len() {
                assert(r[i] == t[i]);
            }
        }
    } else {
        let d = t.drop_last();
        let last = t.last();
        assert(strictly_sorted(d, key)) by {
            assert forall|i: int, j: int| 0 <= i < j < d.len() implies lex_lt(key(#[trigger] d[i]), key(#[trigger] d[j])) by {
                assert(d[i] == t[i] && d[j] == t[j]);
            }
        }
        lemma_insert_text(d, x);
        let q = insert_text(d, x);
        assert(r == q.push(last));
        assert(lex_lt(text_key(x), text_key(last))) by {
            if !lex_lt(text_key(x), text_key(last)) {
                lemma_lex_total(text_key(x), text_key(last), 0);
                assert(text_key(x) =~= text_key(last));
                lemma_text_key_injective(x, last);
            }
        }
        assert forall|i: int| 0 <= i < q.len() implies lex_lt(text_key(#[trigger] q[i]), text_key(last)) by {
            if q[i] != x {
                assert(d.contains(q[i]));
                let k = choose|k: int| 0 <= k < d.len() && d[k] == q[i];
                assert(lex_lt(key(t[k]), key(t[t.len() - 1])));
            }
        }
        assert forall|i: int, j: int| 0 <= i < j < r.len() implies lex_lt(key(#[trigger] r[i]), key(#[trigger] r[j])) by {
            if j == q.len() {
                assert(r[i] == q[i]);
            } else {
                assert(r[i] == q[i] && r[j] == q[j]);
            }
        }
        assert forall|y: Seq<char>| r.to_set().contains(y) <==> t.to_set().insert(x).contains(y) by {
            if r.contains(y) {
                let i = choose|i: int| 0 <= i < r.len() && r[i] == y;
                if i < q.len() {
                    assert(q[i] == y);
                    assert(q.to_set().contains(y));
                    if y != x {
                        assert(d.to_set().contains(y));
                        let k = choose|k: int| 0 <= k < d.len() && d[k] == y;
                        assert(t[k] == y);
                    }
                } else {
                    assert(t[t.len() - 1] == y);
                }
            }
            if t.contains(y) {
                let i = choose|i: int| 0 <= i < t.len() && t[i] == y;
                if i < t.len() - 1 {
                    assert(d[i] == y);
                    assert(d.to_set().contains(y));
                    assert(q.to_set().contains(y));
                    assert(q.contains(y));
                    let k = choose|k: int| 0 <= k < q.len() && q[k] == y;
                    assert(r[k] == y);
                } else {
                    assert(r[q.len() as int] == y);
                }
            }
            if y == x {
                assert(q.to_set().contains(x));
                assert(q.contains(x));
                let k = choose|k: int| 0 <= k < q.len() && q[k] == x;
                assert(r[k] == x);
            }
        }
        assert(r.to_set() =~= t.to_set().insert(x));
        assert forall|i: int| 0 <= i < r.len() implies #[trigger] r[i] == x || t.contains(r[i]) by {
            if i < q.len() {
                assert(r[i] == q[i]);
                if q[i] != x {
                    let k = choose|k: int| 0 <= k < d.len() && d[k] == q[i];
                    assert(t[k] == q[i]);
                }
            } else {
                assert(t[t.len() - 1] == r[i]);
            }
        }
    }
}

/// The texts of `s` can be put in strictly increasing text order.
pub proof fn lemma_text_order_exists(s: Seq<Seq<char>>)
    ensures
        exists|t: Seq<Seq<char>>| strictly_sorted(t, |a: Seq<char>| text_key(a)) && t.to_set() == s.to_set(),
    decreases s.len(),
{
    let key = |a: Seq<char>| text_key(a);
    if s.len() == 0 {
        let t: Seq<Seq<char>> = seq![];
        assert(t.to_set() =~= s.to_set());
        assert(strictly_sorted(t, key));
    } else {
        lemma_text_order_exists(s.drop_last());
        let t = choose|t: Seq<Seq<char>>| strictly_sorted(t, key) && t.to_set() == s.drop_last().to_set();
        lemma_insert_text(t, s.last());
        let u = insert_text(t, s.last());
        assert(u.to_set() =~= s.to_set()) by {
            assert forall|y: Seq<char>| u.to_set().contains(y) <==> s.to_set().contains(y) by {
                if s.contains(y) {
                    let i = choose|i: int| 0 <= i < s.len() && s[i] == y;
                    if i < s.len() - 1 {
                        assert(s.drop_last()[i] == y);
                        assert(s.drop_last().to_set().contains(y));
                    }
                }
                if s.drop_last().to_set().contains(y) {
                    assert(s.drop_last().contains(y));
                    let i = choose|i: int| 0 <= i < s.drop_last().len() && s.drop_last()[i] == y;
                    assert(s[i] == y);
                }
                if y == s.last() {
                    assert(s[s.len() - 1] == y);
                }
            }
        }
        assert(strictly_sorted(u, key) && u.to_set() == s.to_set());
    }
}

/// The texts of `s`, in text order, are just the elements of `s`, each
/// once.
pub proof fn lemma_in_text_order(s: Seq<Seq<char>>)
    ensures
        in_order(s.to_set(), |a: Seq<char>| text_key(a)).to_set() == s.to_set(),
        in_order(s.to_set(), |a: Seq<char>| text_key(a)).no_duplicates(),
{
    lemma_text_order_exists(s);
    let key = |a: Seq<char>| text_key(a);
    let c = in_order(s.to_set(), key);
    assert(strictly_sorted(c, key) && c.to_set() == s.to_set());
    assert forall|i: int, j: int| 0 <= i < c.len() && 0 <= j < c.len() && i != j implies c[i] != c[j] by {
        if i < j {
            assert(lex_lt(key(c[i]), key(c[j])));
            if c[i] == c[j] {
                lemma_lex_asym(text_key(c[i]), text_key(c[i]), 0);
            }
        } else {
            assert(lex_lt(key(c[j]), key(c[i])));
            if c[i] == c[j] {
                lemma_lex_asym(text_key(c[i]), text_key(c[i]), 0);
            }
        }
    }
}

} // verus!
