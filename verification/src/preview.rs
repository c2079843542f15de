//! The preview's reading of a run of text: tags `#name` and ISO dates
//! `YYYY-MM-DD` are picked out (by regular expressions), and the text
//! between them is kept as it is.
use vstd::prelude::*;
use vstd::utf8::{
    valid_utf8, decode_utf8, encode_utf8, encode_utf8_valid_utf8, encode_utf8_decode_utf8, is_char_boundary,
    is_char_boundary_start_end_of_seq, is_char_boundary_iff_not_is_continuation_byte, decode_utf8_split,
};
use vstd::string::StringSliceAdditionalSpecFns;
use crate::text::{substring, lemma_valid_sub};

verus! {

/// A piece of a text run: plain text, a tag or a date, with its text.
#[derive(Clone, Debug, PartialEq)]
pub enum Segment {
    RawText(String),
    Tag(String),
    Date(String),
}

/// A piece as plain values.
pub ghost enum SegmentView {
    RawText(Seq<char>),
    Tag(Seq<char>),
    Date(Seq<char>),
}

impl View for Segment {
    type V = SegmentView;

    open spec fn view(&self) -> SegmentView {
        match self {
            Segment::RawText(t) => SegmentView::RawText(t@),
            Segment::Tag(t) => SegmentView::Tag(t@),
            Segment::Date(t) => SegmentView::Date(t@),
        }
    }
}

/// The pieces as plain values.
pub open spec fn segment_views(v: Seq<Segment>) -> Seq<SegmentView> {
    Seq::new(v.len(), |i: int| v[i]@)
}

/// Are `sp` byte ranges of `b` that start and end at character
/// boundaries, in order and without overlap?
pub open spec fn spans_ok(b: Seq<u8>, sp: Seq<(usize, usize)>) -> bool {
    &&& forall|i: int| 0 <= i < sp.len() ==> span_ok(b, #[trigger] sp[i])
    &&& forall|i: int, j: int| 0 <= i < j < sp.len() ==> (#[trigger] sp[i]).1 <= (#[trigger] sp[j]).0
}

/// Is `x` a byte range of `b` from one character boundary to another?
pub open spec fn span_ok(b: Seq<u8>, x: (usize, usize)) -> bool {
    x.0 <= x.1 <= b.len() && is_char_boundary(b, x.0 as int) && is_char_boundary(b, x.1 as int)
}

/// The byte ranges of the successive matches of the regular expression
/// `pattern` in `s` (the regex crate's `find_iter`), none for a pattern
/// that does not compile.
pub uninterp spec fn regex_spans(pattern: Seq<char>, s: Seq<char>) -> Seq<(usize, usize)>;

/// The matches of `pattern` in `s` (the regex crate's `Regex::new` and
/// `find_iter`). The crate's documentation: matches come in order, do not
/// overlap, and start and end at character boundaries.
#[verifier::external_body]
fn find_spans(pattern: &str, s: &str) -> (r: Vec<(usize, usize)>)
    ensures
        r@ == regex_spans(pattern@, s@),
        spans_ok(s.spec_bytes(), r@),
{
    match regex::Regex::new(pattern) {
        Ok(re) => re.find_iter(s).map(|m| (m.start(), m.end())).collect(),
        Err(_) => Vec::new(),
    }
}

/// The matches of both kinds merged by start, tags before dates at the same
/// start (a stable sort of the tags followed by the dates), from `tags[i..]`
/// and `dates[j..]` on; `true` marks a tag.
pub open spec fn merged(tags: Seq<(usize, usize)>, dates: Seq<(usize, usize)>, i: int, j: int) -> Seq<(usize, usize, bool)>
    decreases tags.len() - i + dates.len() - j,
{
    if i < 0 || j < 0 || i > tags.len() || j > dates.len() {
        seq![]
    } else if i == tags.len() && j == dates.len() {
        seq![]
    } else if j == dates.len() || (i < tags.len() && tags[i].0 <= dates[j].0) {
        seq![(tags[i].0, tags[i].1, true)] + merged(tags, dates, i + 1, j)
    } else {
        seq![(dates[j].0, dates[j].1, false)] + merged(tags, dates, i, j + 1)
    }
}

/// The pieces of the text of bytes `b`, from token `k` on, after the text
/// up to byte `last`: the text before each token (if any), the token, and
/// at the end the text after the last one (if any).
pub open spec fn pieces(b: Seq<u8>, toks: Seq<(usize, usize, bool)>, k: int, last: int) -> Seq<SegmentView>
    decreases toks.len() - k,
{
    if k < 0 || k >= toks.len() {
        if last < b.len() { seq![SegmentView::RawText(decode_utf8(b.subrange(last, b.len() as int)))] } else { seq![] }
    } else {
        let t = toks[k];
        let before = if t.0 > last { seq![SegmentView::RawText(decode_utf8(b.subrange(last, t.0 as int)))] } else { seq![] };
        let text = decode_utf8(b.subrange(t.0 as int, t.1 as int));
        before + seq![if t.2 { SegmentView::Tag(text) } else { SegmentView::Date(text) }] + pieces(b, toks, k + 1, t.1 as int)
    }
}

/// The pieces of the text of bytes `b` around the tokens `toks`; a text
/// that gives no piece at all (the empty text) is one plain piece.
pub open spec fn all_pieces(b: Seq<u8>, toks: Seq<(usize, usize, bool)>) -> Seq<SegmentView> {
    let p = pieces(b, toks, 0, 0);
    if p.len() == 0 { seq![SegmentView::RawText(decode_utf8(b))] } else { p }
}

/// Merges the two kinds of matches (see [`merged`]).
fn merge_spans(tags: &Vec<(usize, usize)>, dates: &Vec<(usize, usize)>) -> (r: Vec<(usize, usize, bool)>)
    ensures
        r@ == merged(tags@, dates@, 0, 0),
        forall|k: int| 0 <= k < r@.len() ==> (#[trigger] r@[k].2 ==> tags@.contains((r@[k].0, r@[k].1)))
            && (!r@[k].2 ==> dates@.contains((r@[k].0, r@[k].1))),
{
    let mut out: Vec<(usize, usize, bool)> = Vec::new();
    let mut i: usize = 0;
    let mut j: usize = 0;
    while i < tags.len() || j < dates.len()
        invariant
            i <= tags@.len(),
            j <= dates@.len(),
            merged(tags@, dates@, 0, 0) == out@ + merged(tags@, dates@, i as int, j as int),
            forall|k: int| 0 <= k < out@.len() ==> (#[trigger] out@[k].2 ==> tags@.contains((out@[k].0, out@[k].1)))
                && (!out@[k].2 ==> dates@.contains((out@[k].0, out@[k].1))),
        decreases tags@.len() - i + dates@.len() - j,
    {
        let ghost before = out@;
        if j == dates.len() || (i < tags.len() && tags[i].0 <= dates[j].0) {
            let t = (tags[i].0, tags[i].1, true);
            out.push(t);
            assert(tags@[i as int] == (t.0, t.1));
            assert(out@ + merged(tags@, dates@, i + 1, j as int) =~= before + (seq![t] + merged(tags@, dates@, i + 1, j as int)));
            i = i + 1;
        } else {
            let t = (dates[j].0, dates[j].1, false);
            out.push(t);
            assert(dates@[j as int] == (t.0, t.1));
            assert(out@ + merged(tags@, dates@, i as int, j + 1) =~= before + (seq![t] + merged(tags@, dates@, i as int, j + 1)));
            j = j + 1;
        }
    }
    assert(out@ + merged(tags@, dates@, i as int, j as int) =~= out@);
    out
}

/// The pieces of `s` around the tag matches `tags` and the date matches
/// `dates` (see [`all_pieces`] and [`merged`]).
pub fn split_at_tokens(s: &str, tags: &Vec<(usize, usize)>, dates: &Vec<(usize, usize)>) -> (r: Vec<Segment>)
    requires
        spans_ok(s.spec_bytes(), tags@),
        spans_ok(s.spec_bytes(), dates@),
    ensures
        segment_views(r@) == all_pieces(s.spec_bytes(), merged(tags@, dates@, 0, 0)),
{
    let b = s.as_bytes();
    proof {
        encode_utf8_valid_utf8(s@);
        is_char_boundary_start_end_of_seq(b@);
    }
    let toks = merge_spans(tags, dates);
    let ghost tv = toks@;
    let mut out: Vec<Segment> = Vec::new();
    let mut last: usize = 0;
    let mut k: usize = 0;
    while k < toks.len()
        invariant
            k <= toks@.len(),
            tv == toks@,
            b@ == s.spec_bytes(),
            valid_utf8(b@),
            last <= b@.len(),
            is_char_boundary(b@, last as int),
            is_char_boundary(b@, b@.len() as int),
            spans_ok(b@, tags@),
            spans_ok(b@, dates@),
            forall|q: int| 0 <= q < tv.len() ==> (#[trigger] tv[q].2 ==> tags@.contains((tv[q].0, tv[q].1)))
                && (!tv[q].2 ==> dates@.contains((tv[q].0, tv[q].1))),
            pieces(b@, tv, 0, 0) == segment_views(out@) + pieces(b@, tv, k as int, last as int),
        decreases toks@.len() - k,
    {
        let (st, en, is_tag) = toks[k];
        proof {
            if is_tag {
                let q = choose|q: int| 0 <= q < tags@.len() && tags@[q] == (st, en);
                assert(span_ok(b@, tags@[q]));
            } else {
                let q = choose|q: int| 0 <= q < dates@.len() && dates@[q] == (st, en);
                assert(span_ok(b@, dates@[q]));
            }
        }
        let ghost prev = segment_views(out@);
        if st > last {
            let t = substring(b, last, st);
            out.push(Segment::RawText(t));
        }
        let text = substring(b, st, en);
        if is_tag {
            out.push(Segment::Tag(text));
        } else {
            out.push(Segment::Date(text));
        }
        let ghost before = if st > last { seq![SegmentView::RawText(decode_utf8(b@.subrange(last as int, st as int)))] } else { seq![] };
        let ghost tok = if is_tag { SegmentView::Tag(decode_utf8(b@.subrange(st as int, en as int))) } else { SegmentView::Date(decode_utf8(b@.subrange(st as int, en as int))) };
        assert(segment_views(out@) =~= prev + before + seq![tok]);
        assert(pieces(b@, tv, k as int, last as int) == before + seq![tok] + pieces(b@, tv, k + 1, en as int));
        assert(segment_views(out@) + pieces(b@, tv, k + 1, en as int) =~= prev + (before + seq![tok] + pieces(b@, tv, k + 1, en as int)));
        last = en;
        k = k + 1;
    }
    let ghost prev = segment_views(out@);
    if last < b.len() {
        let t = substring(b, last, b.len());
        out.push(Segment::RawText(t));
        assert(segment_views(out@) =~= prev + seq![SegmentView::RawText(decode_utf8(b@.subrange(last as int, b@.len() as int)))]);
    } else {
        assert(segment_views(out@) =~= prev + seq![]);
    }
    if out.len() == 0 {
        assert(b@.subrange(0, b@.len() as int) =~= b@);
        let t = substring(b, 0, b.len());
        out.push(Segment::RawText(t));
        assert(segment_views(out@) =~= seq![SegmentView::RawText(decode_utf8(b@))]);
    }
    out
}

/// The pieces of the text `s`: its tag and date matches merged, and the
/// text around them (see [`all_pieces`]).
pub open spec fn special_pieces(s: Seq<char>) -> Seq<SegmentView> {
    all_pieces(
        encode_utf8(s),
        merged(regex_spans("(#([\\w-]+))"@, s), regex_spans("(\\d{4}-\\d{2}-\\d{2})"@, s), 0, 0),
    )
}

/// The pieces of a text run: tags (`#` and word characters or `-`) and
/// ISO dates picked out by regular expressions, in order, and the text
/// around them.
pub fn split_special_tokens(s: &str) -> (r: Vec<Segment>)
    ensures
        segment_views(r@) == special_pieces(s@),
{
    let tags = find_spans("(#([\\w-]+))", s);
    let dates = find_spans("(\\d{4}-\\d{2}-\\d{2})", s);
    split_at_tokens(s, &tags, &dates)
}

/// The text of a piece.
pub open spec fn piece_text(p: SegmentView) -> Seq<char> {
    match p {
        SegmentView::RawText(t) => t,
        SegmentView::Tag(t) => t,
        SegmentView::Date(t) => t,
    }
}

/// The texts of the pieces `ps`, joined.
pub open spec fn joined(ps: Seq<SegmentView>) -> Seq<char>
    decreases ps.len(),
{
    if ps.len() == 0 {
        seq![]
    } else {
        joined(ps.drop_last()) + piece_text(ps.last())
    }
}

/// Are the tokens byte ranges of `b` between character boundaries, each
/// ending before any later one starts?
pub open spec fn tokens_apart(b: Seq<u8>, toks: Seq<(usize, usize, bool)>) -> bool {
    &&& forall|q: int| 0 <= q < toks.len() ==> span_ok(b, ((#[trigger] toks[q]).0, toks[q].1))
    &&& forall|p: int, q: int| 0 <= p < q < toks.len() ==> (#[trigger] toks[p]).1 <= (#[trigger] toks[q]).0
}

proof fn lemma_joined_one(p: SegmentView)
    ensures
        joined(seq![p]) == piece_text(p),
{
    assert(seq![p].drop_last() =~= Seq::<SegmentView>::empty());
    assert(joined(Seq::<SegmentView>::empty()) == Seq::<char>::empty());
    assert(joined(seq![p]) =~= piece_text(p));
}

proof fn lemma_joined_append(a: Seq<SegmentView>, c: Seq<SegmentView>)
    ensures
        joined(a + c) == joined(a) + joined(c),
    decreases c.len(),
{
    if c.len() == 0 {
        assert(a + c =~= a);
        assert(joined(a) + joined(c) =~= joined(a));
    } else {
        lemma_joined_append(a, c.drop_last());
        assert((a + c).drop_last() =~= a + c.drop_last());
        assert(joined(a) + joined(c) =~= joined(a) + joined(c.drop_last()) + piece_text(c.last()));
    }
}

/// Decoding valid UTF-8 between boundaries `i <= j <= k` decodes the two
/// halves.
proof fn lemma_decode_join(b: Seq<u8>, i: int, j: int, k: int)
    requires
        valid_utf8(b),
        0 <= i <= j <= k <= b.len(),
        is_char_boundary(b, i),
        is_char_boundary(b, j),
        is_char_boundary(b, k),
    ensures
        decode_utf8(b.subrange(i, k)) == decode_utf8(b.subrange(i, j)) + decode_utf8(b.subrange(j, k)),
{
    lemma_valid_sub(b, i, k);
    let c = b.subrange(i, k);
    assert(is_char_boundary(c, j - i)) by {
        if j == i {
        } else if j == k {
            is_char_boundary_start_end_of_seq(c);
        } else {
            is_char_boundary_iff_not_is_continuation_byte(b, j);
            is_char_boundary_iff_not_is_continuation_byte(c, j - i);
        }
    }
    decode_utf8_split(c, j - i);
    assert(c.subrange(0, j - i) =~= b.subrange(i, j));
    assert(c.subrange(j - i, c.len() as int) =~= b.subrange(j, k));
}

proof fn lemma_pieces_join(b: Seq<u8>, toks: Seq<(usize, usize, bool)>, k: int, last: int)
    requires
        valid_utf8(b),
        tokens_apart(b, toks),
        0 <= k <= toks.len(),
        0 <= last <= b.len(),
        is_char_boundary(b, last),
        k < toks.len() ==> last <= toks[k].0,
    ensures
        joined(pieces(b, toks, k, last)) == decode_utf8(b.subrange(last, b.len() as int)),
    decreases toks.len() - k,
{
    is_char_boundary_start_end_of_seq(b);
    if k == toks.len() {
        if last < b.len() {
            lemma_joined_one(SegmentView::RawText(decode_utf8(b.subrange(last, b.len() as int))));
        } else {
            assert(b.subrange(last, b.len() as int) =~= Seq::<u8>::empty());
        }
    } else {
        let t = toks[k];
        assert(span_ok(b, (t.0, t.1)));
        if k + 1 < toks.len() {
            assert(toks[k].1 <= toks[k + 1].0);
        }
        lemma_pieces_join(b, toks, k + 1, t.1 as int);
        let before = if t.0 > last { seq![SegmentView::RawText(decode_utf8(b.subrange(last, t.0 as int)))] } else { seq![] };
        let text = decode_utf8(b.subrange(t.0 as int, t.1 as int));
        let tok = if t.2 { SegmentView::Tag(text) } else { SegmentView::Date(text) };
        let rest = pieces(b, toks, k + 1, t.1 as int);
        assert(pieces(b, toks, k, last) == before + seq![tok] + rest);
        lemma_joined_append(before + seq![tok], rest);
        lemma_joined_append(before, seq![tok]);
        lemma_joined_one(tok);
        assert(joined(before) == decode_utf8(b.subrange(last, t.0 as int))) by {
            if t.0 > last {
                lemma_joined_one(SegmentView::RawText(decode_utf8(b.subrange(last, t.0 as int))));
            } else {
                assert(b.subrange(last, t.0 as int) =~= Seq::<u8>::empty());
            }
        }
        lemma_decode_join(b, last, t.0 as int, b.len() as int);
        lemma_decode_join(b, t.0 as int, t.1 as int, b.len() as int);
    }
}

/// Joined again, the pieces of a text give back the text, wherever no two
/// tokens overlap.
pub proof fn law_pieces_rejoin(b: Seq<u8>, toks: Seq<(usize, usize, bool)>)
    requires
        valid_utf8(b),
        tokens_apart(b, toks),
    ensures
        joined(all_pieces(b, toks)) == decode_utf8(b),
{
    is_char_boundary_start_end_of_seq(b);
    lemma_pieces_join(b, toks, 0, 0);
    assert(b.subrange(0, b.len() as int) =~= b);
    let one = seq![SegmentView::RawText(decode_utf8(b))];
    lemma_joined_one(SegmentView::RawText(decode_utf8(b)));
}

/// Joined again, the pieces that [`split_special_tokens`] makes of a text
/// give back the text, wherever no tag match overlaps a date match.
pub proof fn law_split_rejoins(s: Seq<char>)
    requires
        tokens_apart(
            encode_utf8(s),
            merged(regex_spans("(#([\\w-]+))"@, s), regex_spans("(\\d{4}-\\d{2}-\\d{2})"@, s), 0, 0),
        ),
    ensures
        joined(special_pieces(s)) == s,
{
    encode_utf8_valid_utf8(s);
    encode_utf8_decode_utf8(s);
    law_pieces_rejoin(
        encode_utf8(s),
        merged(regex_spans("(#([\\w-]+))"@, s), regex_spans("(\\d{4}-\\d{2}-\\d{2})"@, s), 0, 0),
    );
}

} // verus!
