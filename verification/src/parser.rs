//! The note grammar. A note is Markdown text in which `[[target]]` or
//! `[[target|label]]` is a wiki-link, `@name` (at the start of a line or
//! after white space) is a tag, and `!DD.MM.YYYY` (likewise placed) is a
//! date. Tags and dates inside Markdown constructs (fenced code blocks, HTML
//! comments, inline code, Markdown links and images, wiki-links) are masked.
//! Positions and lengths are byte offsets into the UTF-8 text.
use vstd::prelude::*;
use vstd::utf8::*;
use vstd::string::StringSliceAdditionalSpecFns;
use crate::date::{Date, calendar_date, valid_ymd};
use crate::model::ByteSpan;
use crate::text::{
    ws_len_at, ws_len_before, ws_len_at_exec, ws_len_before_exec, substring, decimal,
    push_str, push_decimal, lemma_ascii_boundary, lemma_char_step, lemma_lead_boundary,
};

verus! {

/// A wiki-link found in a note.
#[derive(Clone, Debug, PartialEq)]
pub struct LinkSpan {
    pub file_name: String,
    pub label: String,
    pub span: ByteSpan,
}

/// A tag found in a note.
#[derive(Clone, Debug, PartialEq)]
pub struct TagSpan {
    pub name: String,
    pub span: ByteSpan,
}

/// A date found in a note.
#[derive(Clone, Debug, PartialEq)]
pub struct DateSpan {
    pub date: Date,
    pub raw: String,
    pub span: ByteSpan,
}

/// What is wrong with a reference.
#[derive(Clone, Copy, Debug, PartialEq, Eq, Structural)]
pub enum ParseErrorKind {
    InvalidDate,
    EmptyLink,
}

/// A reference that could not be used.
#[derive(Clone, Debug, PartialEq)]
pub struct ParseError {
    pub span: ByteSpan,
    pub message: String,
    pub kind: ParseErrorKind,
}

/// Everything found in a note.
#[derive(Clone, Debug, PartialEq)]
pub struct ParseResult {
    pub links: Vec<LinkSpan>,
    pub tags: Vec<TagSpan>,
    pub dates: Vec<DateSpan>,
    pub errors: Vec<ParseError>,
}

impl View for LinkSpan {
    type V = (Seq<char>, Seq<char>, ByteSpan);

    open spec fn view(&self) -> Self::V {
        (self.file_name@, self.label@, self.span)
    }
}

impl View for TagSpan {
    type V = (Seq<char>, ByteSpan);

    open spec fn view(&self) -> Self::V {
        (self.name@, self.span)
    }
}

impl View for DateSpan {
    type V = (Date, Seq<char>, ByteSpan);

    open spec fn view(&self) -> Self::V {
        (self.date, self.raw@, self.span)
    }
}

impl View for ParseError {
    type V = (ByteSpan, Seq<char>, ParseErrorKind);

    open spec fn view(&self) -> Self::V {
        (self.span, self.message@, self.kind)
    }
}

pub open spec fn link_views(v: Seq<LinkSpan>) -> Seq<(Seq<char>, Seq<char>, ByteSpan)> {
    v.map_values(|l: LinkSpan| l@)
}

pub open spec fn tag_views(v: Seq<TagSpan>) -> Seq<(Seq<char>, ByteSpan)> {
    v.map_values(|t: TagSpan| t@)
}

pub open spec fn date_views(v: Seq<DateSpan>) -> Seq<(Date, Seq<char>, ByteSpan)> {
    v.map_values(|d: DateSpan| d@)
}

pub open spec fn error_views(v: Seq<ParseError>) -> Seq<(ByteSpan, Seq<char>, ParseErrorKind)> {
    v.map_values(|e: ParseError| e@)
}

/// Does `b` hold byte `c` at position `p`?
pub open spec fn byte_is(b: Seq<u8>, p: int, c: u8) -> bool {
    0 <= p < b.len() && b[p] == c
}

// ---------------------------------------------------------------------
// Wiki-links: `[[`, the shortest target (no line break), then either `|`,
// the shortest label (no line break) and `]]`, or directly `]]`.

/// First position `k >= p` where `]]` starts, provided no line break comes
/// before it; -1 when a line break or the end of the text comes first.
pub open spec fn find_close(b: Seq<u8>, p: int) -> int
    decreases b.len() - p,
{
    if p < 0 || p >= b.len() {
        -1
    } else if p + 1 < b.len() && b[p] == 0x5Du8 && b[p + 1] == 0x5Du8 {
        p
    } else if b[p] == 0x0Au8 {
        -1
    } else {
        find_close(b, p + 1)
    }
}

/// The link body that starts at `j` (right after `[[`): the end of the
/// target, the start of the label (-1 for none) and the position of `]]`.
pub open spec fn link_scan(b: Seq<u8>, j: int) -> Option<(int, int, int)>
    decreases b.len() - j,
{
    if j < 0 || j >= b.len() {
        None
    } else if b[j] == 0x7Cu8 && find_close(b, j + 1) >= 0 {
        Some((j, j + 1, find_close(b, j + 1)))
    } else if j + 1 < b.len() && b[j] == 0x5Du8 && b[j + 1] == 0x5Du8 {
        Some((j, -1, j))
    } else if b[j] == 0x0Au8 {
        None
    } else {
        link_scan(b, j + 1)
    }
}

/// The wiki-link that starts at `s`, if any.
pub open spec fn wiki_at(b: Seq<u8>, s: int) -> Option<(int, int, int)> {
    if byte_is(b, s, 0x5Bu8) && byte_is(b, s + 1, 0x5Bu8) {
        link_scan(b, s + 2)
    } else {
        None
    }
}

pub proof fn lemma_find_close(b: Seq<u8>, p: int)
    ensures
        find_close(b, p) >= 0 ==> p <= find_close(b, p) && find_close(b, p) + 1 < b.len()
            && b[find_close(b, p)] == 0x5Du8 && b[find_close(b, p) + 1] == 0x5Du8,
    decreases b.len() - p,
{
    if 0 <= p < b.len() && !(p + 1 < b.len() && b[p] == 0x5Du8 && b[p + 1] == 0x5Du8) && b[p] != 0x0Au8 {
        lemma_find_close(b, p + 1);
    }
}

pub proof fn lemma_link_scan(b: Seq<u8>, j: int)
    ensures
        link_scan(b, j) matches Some((ie, l, k)) ==> {
            &&& j <= ie <= k
            &&& k + 1 < b.len()
            &&& b[k] == 0x5Du8 && b[k + 1] == 0x5Du8
            &&& (l == -1 ==> ie == k)
            &&& (l != -1 ==> l == ie + 1 && l <= k && b[ie] == 0x7Cu8)
        },
    decreases b.len() - j,
{
    if 0 <= j < b.len() {
        lemma_find_close(b, j + 1);
        if !(b[j] == 0x7Cu8 && find_close(b, j + 1) >= 0) && !(j + 1 < b.len() && b[j] == 0x5Du8
            && b[j + 1] == 0x5Du8) && b[j] != 0x0Au8 {
            lemma_link_scan(b, j + 1);
        }
    }
}

/// The view of the link whose `[[` is at `s`, target ends at `ie`, label
/// starts at `l` (-1: none) and `]]` is at `k`.
pub open spec fn link_view(b: Seq<u8>, s: int, ie: int, l: int, k: int) -> (Seq<char>, Seq<char>, ByteSpan) {
    let target = decode_utf8(b.subrange(s + 2, ie));
    (
        target,
        if l >= 0 { decode_utf8(b.subrange(l, k)) } else { target },
        ByteSpan { offset: s as usize, length: (k + 2 - s) as usize },
    )
}

/// The error reported for an empty link at `s` whose `]]` is at `k`.
pub open spec fn empty_link_error(s: int, k: int) -> (ByteSpan, Seq<char>, ParseErrorKind) {
    (ByteSpan { offset: s as usize, length: (k + 2 - s) as usize }, "Empty link"@, ParseErrorKind::EmptyLink)
}

/// The links with a non-empty target, scanning left to right from `p`;
/// each link ends where the next search begins.
pub open spec fn links_from(b: Seq<u8>, p: int) -> Seq<(Seq<char>, Seq<char>, ByteSpan)>
    decreases b.len() - p,
{
    if p < 0 || p >= b.len() {
        seq![]
    } else {
        match wiki_at(b, p) {
            Some((ie, l, k)) => {
                proof {
                    lemma_link_scan(b, p + 2);
                }
                if ie == p + 2 {
                    links_from(b, k + 2)
                } else {
                    seq![link_view(b, p, ie, l, k)] + links_from(b, k + 2)
                }
            },
            None => links_from(b, p + 1),
        }
    }
}

/// The errors for links with an empty target, scanning as [`links_from`].
pub open spec fn link_errors_from(b: Seq<u8>, p: int) -> Seq<(ByteSpan, Seq<char>, ParseErrorKind)>
    decreases b.len() - p,
{
    if p < 0 || p >= b.len() {
        seq![]
    } else {
        match wiki_at(b, p) {
            Some((ie, l, k)) => {
                proof {
                    lemma_link_scan(b, p + 2);
                }
                if ie == p + 2 {
                    seq![empty_link_error(p, k)] + link_errors_from(b, k + 2)
                } else {
                    link_errors_from(b, k + 2)
                }
            },
            None => link_errors_from(b, p + 1),
        }
    }
}

fn find_close_exec(b: &[u8], p: usize) -> (r: Option<usize>)
    requires
        p <= b@.len(),
    ensures
        r matches Some(k) ==> k as int == find_close(b@, p as int),
        r is None ==> find_close(b@, p as int) == -1,
{
    let n = b.len();
    let mut q = p;
    while q < n
        invariant
            p <= q <= n == b@.len(),
            find_close(b@, q as int) == find_close(b@, p as int),
        decreases n - q,
    {
        if q + 1 < n && b[q] == 0x5D && b[q + 1] == 0x5D {
            return Some(q);
        }
        if b[q] == 0x0A {
            return None;
        }
        q = q + 1;
    }
    None
}

fn link_scan_exec(b: &[u8], j: usize) -> (r: Option<(usize, usize, usize)>)
    requires
        j <= b@.len(),
    ensures
        r matches Some((ie, l, k)) ==> link_scan(b@, j as int) == Some(
            (ie as int, if l == usize::MAX { -1 } else { l as int }, k as int),
        ),
        r is None ==> link_scan(b@, j as int) is None,
{
    let n = b.len();
    let mut q = j;
    while q < n
        invariant
            j <= q <= n == b@.len(),
            link_scan(b@, q as int) == link_scan(b@, j as int),
        decreases n - q,
    {
        if b[q] == 0x7C && q + 1 <= n {
            match find_close_exec(b, q + 1) {
                Some(k) => {
                    proof {
                        lemma_find_close(b@, q + 1);
                    }
                    return Some((q, q + 1, k));
                },
                None => {},
            }
        }
        if q + 1 < n && b[q] == 0x5D && b[q + 1] == 0x5D {
            return Some((q, usize::MAX, q));
        }
        if b[q] == 0x0A {
            return None;
        }
        q = q + 1;
    }
    None
}

/// Finds the wiki-links of `b`: the links with a non-empty target, and an
/// `EmptyLink` error for each link whose target is empty.
pub fn parse_links(b: &[u8]) -> (r: (Vec<LinkSpan>, Vec<ParseError>))
    requires
        valid_utf8(b@),
        b@.len() < usize::MAX,
    ensures
        link_views(r.0@) == links_from(b@, 0),
        error_views(r.1@) == link_errors_from(b@, 0),
        forall|k: int| 0 <= k < r.0@.len() ==> #[trigger] r.0@[k].span.offset + r.0@[k].span.length <= b@.len(),
{
    let n = b.len();
    let mut links: Vec<LinkSpan> = Vec::new();
    let mut errors: Vec<ParseError> = Vec::new();
    let mut p: usize = 0;
    while p < n
        invariant
            p <= n == b@.len(),
            n < usize::MAX,
            valid_utf8(b@),
            link_views(links@) + links_from(b@, p as int) == links_from(b@, 0),
            error_views(errors@) + link_errors_from(b@, p as int) == link_errors_from(b@, 0),
            forall|k: int| 0 <= k < links@.len() ==> #[trigger] links@[k].span.offset + links@[k].span.length <= n,
        decreases n - p,
    {
        let ghost bs = b@;
        if p + 1 < n && b[p] == 0x5B && b[p + 1] == 0x5B {
            match link_scan_exec(b, p + 2) {
                Some((ie, l, k)) => {
                    proof {
                        lemma_link_scan(bs, p + 2);
                    }
                    let span = ByteSpan { offset: p, length: k + 2 - p };
                    if ie == p + 2 {
                        let e = ParseError {
                            span,
                            message: "Empty link".to_owned(),
                            kind: ParseErrorKind::EmptyLink,
                        };
                        let ghost old_errors = errors@;
                        errors.push(e);
                        proof {
                            assert(error_views(errors@) =~= error_views(old_errors).push(empty_link_error(p as int, k as int)));
                            assert(link_errors_from(bs, p as int) =~= seq![empty_link_error(p as int, k as int)] + link_errors_from(bs, k + 2));
                        }
                    } else {
                        proof {
                            lemma_ascii_boundary(bs, p + 1);
                            lemma_ascii_boundary(bs, ie as int);
                        }
                        let file_name = substring(b, p + 2, ie);
                        let label = if l != usize::MAX {
                            proof {
                                lemma_ascii_boundary(bs, ie as int);
                                lemma_ascii_boundary(bs, k as int);
                            }
                            substring(b, l, k)
                        } else {
                            substring(b, p + 2, ie)
                        };
                        let link = LinkSpan { file_name, label, span };
                        let ghost old_links = links@;
                        links.push(link);
                        proof {
                            assert(link@ == link_view(bs, p as int, ie as int, if l == usize::MAX { -1 } else { l as int }, k as int));
                            assert(link_views(links@) =~= link_views(old_links).push(link@));
                        }
                    }
                    p = k + 2;
                },
                None => {
                    p = p + 1;
                },
            }
        } else {
            p = p + 1;
        }
    }
    (links, errors)
}


// ---------------------------------------------------------------------
// Lines, as `str::lines` yields them: split at `\n`, a `\r` right before
// the `\n` is dropped, and no empty line follows a final `\n`.

/// Position of the first `\n` at or after `p`, or the length of the text.
pub open spec fn line_end(b: Seq<u8>, p: int) -> int
    decreases b.len() - p,
{
    if p < 0 || p >= b.len() {
        b.len() as int
    } else if b[p] == 0x0Au8 {
        p
    } else {
        line_end(b, p + 1)
    }
}

pub proof fn lemma_line_end(b: Seq<u8>, p: int)
    requires
        0 <= p <= b.len(),
    ensures
        p <= line_end(b, p) <= b.len(),
        line_end(b, p) < b.len() ==> b[line_end(b, p)] == 0x0Au8,
    decreases b.len() - p,
{
    if p < b.len() && b[p] != 0x0Au8 {
        lemma_line_end(b, p + 1);
    }
}

/// End of a line's content: a `\r` right before the line's `\n` is dropped.
pub open spec fn content_end(b: Seq<u8>, p: int, e: int) -> int {
    if e < b.len() && e > p && b[e - 1] == 0x0Du8 {
        e - 1
    } else {
        e
    }
}

/// The lines of the text from position `p` on: (start, end of content).
pub open spec fn lines_from(b: Seq<u8>, p: int) -> Seq<(int, int)>
    decreases b.len() - p,
{
    if p < 0 || p >= b.len() {
        seq![]
    } else {
        let e = line_end(b, p);
        proof {
            lemma_line_end(b, p);
        }
        seq![(p, content_end(b, p, e))] + if e < b.len() {
            lines_from(b, e + 1)
        } else {
            seq![]
        }
    }
}

/// The offset at which line `i` is counted to start: the sum of
/// the content lengths of the lines before it, plus one per line.
pub open spec fn vstart(ls: Seq<(int, int)>, i: int) -> int
    decreases i,
{
    if i <= 0 || ls.len() == 0 {
        0
    } else if i > ls.len() {
        vstart(ls, ls.len() as int)
    } else {
        vstart(ls, i - 1) + (ls[i - 1].1 - ls[i - 1].0 + 1)
    }
}

pub proof fn lemma_vstart_cons(x: (int, int), rest: Seq<(int, int)>, i: int)
    requires
        0 <= i <= rest.len(),
    ensures
        vstart(seq![x] + rest, i + 1) == (x.1 - x.0 + 1) + vstart(rest, i),
    decreases i,
{
    let ls = seq![x] + rest;
    if i == 0 {
        assert(vstart(ls, 0) == 0);
    } else {
        lemma_vstart_cons(x, rest, i - 1);
        assert(ls[i] == rest[i - 1]);
    }
}

pub proof fn lemma_lines_shape(b: Seq<u8>, p: int)
    requires
        0 <= p <= b.len(),
    ensures
        forall|k: int| 0 <= k < lines_from(b, p).len() ==> p <= #[trigger] lines_from(b, p)[k].0
            <= lines_from(b, p)[k].1 <= b.len(),
        forall|k: int| 0 <= k <= lines_from(b, p).len() ==> 0 <= #[trigger] vstart(lines_from(b, p), k)
            <= b.len() - p + 1,
        forall|k: int| 0 <= k < lines_from(b, p).len() ==> vstart(lines_from(b, p), k) + (lines_from(b, p)[k].1 - lines_from(b, p)[k].0 + 1) <= b.len() - p + 1,
    decreases b.len() - p,
{
    if p < b.len() {
        let e = line_end(b, p);
        lemma_line_end(b, p);
        let x = (p, content_end(b, p, e));
        let rest = if e < b.len() { lines_from(b, e + 1) } else { seq![] };
        let ls = lines_from(b, p);
        assert(ls == seq![x] + rest);
        if e < b.len() {
            lemma_lines_shape(b, e + 1);
        }
        assert forall|k: int| 0 <= k <= ls.len() implies 0 <= #[trigger] vstart(ls, k) <= b.len() - p + 1 by {
            if k > 0 {
                lemma_vstart_cons(x, rest, k - 1);
                if e < b.len() {
                    assert(0 <= vstart(rest, k - 1) <= b.len() - (e + 1) + 1);
                } else {
                    assert(vstart(rest, 0) == 0);
                }
            }
        }
        assert forall|k: int| 0 <= k < ls.len() implies vstart(ls, k) + (ls[k].1 - ls[k].0 + 1) <= b.len() - p + 1 by {
            lemma_vstart_cons(x, rest, k);
            if e < b.len() {
                assert(vstart(rest, k) <= b.len() - (e + 1) + 1);
            } else {
                assert(vstart(rest, 0) == 0);
            }
        }
    }
}

// ---------------------------------------------------------------------
// Trimming and fences.

/// First position at or after `p` (before `e`) where no white space starts.
pub open spec fn skip_ws(b: Seq<u8>, p: int, e: int) -> int
    decreases e - p,
{
    if p < e && ws_len_at(b, p) > 0 && p + ws_len_at(b, p) <= e {
        skip_ws(b, p + ws_len_at(b, p), e)
    } else {
        p
    }
}

/// Last position (not before `s`) from which only white space runs up to `e`.
pub open spec fn trim_back(b: Seq<u8>, s: int, e: int) -> int
    decreases e - s,
{
    if e > s && ws_len_before(b, e) > 0 && e - ws_len_before(b, e) >= s {
        trim_back(b, s, e - ws_len_before(b, e))
    } else {
        e
    }
}

/// Number of consecutive bytes `c` from `p` on, before `e`.
pub open spec fn run_len(b: Seq<u8>, p: int, e: int, c: u8) -> int
    decreases e - p,
{
    if p < e && 0 <= p < b.len() && b[p] == c {
        1 + run_len(b, p + 1, e, c)
    } else {
        0
    }
}

/// A line with white space trimmed at both ends.
pub open spec fn trimmed(b: Seq<u8>, line: (int, int)) -> (int, int) {
    let ts = skip_ws(b, line.0, line.1);
    (ts, trim_back(b, ts, line.1))
}

/// Does the trimmed line start with three fence characters `c`?
pub open spec fn opens_fence(b: Seq<u8>, t: (int, int), c: u8) -> bool {
    t.1 - t.0 >= 3 && byte_is(b, t.0, c) && byte_is(b, t.0 + 1, c) && byte_is(b, t.0 + 2, c)
}

/// Is the trimmed line nothing but at least `min` fence characters `c`?
pub open spec fn fence_line(b: Seq<u8>, line: (int, int), c: u8, min: int) -> bool {
    let t = trimmed(b, line);
    run_len(b, t.0, t.1, c) >= min && t.0 + run_len(b, t.0, t.1, c) == t.1
}

/// Index of the first line from `j` on that closes a fence, or the number of lines.
pub open spec fn closing_from(b: Seq<u8>, ls: Seq<(int, int)>, j: int, c: u8, min: int) -> int
    decreases ls.len() - j,
{
    if j < 0 || j >= ls.len() {
        ls.len() as int
    } else if fence_line(b, ls[j], c, min) {
        j
    } else {
        closing_from(b, ls, j + 1, c, min)
    }
}

pub proof fn lemma_closing_from(b: Seq<u8>, ls: Seq<(int, int)>, j: int, c: u8, min: int)
    requires
        0 <= j <= ls.len(),
    ensures
        j <= closing_from(b, ls, j, c, min) <= ls.len(),
    decreases ls.len() - j,
{
    if j < ls.len() && !fence_line(b, ls[j], c, min) {
        lemma_closing_from(b, ls, j + 1, c, min);
    }
}

/// The fence character a trimmed line opens with, if any (backticks first).
pub open spec fn fence_char(b: Seq<u8>, t: (int, int)) -> u8 {
    if opens_fence(b, t, 0x60u8) { 0x60u8 } else { 0x7Eu8 }
}

/// The masked ranges of fenced code blocks from line `i` on. A block runs
/// from its opening line to its closing line (or to the end of the text).
pub open spec fn fence_ranges_from(b: Seq<u8>, ls: Seq<(int, int)>, i: int) -> Seq<(int, int)>
    decreases ls.len() - i,
{
    if i < 0 || i >= ls.len() {
        seq![]
    } else {
        let t = trimmed(b, ls[i]);
        if opens_fence(b, t, 0x60u8) || opens_fence(b, t, 0x7Eu8) {
            let c = fence_char(b, t);
            let flen = run_len(b, t.0, t.1, c);
            let ei = closing_from(b, ls, i + 1, c, flen);
            proof {
                lemma_closing_from(b, ls, i + 1, c, flen);
            }
            let el = if ei < ls.len() { ei + 1 } else { ls.len() as int };
            let st = vstart(ls, i);
            let blen = if vstart(ls, el) - st - 1 >= 1 { vstart(ls, el) - st - 1 } else { 1 };
            seq![(st, st + blen)] + fence_ranges_from(b, ls, el)
        } else {
            fence_ranges_from(b, ls, i + 1)
        }
    }
}

// ---------------------------------------------------------------------
// HTML comments, inline code, Markdown links and images.

/// First position `k >= p` where `-->` starts, if no line break comes first; else -1.
pub open spec fn comment_close(b: Seq<u8>, p: int) -> int
    decreases b.len() - p,
{
    if p < 0 || p >= b.len() {
        -1
    } else if p + 2 < b.len() && b[p] == 0x2Du8 && b[p + 1] == 0x2Du8 && b[p + 2] == 0x3Eu8 {
        p
    } else if b[p] == 0x0Au8 {
        -1
    } else {
        comment_close(b, p + 1)
    }
}

/// Where the `-->` of a comment opening at `p` starts, or -1.
pub open spec fn comment_at(b: Seq<u8>, p: int) -> int {
    if byte_is(b, p, 0x3Cu8) && byte_is(b, p + 1, 0x21u8) && byte_is(b, p + 2, 0x2Du8) && byte_is(b, p + 3, 0x2Du8) {
        comment_close(b, p + 4)
    } else {
        -1
    }
}

pub proof fn lemma_comment_close(b: Seq<u8>, p: int)
    ensures
        comment_close(b, p) >= 0 ==> p <= comment_close(b, p) && comment_close(b, p) + 3 <= b.len(),
    decreases b.len() - p,
{
    if 0 <= p < b.len() && !(p + 2 < b.len() && b[p] == 0x2Du8 && b[p + 1] == 0x2Du8 && b[p + 2] == 0x3Eu8) && b[p] != 0x0Au8 {
        lemma_comment_close(b, p + 1);
    }
}

/// The masked ranges of `<!-- ... -->` comments (on one line) from `p` on.
pub open spec fn comment_ranges_from(b: Seq<u8>, p: int) -> Seq<(int, int)>
    decreases b.len() - p,
{
    if p < 0 || p >= b.len() {
        seq![]
    } else if comment_at(b, p) >= 0 {
        proof {
            lemma_comment_close(b, p + 4);
        }
        seq![(p, comment_at(b, p) + 3)] + comment_ranges_from(b, comment_at(b, p) + 3)
    } else {
        comment_ranges_from(b, p + 1)
    }
}

/// First position `k >= p` holding byte `c`, or -1.
pub open spec fn next_byte(b: Seq<u8>, p: int, c: u8) -> int
    decreases b.len() - p,
{
    if p < 0 || p >= b.len() {
        -1
    } else if b[p] == c {
        p
    } else {
        next_byte(b, p + 1, c)
    }
}

pub proof fn lemma_next_byte(b: Seq<u8>, p: int, c: u8)
    ensures
        next_byte(b, p, c) >= 0 ==> p <= next_byte(b, p, c) < b.len() && b[next_byte(b, p, c)] == c,
    decreases b.len() - p,
{
    if 0 <= p < b.len() && b[p] != c {
        lemma_next_byte(b, p + 1, c);
    }
}

/// The masked ranges of inline code `` `...` `` from `p` on.
pub open spec fn inline_ranges_from(b: Seq<u8>, p: int) -> Seq<(int, int)>
    decreases b.len() - p,
{
    if p < 0 || p >= b.len() {
        seq![]
    } else if b[p] == 0x60u8 && next_byte(b, p + 1, 0x60u8) >= 0 {
        proof {
            lemma_next_byte(b, p + 1, 0x60u8);
        }
        seq![(p, next_byte(b, p + 1, 0x60u8) + 1)] + inline_ranges_from(b, next_byte(b, p + 1, 0x60u8) + 1)
    } else {
        inline_ranges_from(b, p + 1)
    }
}

/// First position `k >= p` holding `[` or `]`, or -1.
pub open spec fn next_bracket(b: Seq<u8>, p: int) -> int
    decreases b.len() - p,
{
    if p < 0 || p >= b.len() {
        -1
    } else if b[p] == 0x5Bu8 || b[p] == 0x5Du8 {
        p
    } else {
        next_bracket(b, p + 1)
    }
}

pub proof fn lemma_next_bracket(b: Seq<u8>, p: int)
    ensures
        next_bracket(b, p) >= 0 ==> p <= next_bracket(b, p) < b.len(),
    decreases b.len() - p,
{
    if 0 <= p < b.len() && !(b[p] == 0x5Bu8 || b[p] == 0x5Du8) {
        lemma_next_bracket(b, p + 1);
    }
}

/// End of the Markdown link or image `[text](url)` / `![alt](url)` that
/// starts at `p`, or -1.
pub open spec fn md_end(b: Seq<u8>, p: int) -> int {
    let q = if byte_is(b, p, 0x21u8) && byte_is(b, p + 1, 0x5Bu8) {
        p + 1
    } else if byte_is(b, p, 0x5Bu8) {
        p
    } else {
        -1
    };
    if q < 0 {
        -1
    } else {
        let c = next_bracket(b, q + 1);
        if c < 0 || b[c] != 0x5Du8 || !byte_is(b, c + 1, 0x28u8) {
            -1
        } else {
            let r = next_byte(b, c + 2, 0x29u8);
            if r < 0 { -1 } else { r + 1 }
        }
    }
}

pub proof fn lemma_md_end(b: Seq<u8>, p: int)
    ensures
        md_end(b, p) >= 0 ==> p < md_end(b, p) <= b.len(),
{
    let q = if byte_is(b, p, 0x21u8) && byte_is(b, p + 1, 0x5Bu8) {
        p + 1
    } else if byte_is(b, p, 0x5Bu8) {
        p
    } else {
        -1
    };
    if q >= 0 {
        lemma_next_bracket(b, q + 1);
        let c = next_bracket(b, q + 1);
        lemma_next_byte(b, c + 2, 0x29u8);
    }
}

/// The masked ranges of Markdown links and images from `p` on.
pub open spec fn md_ranges_from(b: Seq<u8>, p: int) -> Seq<(int, int)>
    decreases b.len() - p,
{
    if p < 0 || p >= b.len() {
        seq![]
    } else if md_end(b, p) >= 0 {
        proof {
            lemma_md_end(b, p);
        }
        seq![(p, md_end(b, p))] + md_ranges_from(b, md_end(b, p))
    } else {
        md_ranges_from(b, p + 1)
    }
}

/// The ranges covered by the given wiki-links.
pub open spec fn wiki_ranges(ls: Seq<(Seq<char>, Seq<char>, ByteSpan)>) -> Seq<(int, int)> {
    ls.map_values(|l: (Seq<char>, Seq<char>, ByteSpan)| (l.2.offset as int, l.2.offset + l.2.length))
}

/// Every masked range of the text, in the order they are collected:
/// fenced code blocks, HTML comments, inline code, Markdown links and
/// images, then the wiki-links.
pub open spec fn all_masked_ranges(b: Seq<u8>) -> Seq<(int, int)> {
    fence_ranges_from(b, lines_from(b, 0), 0) + comment_ranges_from(b, 0) + inline_ranges_from(b, 0)
        + md_ranges_from(b, 0) + wiki_ranges(links_from(b, 0))
}

/// Does some range contain `o`?
pub open spec fn in_ranges(rs: Seq<(int, int)>, o: int) -> bool {
    exists|i: int| 0 <= i < rs.len() && #[trigger] rs[i].0 <= o && o < rs[i].1
}

/// Is byte position `o` inside a masked construct?
pub open spec fn masked(b: Seq<u8>, o: int) -> bool {
    in_ranges(all_masked_ranges(b), o)
}

pub open spec fn range_view(v: Seq<(usize, usize)>) -> Seq<(int, int)> {
    v.map_values(|r: (usize, usize)| (r.0 as int, r.1 as int))
}


pub(crate) fn note_lines(b: &[u8]) -> (r: Vec<(usize, usize)>)
    ensures
        range_view(r@) == lines_from(b@, 0),
{
    let n = b.len();
    let mut r: Vec<(usize, usize)> = Vec::new();
    let mut p: usize = 0;
    proof {
        assert(range_view(r@) =~= seq![]);
    }
    while p < n
        invariant
            p <= n == b@.len(),
            range_view(r@) + lines_from(b@, p as int) == lines_from(b@, 0),
        decreases n - p,
    {
        let mut e = p;
        while e < n && b[e] != 0x0A
            invariant
                p <= e <= n == b@.len(),
                line_end(b@, e as int) == line_end(b@, p as int),
            decreases n - e,
        {
            e = e + 1;
        }
        proof {
            lemma_line_end(b@, p as int);
        }
        let c = if e < n && e > p && b[e - 1] == 0x0D { e - 1 } else { e };
        let ghost old_r = r@;
        r.push((p, c));
        proof {
            assert(range_view(r@) =~= range_view(old_r).push((p as int, c as int)));
        }
        if e < n {
            p = e + 1;
        } else {
            proof {
                assert(lines_from(b@, p as int) =~= seq![(p as int, c as int)]);
                assert(lines_from(b@, n as int) =~= seq![]);
            }
            p = n;
        }
    }
    r
}

fn line_starts(lines: &Vec<(usize, usize)>, Ghost(bound): Ghost<int>) -> (r: Vec<usize>)
    requires
        forall|k: int| 0 <= k <= lines@.len() ==> 0 <= #[trigger] vstart(range_view(lines@), k) <= bound,
        forall|k: int| 0 <= k < lines@.len() ==> lines@[k].0 <= #[trigger] lines@[k].1,
        bound <= usize::MAX,
    ensures
        r@.len() == lines@.len() + 1,
        forall|k: int| 0 <= k <= lines@.len() ==> #[trigger] r@[k] == vstart(range_view(lines@), k),
{
    let ghost ls = range_view(lines@);
    let mut r: Vec<usize> = Vec::new();
    r.push(0);
    let mut i: usize = 0;
    while i < lines.len()
        invariant
            ls == range_view(lines@),
            i <= lines@.len(),
            r@.len() == i + 1,
            forall|k: int| 0 <= k <= i ==> #[trigger] r@[k] == vstart(ls, k),
            forall|k: int| 0 <= k <= lines@.len() ==> 0 <= #[trigger] vstart(ls, k) <= bound,
            forall|k: int| 0 <= k < lines@.len() ==> lines@[k].0 <= #[trigger] lines@[k].1,
            bound <= usize::MAX,
        decreases lines@.len() - i,
    {
        let (s, c) = lines[i];
        proof {
            assert(vstart(ls, i + 1) == vstart(ls, i as int) + (ls[i as int].1 - ls[i as int].0 + 1));
            assert(vstart(ls, i + 1) <= bound);
        }
        let v = r[i] + (c - s + 1);
        r.push(v);
        i = i + 1;
    }
    r
}

fn skip_ws_exec(b: &[u8], p: usize, e: usize) -> (r: usize)
    requires
        p <= e <= b@.len(),
    ensures
        r == skip_ws(b@, p as int, e as int),
        p <= r <= e,
{
    let mut q = p;
    loop
        invariant
            p <= q <= e <= b@.len(),
            skip_ws(b@, q as int, e as int) == skip_ws(b@, p as int, e as int),
        decreases e - q,
    {
        let w = ws_len_at_exec(b, q);
        if q < e && w > 0 && w <= e - q {
            q = q + w;
        } else {
            return q;
        }
    }
}

fn trim_back_exec(b: &[u8], s: usize, e: usize) -> (r: usize)
    requires
        s <= e <= b@.len(),
    ensures
        r == trim_back(b@, s as int, e as int),
        s <= r <= e,
{
    let mut q = e;
    loop
        invariant
            s <= q <= e <= b@.len(),
            trim_back(b@, s as int, q as int) == trim_back(b@, s as int, e as int),
        decreases q - s,
    {
        let w = ws_len_before_exec(b, q);
        if q > s && w > 0 && q - w >= s {
            q = q - w;
        } else {
            return q;
        }
    }
}

fn run_len_exec(b: &[u8], p: usize, e: usize, c: u8) -> (r: usize)
    requires
        p <= e <= b@.len(),
    ensures
        r == run_len(b@, p as int, e as int, c),
        p + r <= e,
{
    let mut q = p;
    while q < e && b[q] == c
        invariant
            p <= q <= e <= b@.len(),
            run_len(b@, p as int, e as int, c) == (q - p) + run_len(b@, q as int, e as int, c),
        decreases e - q,
    {
        q = q + 1;
    }
    q - p
}

pub(crate) fn trimmed_exec(b: &[u8], line: (usize, usize)) -> (r: (usize, usize))
    requires
        line.0 <= line.1 <= b@.len(),
    ensures
        (r.0 as int, r.1 as int) == trimmed(b@, (line.0 as int, line.1 as int)),
        line.0 <= r.0 <= r.1 <= line.1,
{
    let ts = skip_ws_exec(b, line.0, line.1);
    let te = trim_back_exec(b, ts, line.1);
    (ts, te)
}

/// Is the line (start, end of content) nothing but white space around at
/// least `min_count` fence characters `fc`?
pub fn is_fence_line(b: &[u8], line: (usize, usize), fc: u8, min_count: usize) -> (r: bool)
    requires
        line.0 <= line.1 <= b@.len(),
    ensures
        r == fence_line(b@, (line.0 as int, line.1 as int), fc, min_count as int),
{
    let (ts, te) = trimmed_exec(b, line);
    let count = run_len_exec(b, ts, te, fc);
    count >= min_count && ts + count == te
}

/// Index of the first line after `start` that closes a fence of at least
/// `fence_len` characters `fc`, or the number of lines.
pub fn find_closing_fence(b: &[u8], lines: &Vec<(usize, usize)>, start: usize, fc: u8, fence_len: usize) -> (r: usize)
    requires
        start < lines@.len(),
        forall|k: int| 0 <= k < lines@.len() ==> lines@[k].0 <= #[trigger] lines@[k].1 <= b@.len(),
    ensures
        r == closing_from(b@, range_view(lines@), start + 1, fc, fence_len as int),
        start + 1 <= r <= lines@.len(),
{
    let ghost ls = range_view(lines@);
    let n_l = lines.len();
    let mut j = start + 1;
    while j < lines.len()
        invariant
            start + 1 <= j <= lines@.len(),
            ls == range_view(lines@),
            forall|k: int| 0 <= k < lines@.len() ==> lines@[k].0 <= #[trigger] lines@[k].1 <= b@.len(),
            closing_from(b@, ls, j as int, fc, fence_len as int) == closing_from(b@, ls, start + 1, fc, fence_len as int),
        decreases lines@.len() - j,
    {
        if is_fence_line(b, lines[j], fc, fence_len) {
            return j;
        }
        j = j + 1;
    }
    j
}

#[verifier::spinoff_prover]
fn fence_ranges(b: &[u8]) -> (r: Vec<(usize, usize)>)
    requires
        b@.len() < usize::MAX,
    ensures
        range_view(r@) == fence_ranges_from(b@, lines_from(b@, 0), 0),
        forall|k: int| 0 <= k < r@.len() ==> #[trigger] r@[k].0 <= r@[k].1 <= b@.len(),
{
    let lines = note_lines(b);
    let ghost ls = range_view(lines@);
    proof {
        lemma_lines_shape(b@, 0);
        assert forall|k: int| 0 <= k < lines@.len() implies lines@[k].0 <= #[trigger] lines@[k].1 <= b@.len() by {
            assert(ls[k] == lines_from(b@, 0)[k]);
        }
    }
    let vs = line_starts(&lines, Ghost(b@.len() as int + 1));
    let n_lines = lines.len();
    let mut r: Vec<(usize, usize)> = Vec::new();
    let mut i: usize = 0;
    proof {
        assert(range_view(r@) =~= seq![]);
    }
    while i < n_lines
        invariant
            ls == range_view(lines@),
            ls == lines_from(b@, 0),
            n_lines == lines@.len(),
            i <= n_lines,
            b@.len() < usize::MAX,
            vs@.len() == n_lines + 1,
            forall|k: int| 0 <= k <= n_lines ==> #[trigger] vs@[k] == vstart(ls, k),
            forall|k: int| 0 <= k < lines@.len() ==> lines@[k].0 <= #[trigger] lines@[k].1 <= b@.len(),
            forall|k: int| 0 <= k < n_lines ==> vstart(ls, k) + (ls[k].1 - ls[k].0 + 1) <= b@.len() + 1,
            forall|k: int| 0 <= k <= n_lines ==> 0 <= #[trigger] vstart(ls, k) <= b@.len() + 1,
            range_view(r@) + fence_ranges_from(b@, ls, i as int) == fence_ranges_from(b@, ls, 0),
            forall|k: int| 0 <= k < r@.len() ==> #[trigger] r@[k].0 <= r@[k].1 <= b@.len(),
        decreases n_lines - i,
    {
        let (ts, te) = trimmed_exec(b, lines[i]);
        let back = te - ts >= 3 && b[ts] == 0x60 && b[ts + 1] == 0x60 && b[ts + 2] == 0x60;
        let tilde = te - ts >= 3 && b[ts] == 0x7E && b[ts + 1] == 0x7E && b[ts + 2] == 0x7E;
        if back || tilde {
            let fc: u8 = if back { 0x60 } else { 0x7E };
            let flen = run_len_exec(b, ts, te, fc);
            let ei = find_closing_fence(b, &lines, i, fc, flen);
            let el = if ei < n_lines { ei + 1 } else { n_lines };
            let st = vs[i];
            let be = vs[el];
            proof {
                assert(vstart(ls, i as int) + (ls[i as int].1 - ls[i as int].0 + 1) <= b@.len() + 1);
                assert(vstart(ls, el as int) >= vstart(ls, i + 1)) by {
                    lemma_vstart_mono(ls, i + 1, el as int);
                }
                assert(vstart(ls, i + 1) == vstart(ls, i as int) + (ls[i as int].1 - ls[i as int].0 + 1));
            }
            let blen = if be - st - 1 >= 1 { be - st - 1 } else { 1 };
            proof {
                assert(lines@[i as int].0 <= ts && te <= lines@[i as int].1);
                assert(ls[i as int] == (lines@[i as int].0 as int, lines@[i as int].1 as int));
                assert(vstart(ls, el as int) <= b@.len() + 1);
                assert(st + blen <= b@.len());
            }
            let ghost old_r = r@;
            r.push((st, st + blen));
            proof {
                assert forall|j: int| 0 <= j < r@.len() implies #[trigger] r@[j].0 <= r@[j].1 <= b@.len() by {
                    if j < old_r.len() {
                        assert(r@[j] == old_r[j]);
                    }
                }
                assert(range_view(r@) =~= range_view(old_r).push((st as int, (st + blen) as int)));
                assert(fence_ranges_from(b@, ls, i as int) =~= seq![(st as int, (st + blen) as int)] + fence_ranges_from(b@, ls, el as int));
            }
            i = el;
        } else {
            i = i + 1;
        }
    }
    r
}

pub proof fn lemma_vstart_mono(ls: Seq<(int, int)>, i: int, j: int)
    requires
        0 <= i <= j <= ls.len(),
        forall|k: int| 0 <= k < ls.len() ==> #[trigger] ls[k].0 <= ls[k].1,
    ensures
        vstart(ls, i) <= vstart(ls, j),
    decreases j - i,
{
    if i < j {
        lemma_vstart_mono(ls, i, j - 1);
        assert(vstart(ls, j) == vstart(ls, j - 1) + (ls[j - 1].1 - ls[j - 1].0 + 1));
    }
}


fn next_byte_exec(b: &[u8], p: usize, c: u8) -> (r: Option<usize>)
    requires
        p <= b@.len(),
    ensures
        r matches Some(k) ==> k == next_byte(b@, p as int, c) && p <= k < b@.len(),
        r is None ==> next_byte(b@, p as int, c) == -1,
{
    let n = b.len();
    let mut q = p;
    while q < n
        invariant
            p <= q <= n == b@.len(),
            next_byte(b@, q as int, c) == next_byte(b@, p as int, c),
        decreases n - q,
    {
        if b[q] == c {
            return Some(q);
        }
        q = q + 1;
    }
    None
}

fn comment_close_exec(b: &[u8], p: usize) -> (r: Option<usize>)
    requires
        p <= b@.len(),
    ensures
        r matches Some(k) ==> k == comment_close(b@, p as int),
        r is None ==> comment_close(b@, p as int) == -1,
{
    let n = b.len();
    let mut q = p;
    while q < n
        invariant
            p <= q <= n == b@.len(),
            comment_close(b@, q as int) == comment_close(b@, p as int),
        decreases n - q,
    {
        if n - q > 2 && b[q] == 0x2D && b[q + 1] == 0x2D && b[q + 2] == 0x3E {
            return Some(q);
        }
        if b[q] == 0x0A {
            return None;
        }
        q = q + 1;
    }
    None
}

#[verifier::spinoff_prover]
fn comment_ranges(b: &[u8]) -> (r: Vec<(usize, usize)>)
    ensures
        range_view(r@) == comment_ranges_from(b@, 0),
        forall|k: int| 0 <= k < r@.len() ==> #[trigger] r@[k].0 <= r@[k].1 <= b@.len(),
{
    let n = b.len();
    let mut r: Vec<(usize, usize)> = Vec::new();
    let mut p: usize = 0;
    proof {
        assert(range_view(r@) =~= seq![]);
    }
    while p < n
        invariant
            p <= n == b@.len(),
            range_view(r@) + comment_ranges_from(b@, p as int) == comment_ranges_from(b@, 0),
            forall|k: int| 0 <= k < r@.len() ==> #[trigger] r@[k].0 <= r@[k].1 <= b@.len(),
        decreases n - p,
    {
        let found = if n - p >= 4 && b[p] == 0x3C && b[p + 1] == 0x21 && b[p + 2] == 0x2D && b[p + 3] == 0x2D {
            comment_close_exec(b, p + 4)
        } else {
            None
        };
        proof {
            lemma_comment_close(b@, p + 4);
        }
        match found {
            Some(c) => {
                let ghost old_r = r@;
                r.push((p, c + 3));
                proof {
                    assert(c + 3 <= n);
                    assert forall|j: int| 0 <= j < r@.len() implies #[trigger] r@[j].0 <= r@[j].1 <= b@.len() by {
                        if j < old_r.len() {
                            assert(r@[j] == old_r[j]);
                        }
                    }
                    assert(range_view(r@) =~= range_view(old_r).push((p as int, c + 3)));
                    assert(comment_ranges_from(b@, p as int) =~= seq![(p as int, c + 3)] + comment_ranges_from(b@, c + 3));
                }
                p = c + 3;
            },
            None => {
                p = p + 1;
            },
        }
        assert(forall|j: int| 0 <= j < r@.len() ==> #[trigger] r@[j].0 <= r@[j].1 <= b@.len());
    }
    r
}

#[verifier::spinoff_prover]
fn inline_ranges(b: &[u8]) -> (r: Vec<(usize, usize)>)
    ensures
        range_view(r@) == inline_ranges_from(b@, 0),
        forall|k: int| 0 <= k < r@.len() ==> #[trigger] r@[k].0 <= r@[k].1 <= b@.len(),
{
    let n = b.len();
    let mut r: Vec<(usize, usize)> = Vec::new();
    let mut p: usize = 0;
    proof {
        assert(range_view(r@) =~= seq![]);
    }
    while p < n
        invariant
            p <= n == b@.len(),
            range_view(r@) + inline_ranges_from(b@, p as int) == inline_ranges_from(b@, 0),
            forall|k: int| 0 <= k < r@.len() ==> #[trigger] r@[k].0 <= r@[k].1 <= b@.len(),
        decreases n - p,
    {
        let close = if b[p] == 0x60 { next_byte_exec(b, p + 1, 0x60) } else { None };
        match close {
            Some(k) => {
                let ghost old_r = r@;
                r.push((p, k + 1));
                proof {
                    assert(k + 1 <= n);
                    assert forall|j: int| 0 <= j < r@.len() implies #[trigger] r@[j].0 <= r@[j].1 <= b@.len() by {
                        if j < old_r.len() {
                            assert(r@[j] == old_r[j]);
                        }
                    }
                    assert(range_view(r@) =~= range_view(old_r).push((p as int, k + 1)));
                    assert(inline_ranges_from(b@, p as int) =~= seq![(p as int, k + 1)] + inline_ranges_from(b@, k + 1));
                }
                p = k + 1;
            },
            None => {
                p = p + 1;
            },
        }
    }
    r
}

fn md_end_exec(b: &[u8], p: usize) -> (r: Option<usize>)
    requires
        p < b@.len(),
    ensures
        r matches Some(e) ==> e == md_end(b@, p as int) && p < e <= b@.len(),
        r is None ==> md_end(b@, p as int) == -1,
{
    let n = b.len();
    let q = if b[p] == 0x21 && p + 1 < n && b[p + 1] == 0x5B {
        p + 1
    } else if b[p] == 0x5B {
        p
    } else {
        return None;
    };
    let mut c = q + 1;
    while c < n && b[c] != 0x5B && b[c] != 0x5D
        invariant
            q + 1 <= c <= n == b@.len(),
            next_bracket(b@, c as int) == next_bracket(b@, q + 1),
        decreases n - c,
    {
        c = c + 1;
    }
    if c >= n || b[c] != 0x5D || c + 1 >= n || b[c + 1] != 0x28 {
        return None;
    }
    match next_byte_exec(b, c + 2, 0x29) {
        Some(r) => Some(r + 1),
        None => None,
    }
}

#[verifier::spinoff_prover]
fn md_ranges(b: &[u8]) -> (r: Vec<(usize, usize)>)
    ensures
        range_view(r@) == md_ranges_from(b@, 0),
        forall|k: int| 0 <= k < r@.len() ==> #[trigger] r@[k].0 <= r@[k].1 <= b@.len(),
{
    let n = b.len();
    let mut r: Vec<(usize, usize)> = Vec::new();
    let mut p: usize = 0;
    proof {
        assert(range_view(r@) =~= seq![]);
    }
    while p < n
        invariant
            p <= n == b@.len(),
            range_view(r@) + md_ranges_from(b@, p as int) == md_ranges_from(b@, 0),
            forall|k: int| 0 <= k < r@.len() ==> #[trigger] r@[k].0 <= r@[k].1 <= b@.len(),
        decreases n - p,
    {
        match md_end_exec(b, p) {
            Some(e) => {
                let ghost old_r = r@;
                r.push((p, e));
                proof {
                    assert(range_view(r@) =~= range_view(old_r).push((p as int, e as int)));
                    assert(md_ranges_from(b@, p as int) =~= seq![(p as int, e as int)] + md_ranges_from(b@, e as int));
                }
                p = e;
            },
            None => {
                p = p + 1;
            },
        }
    }
    r
}

/// Are the ranges nonempty, in order, and apart: each ends before the next
/// one starts (touching ranges are one range)?
pub open spec fn canonical_ranges(rs: Seq<(int, int)>) -> bool {
    &&& forall|i: int| 0 <= i < rs.len() ==> (#[trigger] rs[i]).0 < rs[i].1
    &&& forall|i: int, j: int| 0 <= i < j < rs.len() ==> (#[trigger] rs[i]).1 < (#[trigger] rs[j]).0
}

/// Does each range start at or after the one before it?
pub open spec fn by_start(rs: Seq<(usize, usize)>) -> bool {
    forall|i: int, j: int| 0 <= i < j < rs.len() ==> (#[trigger] rs[i]).0 <= (#[trigger] rs[j]).0
}

/// The ranges `v` ordered by their start.
fn sort_by_start(v: &Vec<(usize, usize)>) -> (r: Vec<(usize, usize)>)
    ensures
        by_start(r@),
        forall|x: (usize, usize)| r@.contains(x) <==> v@.contains(x),
{
    let mut out: Vec<(usize, usize)> = Vec::new();
    let mut k: usize = 0;
    while k < v.len()
        invariant
            k <= v@.len(),
            by_start(out@),
            forall|x: (usize, usize)| out@.contains(x) <==> v@.take(k as int).contains(x),
        decreases v@.len() - k,
    {
        let x = v[k];
        let mut p: usize = 0;
        while p < out.len() && out[p].0 <= x.0
            invariant
                p <= out@.len(),
                forall|j: int| 0 <= j < p ==> (#[trigger] out@[j]).0 <= x.0,
            decreases out@.len() - p,
        {
            p = p + 1;
        }
        let ghost old_out = out@;
        assert(forall|j: int| p <= j < old_out.len() ==> x.0 < (#[trigger] old_out[j]).0) by {
            assert forall|j: int| p <= j < old_out.len() implies x.0 < (#[trigger] old_out[j]).0 by {
                assert(old_out[p as int].0 > x.0);
                if j > p {
                    assert(old_out[p as int].0 <= old_out[j].0);
                }
            }
        }
        out.insert(p, x);
        proof {
            let n = out@;
            assert(n =~= old_out.insert(p as int, x));
            assert forall|i: int, j: int| 0 <= i < j < n.len() implies (#[trigger] n[i]).0 <= (#[trigger] n[j]).0 by {
                if j < p {
                    assert(n[i] == old_out[i] && n[j] == old_out[j]);
                } else if j == p {
                    assert(n[i] == old_out[i]);
                } else if i == p {
                    assert(n[j] == old_out[j - 1]);
                } else if i < p {
                    assert(n[i] == old_out[i] && n[j] == old_out[j - 1]);
                } else {
                    assert(n[i] == old_out[i - 1] && n[j] == old_out[j - 1]);
                }
            }
            let t0 = v@.take(k as int);
            let t1 = v@.take(k + 1);
            assert(t1 =~= t0.push(x));
            assert forall|y: (usize, usize)| n.contains(y) <==> t1.contains(y) by {
                if n.contains(y) {
                    let i = choose|i: int| 0 <= i < n.len() && #[trigger] n[i] == y;
                    if i < p {
                        assert(old_out[i] == y);
                        assert(old_out.contains(y));
                    } else if i > p {
                        assert(old_out[i - 1] == y);
                        assert(old_out.contains(y));
                    }
                    if y != x {
                        assert(t0.contains(y));
                        let q = choose|q: int| 0 <= q < t0.len() && #[trigger] t0[q] == y;
                        assert(t1[q] == y);
                    } else {
                        assert(t1[k as int] == y);
                    }
                }
                if t1.contains(y) {
                    let q = choose|q: int| 0 <= q < t1.len() && #[trigger] t1[q] == y;
                    if q < k {
                        assert(t0[q] == y);
                        assert(old_out.contains(y));
                        let i = choose|i: int| 0 <= i < old_out.len() && #[trigger] old_out[i] == y;
                        if i < p {
                            assert(n[i] == y);
                        } else {
                            assert(n[i + 1] == y);
                        }
                    } else {
                        assert(n[p as int] == y);
                    }
                }
            }
        }
        k = k + 1;
    }
    assert(v@.take(v@.len() as int) =~= v@);
    out
}

/// The ranges `v` as nonempty, ordered ranges apart from each other that
/// cover the same positions: sorted by start, with each range that touches
/// or overlaps the one before merged into it.
fn merge_ranges(v: &Vec<(usize, usize)>, n: usize) -> (r: Vec<(usize, usize)>)
    requires
        forall|i: int| 0 <= i < v@.len() ==> (#[trigger] v@[i]).1 <= n,
    ensures
        canonical_ranges(range_view(r@)),
        forall|i: int| 0 <= i < r@.len() ==> (#[trigger] r@[i]).1 <= n,
        forall|o: int| in_ranges(range_view(r@), o) <==> in_ranges(range_view(v@), o),
{
    let s = sort_by_start(v);
    let mut out: Vec<(usize, usize)> = Vec::new();
    let mut k: usize = 0;
    while k < s.len()
        invariant
            k <= s@.len(),
            by_start(s@),
            forall|x: (usize, usize)| s@.contains(x) <==> v@.contains(x),
            forall|i: int| 0 <= i < v@.len() ==> (#[trigger] v@[i]).1 <= n,
            canonical_ranges(range_view(out@)),
            forall|i: int| 0 <= i < out@.len() ==> (#[trigger] out@[i]).1 <= n,
            out@.len() > 0 ==> forall|j: int| k <= j < s@.len() ==> out@.last().0 <= (#[trigger] s@[j]).0,
            forall|o: int| in_ranges(range_view(out@), o) <==> in_ranges(range_view(s@.take(k as int)), o),
        decreases s@.len() - k,
    {
        let x = s[k];
        let ghost old_out = out@;
        let ghost ov = range_view(old_out);
        assert(s@.contains(x));
        assert(v@.contains(x));
        assert(x.1 <= n);
        assert(s@.take(k + 1) =~= s@.take(k as int).push(x));
        let ghost tk = range_view(s@.take(k as int));
        let ghost tk1 = range_view(s@.take(k + 1));
        assert(tk1 =~= tk.push((x.0 as int, x.1 as int)));
        assert forall|o: int| in_ranges(tk1, o) <==> in_ranges(tk, o) || (x.0 <= o && o < x.1) by {
            if in_ranges(tk1, o) {
                let i = choose|i: int| 0 <= i < tk1.len() && #[trigger] tk1[i].0 <= o && o < tk1[i].1;
                if i < tk.len() {
                    assert(tk[i] == tk1[i]);
                }
            }
            if in_ranges(tk, o) {
                let i = choose|i: int| 0 <= i < tk.len() && #[trigger] tk[i].0 <= o && o < tk[i].1;
                assert(tk1[i] == tk[i]);
            }
            if x.0 <= o && o < x.1 {
                assert(tk1[tk.len() as int].0 <= o);
            }
        }
        if x.0 < x.1 {
            if out.len() > 0 && x.0 <= out[out.len() - 1].1 {
                let last = out.len() - 1;
                let (a, e) = out[last];
                let ne = if x.1 > e { x.1 } else { e };
                out.set(last, (a, ne));
                proof {
                    let nv = range_view(out@);
                    assert(nv =~= ov.update(last as int, (a as int, ne as int)));
                    assert forall|i: int, j: int| 0 <= i < j < nv.len() implies (#[trigger] nv[i]).1 < (#[trigger] nv[j]).0 by {
                        assert(ov[i].1 < ov[j].0);
                        if j == last {
                            assert(nv[j].0 == ov[j].0);
                        }
                    }
                    assert forall|o: int| in_ranges(nv, o) <==> in_ranges(ov, o) || (x.0 <= o && o < x.1) by {
                        if in_ranges(nv, o) {
                            let i = choose|i: int| 0 <= i < nv.len() && #[trigger] nv[i].0 <= o && o < nv[i].1;
                            if i != last {
                                assert(ov[i] == nv[i]);
                            } else if o >= e {
                                assert(x.0 <= o);
                            } else {
                                assert(ov[i].0 <= o && o < ov[i].1);
                            }
                        }
                        if in_ranges(ov, o) {
                            let i = choose|i: int| 0 <= i < ov.len() && #[trigger] ov[i].0 <= o && o < ov[i].1;
                            assert(nv[i].0 <= o && o < nv[i].1);
                        }
                        if x.0 <= o && o < x.1 {
                            assert(a <= x.0);
                            assert(nv[last as int].0 <= o && o < nv[last as int].1);
                        }
                    }
                }
            } else {
                proof {
                    if old_out.len() > 0 {
                        assert forall|i: int| 0 <= i < ov.len() implies (#[trigger] ov[i]).1 < x.0 by {
                            if i < ov.len() - 1 {
                                assert(ov[i].1 < ov[ov.len() - 1].0);
                            }
                        }
                    }
                }
                out.push(x);
                proof {
                    let nv = range_view(out@);
                    assert(nv =~= ov.push((x.0 as int, x.1 as int)));
                    assert forall|i: int, j: int| 0 <= i < j < nv.len() implies (#[trigger] nv[i]).1 < (#[trigger] nv[j]).0 by {
                        if j < ov.len() {
                            assert(ov[i].1 < ov[j].0);
                        } else {
                            assert(nv[i] == ov[i]);
                        }
                    }
                    assert forall|o: int| in_ranges(nv, o) <==> in_ranges(ov, o) || (x.0 <= o && o < x.1) by {
                        if in_ranges(nv, o) {
                            let i = choose|i: int| 0 <= i < nv.len() && #[trigger] nv[i].0 <= o && o < nv[i].1;
                            if i < ov.len() {
                                assert(ov[i] == nv[i]);
                            }
                        }
                        if in_ranges(ov, o) {
                            let i = choose|i: int| 0 <= i < ov.len() && #[trigger] ov[i].0 <= o && o < ov[i].1;
                            assert(nv[i] == ov[i]);
                        }
                        if x.0 <= o && o < x.1 {
                            assert(nv[ov.len() as int].0 <= o);
                        }
                    }
                }
            }
        }
        proof {
            if out@.len() > 0 {
                assert(out@.last().0 == x.0 || (old_out.len() > 0 && out@.last().0 == old_out.last().0));
                assert forall|j: int| k + 1 <= j < s@.len() implies out@.last().0 <= (#[trigger] s@[j]).0 by {
                    assert(s@[k as int].0 <= s@[j].0);
                    if old_out.len() > 0 {
                        assert(old_out.last().0 <= s@[j].0);
                    }
                }
            }
        }
        k = k + 1;
    }
    proof {
        assert(s@.take(s@.len() as int) =~= s@);
        assert forall|o: int| in_ranges(range_view(s@), o) <==> in_ranges(range_view(v@), o) by {
            let sv = range_view(s@);
            let vv = range_view(v@);
            if in_ranges(sv, o) {
                let i = choose|i: int| 0 <= i < sv.len() && #[trigger] sv[i].0 <= o && o < sv[i].1;
                assert(s@.contains(s@[i]));
                let q = choose|q: int| 0 <= q < v@.len() && #[trigger] v@[q] == s@[i];
                assert(vv[q].0 <= o && o < vv[q].1);
            }
            if in_ranges(vv, o) {
                let q = choose|q: int| 0 <= q < vv.len() && #[trigger] vv[q].0 <= o && o < vv[q].1;
                assert(v@.contains(v@[q]));
                let i = choose|i: int| 0 <= i < s@.len() && #[trigger] s@[i] == v@[q];
                assert(sv[i].0 <= o && o < sv[i].1);
            }
        }
    }
    out
}

proof fn lemma_ranges_within_concat(x: Seq<(usize, usize)>, y: Seq<(usize, usize)>, n: int)
    requires
        forall|q: int| 0 <= q < x.len() ==> #[trigger] x[q].0 <= x[q].1 <= n,
        forall|q: int| 0 <= q < y.len() ==> #[trigger] y[q].0 <= y[q].1 <= n,
    ensures
        forall|q: int| 0 <= q < (x + y).len() ==> #[trigger] (x + y)[q].0 <= (x + y)[q].1 <= n,
{
    assert forall|q: int| 0 <= q < (x + y).len() implies #[trigger] (x + y)[q].0 <= (x + y)[q].1 <= n by {
        if q < x.len() {
            assert((x + y)[q] == x[q]);
        } else {
            assert((x + y)[q] == y[q - x.len()]);
        }
    }
}

/// Every masked range of the text, given its wiki-links: the ranges of
/// [`all_masked_ranges`] sorted by start, with ranges that touch or overlap
/// merged. The result is nonempty ranges in order, each ending before the
/// next starts, within the text, covering exactly the masked positions.
#[verifier::spinoff_prover]
pub fn build_masked_ranges(b: &[u8], links: &Vec<LinkSpan>) -> (r: Vec<(usize, usize)>)
    requires
        b@.len() < usize::MAX,
        link_views(links@) == links_from(b@, 0),
        forall|k: int| 0 <= k < links@.len() ==> #[trigger] links@[k].span.offset + links@[k].span.length <= b@.len(),
    ensures
        canonical_ranges(range_view(r@)),
        forall|i: int| 0 <= i < r@.len() ==> (#[trigger] r@[i]).1 <= b@.len(),
        forall|o: int| in_ranges(range_view(r@), o) <==> masked(b@, o),
{
    let mut r = fence_ranges(b);
    let mut c = comment_ranges(b);
    let mut i = inline_ranges(b);
    let mut m = md_ranges(b);
    let ghost (fr, cr, ir, mr) = (r@, c@, i@, m@);
    assert(forall|q: int| 0 <= q < fr.len() ==> #[trigger] fr[q].0 <= fr[q].1 <= b@.len());
    assert(forall|q: int| 0 <= q < cr.len() ==> #[trigger] cr[q].0 <= cr[q].1 <= b@.len());
    assert(forall|q: int| 0 <= q < ir.len() ==> #[trigger] ir[q].0 <= ir[q].1 <= b@.len());
    assert(forall|q: int| 0 <= q < mr.len() ==> #[trigger] mr[q].0 <= mr[q].1 <= b@.len());
    r.append(&mut c);
    r.append(&mut i);
    r.append(&mut m);
    let ghost before = r@;
    assert(before =~= fr + cr + ir + mr);
    proof {
        lemma_ranges_within_concat(fr, cr, b@.len() as int);
        lemma_ranges_within_concat(fr + cr, ir, b@.len() as int);
        lemma_ranges_within_concat(fr + cr + ir, mr, b@.len() as int);
        let all = fr + cr + ir + mr;
        assert forall|j: int| 0 <= j < r@.len() implies (#[trigger] r@[j]).1 <= b@.len() by {
            assert(r@[j] == all[j]);
            assert(all[j].0 <= all[j].1 <= b@.len());
        }
    }
    let mut k: usize = 0;
    while k < links.len()
        invariant
            k <= links@.len(),
            r@ == before + links@.take(k as int).map_values(|l: LinkSpan| (l.span.offset, (l.span.offset + l.span.length) as usize)),
            forall|j: int| 0 <= j < links@.len() ==> #[trigger] links@[j].span.offset + links@[j].span.length <= b@.len(),
            forall|j: int| 0 <= j < r@.len() ==> (#[trigger] r@[j]).1 <= b@.len(),
            b@.len() < usize::MAX,
        decreases links@.len() - k,
    {
        let sp = links[k].span;
        let ghost old_r = r@;
        r.push((sp.offset, sp.offset + sp.length));
        proof {
            assert(links@.take(k + 1) =~= links@.take(k as int).push(links@[k as int]));
            assert forall|j: int| 0 <= j < r@.len() implies (#[trigger] r@[j]).1 <= b@.len() by {
                if j < old_r.len() {
                    assert(r@[j] == old_r[j]);
                }
            }
        }
        k = k + 1;
    }
    proof {
        assert(links@.take(links@.len() as int) =~= links@);
        let lv = link_views(links@);
        assert(wiki_ranges(lv) =~= range_view(links@.map_values(|l: LinkSpan| (l.span.offset, (l.span.offset + l.span.length) as usize))));
        assert(range_view(r@) =~= range_view(fr) + range_view(cr) + range_view(ir) + range_view(mr) + wiki_ranges(lv));
    }
    merge_ranges(&r, b.len())
}

/// Does some range of `masked_ranges` contain `offset`?
pub fn is_masked(offset: usize, masked_ranges: &[(usize, usize)]) -> (r: bool)
    ensures
        r == in_ranges(range_view(masked_ranges@), offset as int),
{
    let ghost rv = range_view(masked_ranges@);
    let mut i: usize = 0;
    while i < masked_ranges.len()
        invariant
            i <= masked_ranges@.len(),
            rv == range_view(masked_ranges@),
            forall|j: int| 0 <= j < i ==> !(#[trigger] rv[j].0 <= offset && offset < rv[j].1),
        decreases masked_ranges@.len() - i,
    {
        let (s, e) = masked_ranges[i];
        if s <= offset && offset < e {
            assert(rv[i as int].0 <= offset && offset < rv[i as int].1);
            return true;
        }
        i = i + 1;
    }
    false
}


// ---------------------------------------------------------------------
// Tags: `@` at the start of the text or after white space, then a name of
// ASCII letters and digits, `_`, `-`, and Cyrillic letters а-я, А-Я.

/// Is `c` an ASCII byte allowed in a tag name?
pub open spec fn is_ascii_name_byte(c: u8) -> bool {
    (0x30u8 <= c <= 0x39u8) || (0x41u8 <= c <= 0x5Au8) || (0x61u8 <= c <= 0x7Au8) || c == 0x5Fu8 || c == 0x2Du8
}

/// Length of the tag-name character at `p`, or 0.
pub open spec fn name_char_len(b: Seq<u8>, p: int) -> int {
    if 0 <= p < b.len() && is_ascii_name_byte(b[p]) {
        1
    } else if 0 <= p && p + 1 < b.len() && ((b[p] == 0xD0u8 && 0x90u8 <= b[p + 1] <= 0xBFu8) || (
    b[p] == 0xD1u8 && 0x80u8 <= b[p + 1] <= 0x8Fu8)) {
        2
    } else {
        0
    }
}

/// End of the longest run of tag-name characters from `p`.
pub open spec fn name_end(b: Seq<u8>, p: int) -> int
    decreases b.len() - p,
{
    if p < 0 || p >= b.len() {
        p
    } else if name_char_len(b, p) > 0 {
        name_end(b, p + name_char_len(b, p))
    } else {
        p
    }
}

pub proof fn lemma_name_end(b: Seq<u8>, p: int)
    requires
        0 <= p <= b.len(),
    ensures
        p <= name_end(b, p) <= b.len(),
    decreases b.len() - p,
{
    if p < b.len() && name_char_len(b, p) > 0 {
        lemma_name_end(b, p + name_char_len(b, p));
    }
}

/// May a tag or date start at `a`: the start of the text or after white space?
pub open spec fn starts_item(b: Seq<u8>, a: int) -> bool {
    a == 0 || ws_len_before(b, a) > 0
}

/// Is there a tag whose `@` is at `a`?
pub open spec fn tag_at(b: Seq<u8>, a: int) -> bool {
    byte_is(b, a, 0x40u8) && starts_item(b, a) && name_end(b, a + 1) > a + 1
}

/// The offset recorded for the tag at `a`: the `@` when a space or line
/// break precedes it, otherwise the start of the preceding white space.
pub open spec fn tag_offset(b: Seq<u8>, a: int) -> int {
    let w = ws_len_before(b, a);
    if w == 1 && (b[a - 1] == 0x20u8 || b[a - 1] == 0x0Au8) {
        a
    } else {
        a - w
    }
}

/// The unmasked tags from position `p` on.
pub open spec fn tags_from(b: Seq<u8>, p: int) -> Seq<(Seq<char>, ByteSpan)>
    decreases b.len() - p,
{
    if p < 0 || p >= b.len() {
        seq![]
    } else if tag_at(b, p) {
        let e = name_end(b, p + 1);
        proof {
            lemma_name_end(b, p + 1);
        }
        (if masked(b, tag_offset(b, p)) {
            seq![]
        } else {
            seq![(decode_utf8(b.subrange(p + 1, e)), ByteSpan { offset: tag_offset(b, p) as usize, length: (e - p) as usize })]
        }) + tags_from(b, e)
    } else {
        tags_from(b, p + 1)
    }
}

fn name_end_exec(b: &[u8], p: usize) -> (r: usize)
    requires
        p <= b@.len(),
        valid_utf8(b@),
        is_char_boundary(b@, p as int),
    ensures
        r == name_end(b@, p as int),
        p <= r <= b@.len(),
        is_char_boundary(b@, r as int),
{
    let n = b.len();
    let mut q = p;
    loop
        invariant
            p <= q <= n == b@.len(),
            valid_utf8(b@),
            is_char_boundary(b@, q as int),
            name_end(b@, q as int) == name_end(b@, p as int),
        decreases n - q,
    {
        if q >= n {
            return q;
        }
        let c = b[q];
        if (0x30 <= c && c <= 0x39) || (0x41 <= c && c <= 0x5A) || (0x61 <= c && c <= 0x7A) || c == 0x5F || c == 0x2D {
            proof {
                lemma_ascii_boundary(b@, q as int);
            }
            q = q + 1;
        } else if q + 1 < n && ((c == 0xD0 && 0x90 <= b[q + 1] && b[q + 1] <= 0xBF) || (c == 0xD1 && 0x80 <= b[q + 1] && b[q + 1] <= 0x8F)) {
            proof {
                lemma_char_step(b@, q as int);
                assert(b@.subrange(q as int, n as int)[0] == b@[q as int]);
            }
            q = q + 2;
        } else {
            return q;
        }
    }
}

/// Finds the tags of the text whose offset is not masked.
pub fn parse_tags(b: &[u8], masked_ranges: &Vec<(usize, usize)>) -> (r: Vec<TagSpan>)
    requires
        valid_utf8(b@),
        b@.len() < usize::MAX,
        forall|o: int| in_ranges(range_view(masked_ranges@), o) <==> masked(b@, o),
    ensures
        tag_views(r@) == tags_from(b@, 0),
{
    let n = b.len();
    let mut tags: Vec<TagSpan> = Vec::new();
    let mut p: usize = 0;
    proof {
        assert(tag_views(tags@) =~= seq![]);
    }
    while p < n
        invariant
            p <= n == b@.len(),
            n < usize::MAX,
            valid_utf8(b@),
            forall|o: int| in_ranges(range_view(masked_ranges@), o) <==> masked(b@, o),
            tag_views(tags@) + tags_from(b@, p as int) == tags_from(b@, 0),
        decreases n - p,
    {
        let w = ws_len_before_exec(b, p);
        if b[p] == 0x40 && (p == 0 || w > 0) {
            proof {
                lemma_ascii_boundary(b@, p as int);
            }
            let e = name_end_exec(b, p + 1);
            if e > p + 1 {
                let offset = if w == 1 && (b[p - 1] == 0x20 || b[p - 1] == 0x0A) { p } else { p - w };
                let ghost old_tags = tags@;
                if !is_masked(offset, masked_ranges.as_slice()) {
                    let name = substring(b, p + 1, e);
                    let tag = TagSpan { name, span: ByteSpan { offset, length: e - p } };
                    tags.push(tag);
                    proof {
                        assert(tag_views(tags@) =~= tag_views(old_tags).push(tag@));
                    }
                }
                proof {
                    assert(tag_at(b@, p as int));
                    assert(offset == tag_offset(b@, p as int));
                }
                p = e;
            } else {
                p = p + 1;
            }
        } else {
            p = p + 1;
        }
    }
    tags
}

// ---------------------------------------------------------------------
// Dates: `!` at the start of the text or after white space, then
// `DD.MM.YYYY` with ASCII digits, not followed by a word character.

pub open spec fn is_digit(c: u8) -> bool {
    0x30u8 <= c <= 0x39u8
}

pub open spec fn digit_at(b: Seq<u8>, p: int) -> bool {
    0 <= p < b.len() && is_digit(b[p])
}

/// Value of the decimal digit at `p`.
pub open spec fn dval(b: Seq<u8>, p: int) -> int {
    b[p] - 0x30
}

/// Does the regular expression `\A\w` match at the start of `s`: is its
/// first character a word character in the regex crate's Unicode sense?
pub uninterp spec fn word_start(s: Seq<char>) -> bool;

/// The regex crate's `Regex::new(r"\A\w")` and `is_match` on `s`: whether
/// `s` starts with a Unicode word character. Which characters those are is
/// not stated here; it is named [`word_start`].
#[verifier::external_body]
fn starts_with_word(s: &str) -> (r: bool)
    ensures
        r == word_start(s@),
{
    match regex::Regex::new(r"\A\w") {
        Ok(re) => re.is_match(s),
        Err(_) => false,
    }
}

/// Is the character at `p` a word character (as the regex crate's `\w`)?
pub open spec fn word_at(b: Seq<u8>, p: int) -> bool {
    0 <= p < b.len() && word_start(decode_utf8(b.subrange(p, b.len() as int)))
}

/// Is there a date whose `!` is at `a`?
pub open spec fn date_at(b: Seq<u8>, a: int) -> bool {
    &&& byte_is(b, a, 0x21u8)
    &&& starts_item(b, a)
    &&& digit_at(b, a + 1) && digit_at(b, a + 2)
    &&& byte_is(b, a + 3, 0x2Eu8)
    &&& digit_at(b, a + 4) && digit_at(b, a + 5)
    &&& byte_is(b, a + 6, 0x2Eu8)
    &&& digit_at(b, a + 7) && digit_at(b, a + 8) && digit_at(b, a + 9) && digit_at(b, a + 10)
    &&& !word_at(b, a + 11)
}

pub open spec fn date_day(b: Seq<u8>, a: int) -> int {
    dval(b, a + 1) * 10 + dval(b, a + 2)
}

pub open spec fn date_month(b: Seq<u8>, a: int) -> int {
    dval(b, a + 4) * 10 + dval(b, a + 5)
}

pub open spec fn date_year(b: Seq<u8>, a: int) -> int {
    dval(b, a + 7) * 1000 + dval(b, a + 8) * 100 + dval(b, a + 9) * 10 + dval(b, a + 10)
}

/// Where the match of the date at `a` starts: at the preceding white space.
pub open spec fn date_start(b: Seq<u8>, a: int) -> int {
    a - ws_len_before(b, a)
}

pub open spec fn date_span(b: Seq<u8>, a: int) -> ByteSpan {
    ByteSpan { offset: date_start(b, a) as usize, length: (a + 11 - date_start(b, a)) as usize }
}

/// The message for a date that does not exist: day, month and year in decimal.
pub open spec fn invalid_date_message(d: int, m: int, y: int) -> Seq<char> {
    "Invalid date: "@ + decimal(d as nat) + "."@ + decimal(m as nat) + "."@ + decimal(y as nat)
}

/// The unmasked dates that exist, from position `p` on.
pub open spec fn dates_from(b: Seq<u8>, p: int) -> Seq<(Date, Seq<char>, ByteSpan)>
    decreases b.len() - p,
{
    if p < 0 || p >= b.len() {
        seq![]
    } else if date_at(b, p) {
        (if masked(b, date_start(b, p)) || !valid_ymd(date_year(b, p), date_month(b, p), date_day(b, p)) {
            seq![]
        } else {
            seq![(
                Date { year: date_year(b, p) as i32, month: date_month(b, p) as u32, day: date_day(b, p) as u32 },
                decode_utf8(b.subrange(p, p + 11)),
                date_span(b, p),
            )]
        }) + dates_from(b, p + 11)
    } else {
        dates_from(b, p + 1)
    }
}

/// The errors for unmasked dates that do not exist, from position `p` on.
pub open spec fn date_errors_from(b: Seq<u8>, p: int) -> Seq<(ByteSpan, Seq<char>, ParseErrorKind)>
    decreases b.len() - p,
{
    if p < 0 || p >= b.len() {
        seq![]
    } else if date_at(b, p) {
        (if masked(b, date_start(b, p)) || valid_ymd(date_year(b, p), date_month(b, p), date_day(b, p)) {
            seq![]
        } else {
            seq![(
                date_span(b, p),
                invalid_date_message(date_day(b, p), date_month(b, p), date_year(b, p)),
                ParseErrorKind::InvalidDate,
            )]
        }) + date_errors_from(b, p + 11)
    } else {
        date_errors_from(b, p + 1)
    }
}

/// Does the date exist, in a four-digit year?
pub open spec fn existing_date(d: Date) -> bool {
    valid_ymd(d.year as int, d.month as int, d.day as int) && 0 <= d.year <= 9999
}

/// Every date found is one that exists, in a four-digit year.
pub proof fn lemma_dates_exist(b: Seq<u8>, p: int)
    ensures
        forall|i: int| 0 <= i < dates_from(b, p).len() ==> existing_date(#[trigger] dates_from(b, p)[i].0),
    decreases b.len() - p,
{
    if 0 <= p < b.len() {
        if date_at(b, p) {
            lemma_dates_exist(b, p + 11);
            let rest = dates_from(b, p + 11);
            let head = if masked(b, date_start(b, p)) || !valid_ymd(date_year(b, p), date_month(b, p), date_day(b, p)) {
                Seq::<(Date, Seq<char>, ByteSpan)>::empty()
            } else {
                seq![(
                    Date { year: date_year(b, p) as i32, month: date_month(b, p) as u32, day: date_day(b, p) as u32 },
                    decode_utf8(b.subrange(p, p + 11)),
                    date_span(b, p),
                )]
            };
            assert(dates_from(b, p) == head + rest);
            assert(0 <= date_year(b, p) <= 9999);
            assert(0 <= date_month(b, p) <= 99);
            assert(0 <= date_day(b, p) <= 99);
            assert forall|i: int| 0 <= i < dates_from(b, p).len() implies existing_date(#[trigger] dates_from(b, p)[i].0) by {
                if i >= head.len() {
                    assert(dates_from(b, p)[i] == rest[i - head.len()]);
                } else {
                    assert(dates_from(b, p)[i] == head[i]);
                    let d = head[i].0;
                    assert(d.year as int == date_year(b, p));
                    assert(d.month as int == date_month(b, p));
                    assert(d.day as int == date_day(b, p));
                }
            }
        } else {
            lemma_dates_exist(b, p + 1);
            assert(dates_from(b, p) == dates_from(b, p + 1));
        }
    } else {
        assert(dates_from(b, p).len() == 0);
    }
}

fn is_digit_exec(b: &[u8], p: usize) -> (r: bool)
    ensures
        r == digit_at(b@, p as int),
{
    p < b.len() && 0x30 <= b[p] && b[p] <= 0x39
}

fn date_at_exec(b: &[u8], a: usize) -> (r: bool)
    requires
        valid_utf8(b@),
        a < b@.len(),
        b@.len() < usize::MAX,
    ensures
        r == date_at(b@, a as int),
{
    let n = b.len();
    if !(b[a] == 0x21 && (a == 0 || ws_len_before_exec(b, a) > 0)) {
        return false;
    }
    if n - a < 11 {
        return false;
    }
    if !(is_digit_exec(b, a + 1) && is_digit_exec(b, a + 2) && b[a + 3] == 0x2E && is_digit_exec(b, a + 4)
        && is_digit_exec(b, a + 5) && b[a + 6] == 0x2E && is_digit_exec(b, a + 7) && is_digit_exec(b, a + 8)
        && is_digit_exec(b, a + 9) && is_digit_exec(b, a + 10)) {
        return false;
    }
    if a + 11 < n {
        proof {
            lemma_ascii_boundary(b@, a + 10);
            is_char_boundary_start_end_of_seq(b@);
        }
        let rest = substring(b, a + 11, n);
        !starts_with_word(rest.as_str())
    } else {
        true
    }
}

fn digit_value(b: &[u8], p: usize) -> (r: u32)
    requires
        digit_at(b@, p as int),
    ensures
        r == dval(b@, p as int),
        r < 10,
{
    (b[p] - 0x30) as u32
}

/// Finds the dates of the text whose match start is not masked: those
/// that exist go to the result, the others become `InvalidDate` errors
/// appended to `errors`.
pub fn parse_dates(b: &[u8], masked_ranges: &Vec<(usize, usize)>, errors: &mut Vec<ParseError>) -> (r: Vec<DateSpan>)
    requires
        valid_utf8(b@),
        b@.len() < usize::MAX,
        forall|o: int| in_ranges(range_view(masked_ranges@), o) <==> masked(b@, o),
    ensures
        date_views(r@) == dates_from(b@, 0),
        error_views(final(errors)@) == error_views(old(errors)@) + date_errors_from(b@, 0),
{
    let n = b.len();
    let mut dates: Vec<DateSpan> = Vec::new();
    let mut p: usize = 0;
    proof {
        assert(date_views(dates@) =~= seq![]);
        assert(error_views(errors@) =~= error_views(old(errors)@) + seq![]);
    }
    while p < n
        invariant
            p <= n == b@.len(),
            n < usize::MAX,
            valid_utf8(b@),
            forall|o: int| in_ranges(range_view(masked_ranges@), o) <==> masked(b@, o),
            date_views(dates@) + dates_from(b@, p as int) == dates_from(b@, 0),
            error_views(errors@) + date_errors_from(b@, p as int) == error_views(old(errors)@) + date_errors_from(b@, 0),
        decreases n - p,
    {
        if date_at_exec(b, p) {
            let start = p - ws_len_before_exec(b, p);
            let span = ByteSpan { offset: start, length: p + 11 - start };
            if !is_masked(start, masked_ranges.as_slice()) {
                let day = digit_value(b, p + 1) * 10 + digit_value(b, p + 2);
                let month = digit_value(b, p + 4) * 10 + digit_value(b, p + 5);
                let year = digit_value(b, p + 7) * 1000 + digit_value(b, p + 8) * 100 + digit_value(b, p + 9) * 10
                    + digit_value(b, p + 10);
                match calendar_date(year as i32, month, day) {
                    Some(date) => {
                        proof {
                            lemma_ascii_boundary(b@, p as int);
                            lemma_ascii_boundary(b@, p + 10);
                        }
                        let raw = substring(b, p, p + 11);
                        let d = DateSpan { date, raw, span };
                        let ghost old_dates = dates@;
                        dates.push(d);
                        proof {
                            assert(date_views(dates@) =~= date_views(old_dates).push(d@));
                            assert(d@ == (
                                Date { year: date_year(b@, p as int) as i32, month: date_month(b@, p as int) as u32, day: date_day(b@, p as int) as u32 },
                                decode_utf8(b@.subrange(p as int, p + 11)),
                                date_span(b@, p as int),
                            ));
                        }
                    },
                    None => {
                        let mut message = "Invalid date: ".to_owned();
                        push_decimal(&mut message, day as u64);
                        push_str(&mut message, ".");
                        push_decimal(&mut message, month as u64);
                        push_str(&mut message, ".");
                        push_decimal(&mut message, year as u64);
                        let e = ParseError { span, message, kind: ParseErrorKind::InvalidDate };
                        let ghost old_errors = errors@;
                        errors.push(e);
                        proof {
                            reveal_strlit("Invalid date: ");
                            reveal_strlit(".");
                            assert(e.message@ =~= invalid_date_message(date_day(b@, p as int), date_month(b@, p as int), date_year(b@, p as int)));
                            assert(error_views(errors@) =~= error_views(old_errors).push(e@));
                        }
                    },
                }
            }
            proof {
                assert(span == date_span(b@, p as int));
            }
            p = p + 11;
        } else {
            p = p + 1;
        }
    }
    dates
}

/// Parses a note: its wiki-links, its tags and dates outside masked
/// constructs, and the errors (empty links first, then dates that do not
/// exist).
pub fn parse_content(text: &str) -> (r: ParseResult)
    requires
        text.spec_bytes().len() < usize::MAX,
    ensures
        link_views(r.links@) == links_from(text.spec_bytes(), 0),
        tag_views(r.tags@) == tags_from(text.spec_bytes(), 0),
        date_views(r.dates@) == dates_from(text.spec_bytes(), 0),
        error_views(r.errors@) == link_errors_from(text.spec_bytes(), 0) + date_errors_from(text.spec_bytes(), 0),
{
    let b = text.as_bytes();
    proof {
        encode_utf8_valid_utf8(text@);
    }
    let (links, mut errors) = parse_links(b);
    let ranges = build_masked_ranges(b, &links);
    let tags = parse_tags(b, &ranges);
    let dates = parse_dates(b, &ranges, &mut errors);
    ParseResult { links, tags, dates, errors }
}


proof fn lemma_tags_unmasked(b: Seq<u8>, p: int)
    requires
        b.len() <= usize::MAX,
    ensures
        forall|i: int| 0 <= i < tags_from(b, p).len() ==> !masked(b, (#[trigger] tags_from(b, p)[i]).1.offset as int),
    decreases b.len() - p,
{
    if 0 <= p < b.len() {
        if tag_at(b, p) {
            let e = name_end(b, p + 1);
            lemma_name_end(b, p + 1);
            lemma_tags_unmasked(b, e);
            let rest = tags_from(b, e);
            let head = if masked(b, tag_offset(b, p)) {
                Seq::<(Seq<char>, ByteSpan)>::empty()
            } else {
                seq![(decode_utf8(b.subrange(p + 1, e)), ByteSpan { offset: tag_offset(b, p) as usize, length: (e - p) as usize })]
            };
            assert(tags_from(b, p) == head + rest);
            assert(0 <= tag_offset(b, p) <= p);
            assert forall|i: int| 0 <= i < tags_from(b, p).len() implies !masked(b, (#[trigger] tags_from(b, p)[i]).1.offset as int) by {
                if i >= head.len() {
                    assert(tags_from(b, p)[i] == rest[i - head.len()]);
                } else {
                    assert(tags_from(b, p)[i] == head[i]);
                    assert(head[i].1.offset as int == tag_offset(b, p));
                }
            }
        } else {
            lemma_tags_unmasked(b, p + 1);
            assert(tags_from(b, p) == tags_from(b, p + 1));
        }
    } else {
        assert(tags_from(b, p).len() == 0);
    }
}

proof fn lemma_dates_unmasked(b: Seq<u8>, p: int)
    requires
        b.len() <= usize::MAX,
    ensures
        forall|i: int| 0 <= i < dates_from(b, p).len() ==> !masked(b, (#[trigger] dates_from(b, p)[i]).2.offset as int),
    decreases b.len() - p,
{
    if 0 <= p < b.len() {
        if date_at(b, p) {
            lemma_dates_unmasked(b, p + 11);
            let rest = dates_from(b, p + 11);
            let head = if masked(b, date_start(b, p)) || !valid_ymd(date_year(b, p), date_month(b, p), date_day(b, p)) {
                Seq::<(Date, Seq<char>, ByteSpan)>::empty()
            } else {
                seq![(
                    Date { year: date_year(b, p) as i32, month: date_month(b, p) as u32, day: date_day(b, p) as u32 },
                    decode_utf8(b.subrange(p, p + 11)),
                    date_span(b, p),
                )]
            };
            assert(dates_from(b, p) == head + rest);
            assert(0 <= date_start(b, p) <= p);
            assert forall|i: int| 0 <= i < dates_from(b, p).len() implies !masked(b, (#[trigger] dates_from(b, p)[i]).2.offset as int) by {
                if i >= head.len() {
                    assert(dates_from(b, p)[i] == rest[i - head.len()]);
                } else {
                    assert(dates_from(b, p)[i] == head[i]);
                    assert(head[i].2.offset as int == date_start(b, p));
                }
            }
        } else {
            lemma_dates_unmasked(b, p + 1);
            assert(dates_from(b, p) == dates_from(b, p + 1));
        }
    } else {
        assert(dates_from(b, p).len() == 0);
    }
}

/// No tag and no date is found where it would start inside code (fenced
/// or inline), an HTML comment, a Markdown link or image, or a wiki-link.
pub proof fn law_masked_text_has_no_tags_or_dates(b: Seq<u8>)
    requires
        b.len() <= usize::MAX,
    ensures
        forall|i: int| 0 <= i < tags_from(b, 0).len() ==> !masked(b, (#[trigger] tags_from(b, 0)[i]).1.offset as int),
        forall|i: int| 0 <= i < dates_from(b, 0).len() ==> !masked(b, (#[trigger] dates_from(b, 0)[i]).2.offset as int),
{
    lemma_tags_unmasked(b, 0);
    lemma_dates_unmasked(b, 0);
}

proof fn lemma_link_spans(b: Seq<u8>, p: int)
    requires
        b.len() <= usize::MAX,
        0 <= p,
    ensures
        forall|i: int| 0 <= i < links_from(b, p).len() ==> p <= (#[trigger] links_from(b, p)[i]).2.offset
            && links_from(b, p)[i].2.offset + links_from(b, p)[i].2.length <= b.len(),
        forall|i: int, j: int| 0 <= i < j < links_from(b, p).len() ==> #[trigger] links_from(b, p)[i].2.offset
            + links_from(b, p)[i].2.length <= #[trigger] links_from(b, p)[j].2.offset,
    decreases b.len() - p,
{
    if p < b.len() {
        match wiki_at(b, p) {
            Some((ie, l, k)) => {
                lemma_link_scan(b, p + 2);
                lemma_link_spans(b, k + 2);
                let rest = links_from(b, k + 2);
                if ie == p + 2 {
                    assert(links_from(b, p) == rest);
                } else {
                    let head = seq![link_view(b, p, ie, l, k)];
                    let all = links_from(b, p);
                    assert(all == head + rest);
                    assert(head[0].2.offset == p && head[0].2.length == k + 2 - p);
                    assert forall|i: int| 0 <= i < all.len() implies p <= (#[trigger] all[i]).2.offset
                        && all[i].2.offset + all[i].2.length <= b.len() by {
                        if i > 0 {
                            assert(all[i] == rest[i - 1]);
                        }
                    }
                    assert forall|i: int, j: int| 0 <= i < j < all.len() implies #[trigger] all[i].2.offset
                        + all[i].2.length <= #[trigger] all[j].2.offset by {
                        assert(all[j] == rest[j - 1]);
                        if i > 0 {
                            assert(all[i] == rest[i - 1]);
                        }
                    }
                }
            },
            None => {
                lemma_link_spans(b, p + 1);
                assert(links_from(b, p) == links_from(b, p + 1));
            },
        }
    } else {
        assert(links_from(b, p).len() == 0);
    }
}

proof fn lemma_tag_spans(b: Seq<u8>, p: int)
    requires
        b.len() <= usize::MAX,
    ensures
        forall|i: int| 0 <= i < tags_from(b, p).len() ==> (#[trigger] tags_from(b, p)[i]).1.offset + tags_from(b, p)[i].1.length
            <= b.len(),
    decreases b.len() - p,
{
    if 0 <= p < b.len() {
        if tag_at(b, p) {
            let e = name_end(b, p + 1);
            lemma_name_end(b, p + 1);
            lemma_tag_spans(b, e);
            let rest = tags_from(b, e);
            let head = if masked(b, tag_offset(b, p)) {
                Seq::<(Seq<char>, ByteSpan)>::empty()
            } else {
                seq![(decode_utf8(b.subrange(p + 1, e)), ByteSpan { offset: tag_offset(b, p) as usize, length: (e - p) as usize })]
            };
            assert(tags_from(b, p) == head + rest);
            assert(0 <= tag_offset(b, p) <= p);
            assert forall|i: int| 0 <= i < tags_from(b, p).len() implies (#[trigger] tags_from(b, p)[i]).1.offset
                + tags_from(b, p)[i].1.length <= b.len() by {
                if i >= head.len() {
                    assert(tags_from(b, p)[i] == rest[i - head.len()]);
                } else {
                    assert(tags_from(b, p)[i] == head[i]);
                }
            }
        } else {
            lemma_tag_spans(b, p + 1);
            assert(tags_from(b, p) == tags_from(b, p + 1));
        }
    } else {
        assert(tags_from(b, p).len() == 0);
    }
}

proof fn lemma_date_spans(b: Seq<u8>, p: int)
    requires
        b.len() <= usize::MAX,
    ensures
        forall|i: int| 0 <= i < dates_from(b, p).len() ==> (#[trigger] dates_from(b, p)[i]).2.offset + dates_from(b, p)[i].2.length
            <= b.len(),
    decreases b.len() - p,
{
    if 0 <= p < b.len() {
        if date_at(b, p) {
            lemma_date_spans(b, p + 11);
            let rest = dates_from(b, p + 11);
            let head = if masked(b, date_start(b, p)) || !valid_ymd(date_year(b, p), date_month(b, p), date_day(b, p)) {
                Seq::<(Date, Seq<char>, ByteSpan)>::empty()
            } else {
                seq![(
                    Date { year: date_year(b, p) as i32, month: date_month(b, p) as u32, day: date_day(b, p) as u32 },
                    decode_utf8(b.subrange(p, p + 11)),
                    date_span(b, p),
                )]
            };
            assert(dates_from(b, p) == head + rest);
            assert(0 <= date_start(b, p) <= p);
            assert(p + 10 < b.len());
            assert forall|i: int| 0 <= i < dates_from(b, p).len() implies (#[trigger] dates_from(b, p)[i]).2.offset
                + dates_from(b, p)[i].2.length <= b.len() by {
                if i >= head.len() {
                    assert(dates_from(b, p)[i] == rest[i - head.len()]);
                } else {
                    assert(dates_from(b, p)[i] == head[i]);
                }
            }
        } else {
            lemma_date_spans(b, p + 1);
            assert(dates_from(b, p) == dates_from(b, p + 1));
        }
    } else {
        assert(dates_from(b, p).len() == 0);
    }
}

/// Every span that parsing records lies within the text: those of the
/// links, the tags and the dates. The links' spans come in the order of
/// the text, each ending before the next begins.
pub proof fn law_spans_within_text(b: Seq<u8>)
    requires
        b.len() <= usize::MAX,
    ensures
        forall|i: int| 0 <= i < links_from(b, 0).len() ==> (#[trigger] links_from(b, 0)[i]).2.offset
            + links_from(b, 0)[i].2.length <= b.len(),
        forall|i: int, j: int| 0 <= i < j < links_from(b, 0).len() ==> #[trigger] links_from(b, 0)[i].2.offset
            + links_from(b, 0)[i].2.length <= #[trigger] links_from(b, 0)[j].2.offset,
        forall|i: int| 0 <= i < tags_from(b, 0).len() ==> (#[trigger] tags_from(b, 0)[i]).1.offset
            + tags_from(b, 0)[i].1.length <= b.len(),
        forall|i: int| 0 <= i < dates_from(b, 0).len() ==> (#[trigger] dates_from(b, 0)[i]).2.offset
            + dates_from(b, 0)[i].2.length <= b.len(),
{
    lemma_link_spans(b, 0);
    lemma_tag_spans(b, 0);
    lemma_date_spans(b, 0);
}

/// Is `c` none of the bytes that open a masked construct: a backtick, a
/// tilde, `<`, `[`?
pub open spec fn opens_nothing(c: u8) -> bool {
    c != 0x60u8 && c != 0x7Eu8 && c != 0x3Cu8 && c != 0x5Bu8
}

proof fn lemma_plain_fences(b: Seq<u8>, ls: Seq<(int, int)>, i: int)
    requires
        forall|j: int| 0 <= j < b.len() ==> opens_nothing(#[trigger] b[j]),
    ensures
        fence_ranges_from(b, ls, i).len() == 0,
    decreases ls.len() - i,
{
    if 0 <= i < ls.len() {
        let t = trimmed(b, ls[i]);
        if 0 <= t.0 < b.len() {
            assert(opens_nothing(b[t.0]));
        }
        lemma_plain_fences(b, ls, i + 1);
    }
}

proof fn lemma_plain_comments(b: Seq<u8>, p: int)
    requires
        forall|j: int| 0 <= j < b.len() ==> opens_nothing(#[trigger] b[j]),
    ensures
        comment_ranges_from(b, p).len() == 0,
    decreases b.len() - p,
{
    if 0 <= p < b.len() {
        assert(opens_nothing(b[p]));
        lemma_plain_comments(b, p + 1);
    }
}

proof fn lemma_plain_inline(b: Seq<u8>, p: int)
    requires
        forall|j: int| 0 <= j < b.len() ==> opens_nothing(#[trigger] b[j]),
    ensures
        inline_ranges_from(b, p).len() == 0,
    decreases b.len() - p,
{
    if 0 <= p < b.len() {
        assert(opens_nothing(b[p]));
        lemma_plain_inline(b, p + 1);
    }
}

proof fn lemma_plain_md(b: Seq<u8>, p: int)
    requires
        forall|j: int| 0 <= j < b.len() ==> opens_nothing(#[trigger] b[j]),
    ensures
        md_ranges_from(b, p).len() == 0,
    decreases b.len() - p,
{
    if 0 <= p < b.len() {
        assert(opens_nothing(b[p]));
        if p + 1 < b.len() {
            assert(opens_nothing(b[p + 1]));
        }
        assert(md_end(b, p) < 0);
        lemma_plain_md(b, p + 1);
    }
}

proof fn lemma_plain_links(b: Seq<u8>, p: int)
    requires
        forall|j: int| 0 <= j < b.len() ==> opens_nothing(#[trigger] b[j]),
    ensures
        links_from(b, p).len() == 0,
    decreases b.len() - p,
{
    if 0 <= p < b.len() {
        assert(opens_nothing(b[p]));
        assert(wiki_at(b, p) is None);
        lemma_plain_links(b, p + 1);
    }
}

/// Is the byte at `j` part of a tag-name character: an ASCII letter,
/// digit, `_` or `-`, or either byte of a Cyrillic letter А to я
/// (U+0410 to U+044F: D0 90 to D0 BF, D1 80 to D1 8F)?
pub open spec fn in_name_run(b: Seq<u8>, j: int) -> bool {
    let c = b[j];
    ||| (0x30u8 <= c <= 0x39u8) || (0x41u8 <= c <= 0x5Au8) || (0x61u8 <= c <= 0x7Au8) || c == 0x5Fu8 || c == 0x2Du8
    ||| c == 0xD0u8 && j + 1 < b.len() && 0x90u8 <= b[j + 1] <= 0xBFu8
    ||| c == 0xD1u8 && j + 1 < b.len() && 0x80u8 <= b[j + 1] <= 0x8Fu8
    ||| 0x80u8 <= c <= 0xBFu8 && j >= 1 && (b[j - 1] == 0xD0u8 || b[j - 1] == 0xD1u8)
}

/// Is `c` an ASCII byte that no tag name holds?
pub open spec fn ends_name(c: u8) -> bool {
    c < 0x80u8 && !((0x30u8 <= c <= 0x39u8) || (0x41u8 <= c <= 0x5Au8) || (0x61u8 <= c <= 0x7Au8) || c == 0x5Fu8
        || c == 0x2Du8)
}

proof fn lemma_run_name_end(b: Seq<u8>, p: int, e: int)
    requires
        1 <= p <= e <= b.len(),
        b[p - 1] != 0xD0u8 && b[p - 1] != 0xD1u8,
        forall|j: int| 1 <= j < e ==> #[trigger] in_name_run(b, j),
        e == b.len() || ends_name(b[e]),
    ensures
        name_end(b, p) == e,
    decreases e - p,
{
    if p < e {
        assert(in_name_run(b, p));
        let c = b[p];
        if (0x30u8 <= c <= 0x39u8) || (0x41u8 <= c <= 0x5Au8) || (0x61u8 <= c <= 0x7Au8) || c == 0x5Fu8 || c == 0x2Du8 {
            assert(name_char_len(b, p) == 1);
            lemma_run_name_end(b, p + 1, e);
        } else {
            assert(c == 0xD0u8 || c == 0xD1u8);
            assert(name_char_len(b, p) == 2);
            if p + 1 == e {
                assert(ends_name(b[e]));
            }
            if p + 2 < e {
                assert(in_name_run(b, p + 2));
            }
            lemma_run_name_end(b, p + 2, e);
        }
    } else if e < b.len() {
        assert(ends_name(b[e]));
        assert(name_char_len(b, e) == 0);
    }
}

/// A note that is `@` followed by a run of name characters (ASCII
/// letters, digits, `_`, `-` and Cyrillic letters, see [`in_name_run`]) and
/// nothing else carries exactly one tag: the whole run, with a span over
/// the whole text.
pub proof fn law_whole_run_is_one_tag(b: Seq<u8>)
    requires
        2 <= b.len() <= usize::MAX,
        b[0] == 0x40u8,
        forall|j: int| 1 <= j < b.len() ==> #[trigger] in_name_run(b, j),
    ensures
        tags_from(b, 0) == seq![(decode_utf8(b.subrange(1, b.len() as int)), ByteSpan { offset: 0, length: b.len() as usize })],
{
    assert forall|j: int| 0 <= j < b.len() implies opens_nothing(#[trigger] b[j]) by {
        if j >= 1 {
            assert(in_name_run(b, j));
        }
    }
    lemma_plain_fences(b, lines_from(b, 0), 0);
    lemma_plain_comments(b, 0);
    lemma_plain_inline(b, 0);
    lemma_plain_md(b, 0);
    lemma_plain_links(b, 0);
    let all = all_masked_ranges(b);
    assert(all.len() == 0);
    assert(!masked(b, 0));
    lemma_run_name_end(b, 1, b.len() as int);
    assert(ws_len_before(b, 0) == 0);
    assert(tag_offset(b, 0) == 0);
    assert(tag_at(b, 0));
    assert(tags_from(b, b.len() as int).len() == 0);
    let head = seq![(decode_utf8(b.subrange(1, b.len() as int)), ByteSpan { offset: 0, length: b.len() as usize })];
    assert(tags_from(b, 0) == head + tags_from(b, b.len() as int));
    assert(head + tags_from(b, b.len() as int) =~= head);
}

/// The first tag of a note that starts with `@` and a run of name
/// characters ended by an ASCII byte no name holds (a space, a dot, ...),
/// in a text that opens no code, comment or link, is that run: its name is
/// the whole run and its span covers the `@` and the run.
pub proof fn law_first_tag_is_whole_run(b: Seq<u8>, e: int)
    requires
        2 <= e < b.len() <= usize::MAX,
        b[0] == 0x40u8,
        forall|j: int| 1 <= j < e ==> #[trigger] in_name_run(b, j),
        ends_name(b[e]),
        forall|j: int| 0 <= j < b.len() ==> opens_nothing(#[trigger] b[j]),
    ensures
        tags_from(b, 0).len() >= 1,
        tags_from(b, 0)[0] == (decode_utf8(b.subrange(1, e)), ByteSpan { offset: 0, length: e as usize }),
{
    lemma_plain_fences(b, lines_from(b, 0), 0);
    lemma_plain_comments(b, 0);
    lemma_plain_inline(b, 0);
    lemma_plain_md(b, 0);
    lemma_plain_links(b, 0);
    assert(all_masked_ranges(b).len() == 0);
    assert(!masked(b, 0));
    lemma_run_name_end(b, 1, e);
    assert(ws_len_before(b, 0) == 0);
    assert(tag_offset(b, 0) == 0);
    assert(tag_at(b, 0));
    let head = seq![(decode_utf8(b.subrange(1, e)), ByteSpan { offset: 0, length: e as usize })];
    assert(tags_from(b, 0) == head + tags_from(b, e));
    assert((head + tags_from(b, e))[0] == head[0]);
}

} // verus!
