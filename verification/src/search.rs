//! The query language (`tag:`, `date:`, `link:`, ... and plain words, all
//! of them required) and the reading of ripgrep's output lines.
use vstd::prelude::*;
use vstd::utf8::*;
use vstd::string::StringSliceAdditionalSpecFns;
use crate::text::{chars_of, string_of, substring, lemma_ascii_boundary};
use crate::transport::{parse_num, parse_num_exec, IntError};
use crate::date::{Date, iso_date, iso_date_string};
use crate::index::ConcurrentIndex;
use crate::tags::{TagIndex, TagEntry, tag_views, TagView, tag_entries, lowercase, to_lower, contains_text, contains_chars};
use crate::links::{LinkEntry, LinkView, entries_at, link_views};
use crate::dates::{DateIndex, DateEntry, date_entries, date_views, note_date};
use crate::paths::{join_path, join_path_of, render, is_rooted, key_parts, stem_of, key_split, render_state, name_stem, views};
use crate::order::{lex_lt, in_order, lemma_in_order, strictly_sorted, text_key, texts, sorted_texts, sort_by_key, sorted_by_key, lemma_same_elements};

verus! {

/// A parsed query.
#[derive(Debug, PartialEq)]
pub enum QueryExpr {
    Tag(String),
    Date(String),
    Link(String),
    Before(String),
    After(String),
    Content(String),
    Text(String),
    And(Box<QueryExpr>, Box<QueryExpr>),
    Or(Box<QueryExpr>, Box<QueryExpr>),
    Not(Box<QueryExpr>),
}

/// A query as plain values.
pub ghost enum Query {
    Tag(Seq<char>),
    Date(Seq<char>),
    Link(Seq<char>),
    Before(Seq<char>),
    After(Seq<char>),
    Content(Seq<char>),
    Text(Seq<char>),
    And(Box<Query>, Box<Query>),
    Or(Box<Query>, Box<Query>),
    Not(Box<Query>),
}

/// The query as plain values.
pub open spec fn query_view(q: QueryExpr) -> Query
    decreases q,
{
    match q {
        QueryExpr::Tag(s) => Query::Tag(s@),
        QueryExpr::Date(s) => Query::Date(s@),
        QueryExpr::Link(s) => Query::Link(s@),
        QueryExpr::Before(s) => Query::Before(s@),
        QueryExpr::After(s) => Query::After(s@),
        QueryExpr::Content(s) => Query::Content(s@),
        QueryExpr::Text(s) => Query::Text(s@),
        QueryExpr::And(a, b) => Query::And(Box::new(query_view(*a)), Box::new(query_view(*b))),
        QueryExpr::Or(a, b) => Query::Or(Box::new(query_view(*a)), Box::new(query_view(*b))),
        QueryExpr::Not(a) => Query::Not(Box::new(query_view(*a))),
    }
}

/// A line of ripgrep's output: file, line and column numbers, the line.
#[derive(Debug)]
pub struct SearchResult {
    pub path: String,
    pub line: u32,
    pub column: u32,
    pub line_content: String,
}

/// A search hit as plain values: path, line, column, line text.
pub type HitView = (Seq<char>, nat, nat, Seq<char>);

impl View for SearchResult {
    type V = HitView;

    open spec fn view(&self) -> HitView {
        (self.path@, self.line as nat, self.column as nat, self.line_content@)
    }
}

/// Is `c` white space (Unicode's White_Space property, as std's
/// `char::is_whitespace`)?
pub open spec fn is_space(c: char) -> bool {
    ('\u{9}' <= c <= '\u{d}') || c == ' ' || c == '\u{85}' || c == '\u{a0}' || c == '\u{1680}'
        || ('\u{2000}' <= c <= '\u{200a}') || c == '\u{2028}' || c == '\u{2029}' || c == '\u{202f}'
        || c == '\u{205f}' || c == '\u{3000}'
}

fn is_space_exec(c: char) -> (r: bool)
    ensures
        r == is_space(c),
{
    ('\u{9}' <= c && c <= '\u{d}') || c == ' ' || c == '\u{85}' || c == '\u{a0}' || c == '\u{1680}'
        || ('\u{2000}' <= c && c <= '\u{200a}') || c == '\u{2028}' || c == '\u{2029}' || c == '\u{202f}'
        || c == '\u{205f}' || c == '\u{3000}'
}

/// `acc` with the word `w` appended, unless it is empty.
pub open spec fn keep_word(acc: Seq<Seq<char>>, w: Seq<char>) -> Seq<Seq<char>> {
    if w.len() == 0 {
        acc
    } else {
        acc.push(w)
    }
}

/// The words of `s` from position `i` on, `cur` being the word read so far
/// and `acc` the words before it.
pub open spec fn words_from(s: Seq<char>, i: int, cur: Seq<char>, acc: Seq<Seq<char>>) -> Seq<Seq<char>>
    decreases s.len() - i,
{
    if i >= s.len() {
        keep_word(acc, cur)
    } else if is_space(s[i]) {
        words_from(s, i + 1, seq![], keep_word(acc, cur))
    } else {
        words_from(s, i + 1, cur.push(s[i]), acc)
    }
}

/// The words of `s`: its maximal runs of characters that are not white
/// space.
pub open spec fn words(s: Seq<char>) -> Seq<Seq<char>> {
    words_from(s, 0, seq![], seq![])
}

/// The query one word stands for: a filter by its prefix, else the word as
/// text.
pub open spec fn token_query(t: Seq<char>) -> Query {
    if seq!['t', 'a', 'g', ':'].is_prefix_of(t) {
        Query::Tag(t.skip(4))
    } else if seq!['d', 'a', 't', 'e', ':'].is_prefix_of(t) {
        Query::Date(t.skip(5))
    } else if seq!['l', 'i', 'n', 'k', ':'].is_prefix_of(t) {
        Query::Link(t.skip(5))
    } else if seq!['b', 'e', 'f', 'o', 'r', 'e', ':'].is_prefix_of(t) {
        Query::Before(t.skip(7))
    } else if seq!['a', 'f', 't', 'e', 'r', ':'].is_prefix_of(t) {
        Query::After(t.skip(6))
    } else if seq!['c', 'o', 'n', 't', 'e', 'n', 't', ':'].is_prefix_of(t) {
        Query::Content(t.skip(8))
    } else {
        Query::Text(t)
    }
}

/// The words' queries, all required, grouped from the left.
pub open spec fn all_of(ws: Seq<Seq<char>>) -> Query
    decreases ws.len(),
{
    if ws.len() <= 1 {
        token_query(ws[0])
    } else {
        Query::And(Box::new(all_of(ws.drop_last())), Box::new(token_query(ws.last())))
    }
}

/// The query written `s`: the empty text for no word, else all its words'
/// queries.
pub open spec fn query_of(s: Seq<char>) -> Query {
    if words(s).len() == 0 {
        Query::Text(seq![])
    } else {
        all_of(words(s))
    }
}

/// Does `p` start `t`?
fn starts_with_chars(t: &Vec<char>, p: &[char]) -> (r: bool)
    ensures
        r == p@.is_prefix_of(t@),
{
    if p.len() > t.len() {
        return false;
    }
    let mut i: usize = 0;
    while i < p.len()
        invariant
            p@.len() <= t@.len(),
            i <= p@.len(),
            forall|j: int| 0 <= j < i ==> p@[j] == t@[j],
        decreases p@.len() - i,
    {
        if p[i] != t[i] {
            assert(t@.subrange(0, p@.len() as int)[i as int] == t@[i as int]);
            return false;
        }
        i = i + 1;
    }
    assert(t@.subrange(0, p@.len() as int) =~= p@);
    true
}

/// The characters of `t` from `n` on, as text.
fn rest_of(t: &Vec<char>, n: usize) -> (r: String)
    requires
        n <= t@.len(),
    ensures
        r@ == t@.skip(n as int),
{
    let mut v: Vec<char> = Vec::new();
    let mut i = n;
    while i < t.len()
        invariant
            n <= i <= t@.len(),
            v@ == t@.subrange(n as int, i as int),
        decreases t@.len() - i,
    {
        v.push(t[i]);
        assert(t@.subrange(n as int, i + 1) =~= t@.subrange(n as int, i as int).push(t@[i as int]));
        i = i + 1;
    }
    assert(t@.subrange(n as int, t@.len() as int) =~= t@.skip(n as int));
    string_of(&v)
}

fn token_query_exec(t: &Vec<char>) -> (r: QueryExpr)
    ensures
        query_view(r) == token_query(t@),
{
    let tag = ['t', 'a', 'g', ':'];
    let date = ['d', 'a', 't', 'e', ':'];
    let link = ['l', 'i', 'n', 'k', ':'];
    let before = ['b', 'e', 'f', 'o', 'r', 'e', ':'];
    let after = ['a', 'f', 't', 'e', 'r', ':'];
    let content = ['c', 'o', 'n', 't', 'e', 'n', 't', ':'];
    assert(tag@ =~= seq!['t', 'a', 'g', ':']);
    assert(date@ =~= seq!['d', 'a', 't', 'e', ':']);
    assert(link@ =~= seq!['l', 'i', 'n', 'k', ':']);
    assert(before@ =~= seq!['b', 'e', 'f', 'o', 'r', 'e', ':']);
    assert(after@ =~= seq!['a', 'f', 't', 'e', 'r', ':']);
    assert(content@ =~= seq!['c', 'o', 'n', 't', 'e', 'n', 't', ':']);
    if starts_with_chars(t, &tag) {
        QueryExpr::Tag(rest_of(t, 4))
    } else if starts_with_chars(t, &date) {
        QueryExpr::Date(rest_of(t, 5))
    } else if starts_with_chars(t, &link) {
        QueryExpr::Link(rest_of(t, 5))
    } else if starts_with_chars(t, &before) {
        QueryExpr::Before(rest_of(t, 7))
    } else if starts_with_chars(t, &after) {
        QueryExpr::After(rest_of(t, 6))
    } else if starts_with_chars(t, &content) {
        QueryExpr::Content(rest_of(t, 8))
    } else {
        QueryExpr::Text(string_of(t))
    }
}

/// The query one word stands for: `tag:`, `date:`, `link:`, `before:`,
/// `after:` and `content:` filter by what follows the prefix; any other
/// word is text to look for.
pub fn parse_single_token(token: &str) -> (r: QueryExpr)
    ensures
        query_view(r) == token_query(token@),
{
    let t = chars_of(token);
    token_query_exec(&t)
}

/// The words of `s` (see [`words`]).
fn split_words(s: &Vec<char>) -> (r: Vec<Vec<char>>)
    ensures
        crate::paths::views(r@) == words(s@),
{
    let mut acc: Vec<Vec<char>> = Vec::new();
    let mut cur: Vec<char> = Vec::new();
    let mut i: usize = 0;
    assert(cur@ =~= seq![]);
    assert(crate::paths::views(acc@) =~= seq![]);
    while i < s.len()
        invariant
            i <= s@.len(),
            words_from(s@, i as int, cur@, crate::paths::views(acc@)) == words(s@),
        decreases s@.len() - i,
    {
        if is_space_exec(s[i]) {
            let w = cur;
            cur = Vec::new();
            assert(cur@ =~= seq![]);
            if w.len() > 0 {
                let ghost before = crate::paths::views(acc@);
                acc.push(w);
                assert(crate::paths::views(acc@) =~= before.push(w@));
            }
        } else {
            cur.push(s[i]);
        }
        i = i + 1;
    }
    if cur.len() > 0 {
        let ghost before = crate::paths::views(acc@);
        let w = cur;
        acc.push(w);
        assert(crate::paths::views(acc@) =~= before.push(w@));
    }
    acc
}

/// The query written `input`: its words, separated by white space, each
/// read by [`parse_single_token`], all required (grouped from the left);
/// no word at all is the empty text.
pub fn parse_query(input: &str) -> (r: QueryExpr)
    ensures
        query_view(r) == query_of(input@),
{
    let s = chars_of(input);
    let ws = split_words(&s);
    let ghost wv = crate::paths::views(ws@);
    if ws.len() == 0 {
        return QueryExpr::Text(String::new());
    }
    let mut expr = token_query_exec(&ws[0]);
    assert(wv.take(1).drop_last() =~= seq![]);
    assert(wv.take(1)[0] == ws@[0]@);
    let mut i: usize = 1;
    while i < ws.len()
        invariant
            1 <= i <= ws@.len(),
            wv == crate::paths::views(ws@),
            query_view(expr) == all_of(wv.take(i as int)),
        decreases ws@.len() - i,
    {
        let next = token_query_exec(&ws[i]);
        expr = QueryExpr::And(Box::new(expr), Box::new(next));
        proof {
            assert(wv.take(i + 1).drop_last() =~= wv.take(i as int));
            assert(wv.take(i + 1).last() == ws@[i as int]@);
        }
        i = i + 1;
    }
    assert(wv.take(wv.len() as int) =~= wv);
    expr
}

/// Position of the first `:` at or after `p`, or -1.
pub open spec fn colon_from(b: Seq<u8>, p: int) -> int
    decreases b.len() - p,
{
    if p < 0 || p >= b.len() {
        -1
    } else if b[p] == 58u8 {
        p
    } else {
        colon_from(b, p + 1)
    }
}

/// How a line of ripgrep's output reads (`path:line:column:text`): the
/// positions of its first three colons and the two numbers, if it has
/// three colons and both numbers fit a `u32`.
pub open spec fn rg_fields(b: Seq<u8>) -> Option<(int, int, int, nat, nat)> {
    let c1 = colon_from(b, 0);
    let c2 = colon_from(b, c1 + 1);
    let c3 = colon_from(b, c2 + 1);
    if c1 < 0 || c2 < 0 || c3 < 0 {
        None
    } else {
        match (parse_num(b, c1 + 1, c2, u32::MAX as nat), parse_num(b, c2 + 1, c3, u32::MAX as nat)) {
            (Ok(line), Ok(col)) => Some((c1, c2, c3, line, col)),
            _ => None,
        }
    }
}

/// What a line of ripgrep's output reads as, if it reads as a hit.
pub open spec fn rg_view(line: Seq<char>) -> Option<HitView> {
    let b = encode_utf8(line);
    match rg_fields(b) {
        None => None,
        Some(f) => Some((decode_utf8(b.subrange(0, f.0)), f.3, f.4, decode_utf8(b.subrange(f.2 + 1, b.len() as int)))),
    }
}

proof fn lemma_colon_from(b: Seq<u8>, p: int)
    requires
        0 <= p,
    ensures
        colon_from(b, p) == -1 || (p <= colon_from(b, p) < b.len() && b[colon_from(b, p)] == 58u8),
    decreases b.len() - p,
{
    if p < b.len() && b[p] != 58u8 {
        lemma_colon_from(b, p + 1);
    }
}

fn colon_exec(b: &[u8], p: usize) -> (r: Option<usize>)
    requires
        p <= b@.len(),
    ensures
        r matches Some(c) ==> c as int == colon_from(b@, p as int),
        r is None ==> colon_from(b@, p as int) == -1,
{
    let mut q = p;
    while q < b.len()
        invariant
            p <= q <= b@.len(),
            colon_from(b@, p as int) == colon_from(b@, q as int),
        decreases b@.len() - q,
    {
        if b[q] == 58 {
            return Some(q);
        }
        q = q + 1;
    }
    None
}

/// Reads one line of ripgrep's output, `path:line:column:text`: `None`
/// when it has fewer than three colons or a number is not a `u32`.
pub fn parse_rg_line(line: &str) -> (r: Option<SearchResult>)
    ensures
        match rg_fields(line.spec_bytes()) {
            None => r is None,
            Some(f) => r matches Some(x) && x.path@ == decode_utf8(line.spec_bytes().subrange(0, f.0))
                && x.line == f.3 && x.column == f.4
                && x.line_content@ == decode_utf8(line.spec_bytes().subrange(f.2 + 1, line.spec_bytes().len() as int)),
        },
        match r {
            Some(x) => rg_view(line@) == Some(x@),
            None => rg_view(line@) is None,
        },
{
    let b = line.as_bytes();
    proof {
        encode_utf8_valid_utf8(line@);
    }
    proof {
        lemma_colon_from(b@, 0);
    }
    let c1 = match colon_exec(b, 0) {
        Some(c) => c,
        None => return None,
    };
    let n = b.len();
    assert(c1 < n);
    proof {
        lemma_colon_from(b@, c1 + 1);
    }
    let c2 = match colon_exec(b, c1 + 1) {
        Some(c) => c,
        None => return None,
    };
    assert(c2 < n);
    proof {
        lemma_colon_from(b@, c2 + 1);
    }
    let c3 = match colon_exec(b, c2 + 1) {
        Some(c) => c,
        None => return None,
    };
    let line_no = match parse_num_exec(b, c1 + 1, c2, 0xffff_ffff) {
        Ok(v) => v,
        Err(_) => return None,
    };
    let col = match parse_num_exec(b, c2 + 1, c3, 0xffff_ffff) {
        Ok(v) => v,
        Err(_) => return None,
    };
    proof {
        lemma_ascii_boundary(b@, c1 as int);
        lemma_ascii_boundary(b@, c3 as int);
        is_char_boundary_start_end_of_seq(b@);
    }
    let path = substring(b, 0, c1);
    let content = substring(b, c3 + 1, b.len());
    Some(SearchResult { path, line: line_no as u32, column: col as u32, line_content: content })
}

/// A line without the `\r` of a `\r\n` ending.
pub open spec fn strip_cr(line: Seq<char>) -> Seq<char> {
    if line.len() > 0 && line.last() == '\r' {
        line.drop_last()
    } else {
        line
    }
}

/// The lines of `s` from position `i` on, after the finished lines `acc`
/// and the line `cur` begun before `i` (std's `str::lines`: split at `\n`,
/// a `\r` before it dropped, the last line ending optional).
pub open spec fn lines_from(s: Seq<char>, i: int, cur: Seq<char>, acc: Seq<Seq<char>>) -> Seq<Seq<char>>
    decreases s.len() - i,
{
    if i < 0 || i >= s.len() {
        if cur.len() == 0 { acc } else { acc.push(cur) }
    } else if s[i] == '\n' {
        lines_from(s, i + 1, seq![], acc.push(strip_cr(cur)))
    } else {
        lines_from(s, i + 1, cur.push(s[i]), acc)
    }
}

/// The lines of `s`.
pub open spec fn lines_of(s: Seq<char>) -> Seq<Seq<char>> {
    lines_from(s, 0, seq![], seq![])
}

/// The hits that the lines `ls` read as, in order; the other lines are
/// passed over.
pub open spec fn rg_hits(ls: Seq<Seq<char>>) -> Seq<HitView>
    decreases ls.len(),
{
    if ls.len() == 0 {
        seq![]
    } else {
        match rg_view(ls.last()) {
            Some(h) => rg_hits(ls.drop_last()).push(h),
            None => rg_hits(ls.drop_last()),
        }
    }
}

/// The hits as plain values.
pub open spec fn hit_views(v: Seq<SearchResult>) -> Seq<HitView> {
    Seq::new(v.len(), |i: int| v[i]@)
}

/// Adds the hit that `line` reads as, if any, to `out`.
fn keep_hit(out: &mut Vec<SearchResult>, line: &Vec<char>, Ghost(acc): Ghost<Seq<Seq<char>>>)
    requires
        hit_views(old(out)@) == rg_hits(acc),
    ensures
        hit_views(final(out)@) == rg_hits(acc.push(line@)),
{
    let text = string_of(line.as_slice());
    let ghost before = hit_views(out@);
    assert(acc.push(line@).drop_last() =~= acc);
    match parse_rg_line(text.as_str()) {
        Some(h) => {
            out.push(h);
            assert(hit_views(out@) =~= before.push(h@));
        },
        None => {},
    }
}

/// Reads ripgrep's output (`--line-number --column --no-heading`): the
/// hits of its lines, in order, passing over lines that do not read as
/// one.
pub fn parse_rg_output(output: &str) -> (r: Vec<SearchResult>)
    ensures
        hit_views(r@) == rg_hits(lines_of(output@)),
{
    let s = chars_of(output);
    let mut out: Vec<SearchResult> = Vec::new();
    let mut cur: Vec<char> = Vec::new();
    let ghost mut acc: Seq<Seq<char>> = seq![];
    assert(hit_views(out@) =~= seq![]);
    let mut i: usize = 0;
    while i < s.len()
        invariant
            i <= s@.len(),
            s@ == output@,
            lines_of(s@) == lines_from(s@, i as int, cur@, acc),
            hit_views(out@) == rg_hits(acc),
        decreases s@.len() - i,
    {
        if s[i] == '\n' {
            if cur.len() > 0 && cur[cur.len() - 1] == '\r' {
                cur.pop();
            }
            keep_hit(&mut out, &cur, Ghost(acc));
            proof {
                acc = acc.push(cur@);
            }
            cur = Vec::new();
            assert(cur@ =~= seq![]);
        } else {
            cur.push(s[i]);
        }
        i = i + 1;
    }
    if cur.len() > 0 {
        keep_hit(&mut out, &cur, Ghost(acc));
    }
    out
}

/// The components with the file name's extension set to `md` (std's
/// `with_extension`): the stem of the last component followed by `.md`,
/// unless there is no file name.
pub open spec fn with_md(parts: Seq<Seq<char>>) -> Seq<Seq<char>> {
    if parts.len() == 0 || parts.last() == seq!['.', '.'] || parts.last() == seq!['.'] {
        parts
    } else {
        parts.drop_last().push(stem_of(parts.last()) + seq!['.', 'm', 'd'])
    }
}

/// The target key a `link:` query for `name` looks up.
pub open spec fn link_query_key(vault: Seq<char>, name: Seq<char>) -> Seq<char> {
    render((is_rooted(join_path(vault, name)), with_md(key_parts(join_path(vault, name)))))
}

/// The paths of the entries.
pub open spec fn entry_paths(es: Seq<TagView>) -> Seq<Seq<char>> {
    Seq::new(es.len(), |i: int| es[i].0)
}

/// The sources of the links.
pub open spec fn link_sources(es: Seq<LinkView>) -> Seq<Seq<char>> {
    Seq::new(es.len(), |i: int| es[i].0)
}

/// The full-text hits of the word `w` in the table `t` (word, paths): those
/// of its first row for `w`, none if there is none.
pub open spec fn hits_from(t: Seq<(Seq<char>, Seq<Seq<char>>)>, w: Seq<char>, i: int) -> Seq<Seq<char>>
    decreases t.len() - i,
{
    if i < 0 || i >= t.len() {
        seq![]
    } else if t[i].0 == w {
        t[i].1
    } else {
        hits_from(t, w, i + 1)
    }
}

/// The table of full-text hits as plain values.
pub open spec fn hit_table(v: Seq<(String, Vec<String>)>) -> Seq<(Seq<char>, Seq<Seq<char>>)> {
    Seq::new(v.len(), |i: int| (v[i].0@, texts(v[i].1@)))
}

/// The ordering key of a date: year, month, day.
pub open spec fn date_key(d: Date) -> Seq<i64> {
    seq![d.year as i64, d.month as i64, d.day as i64]
}

/// The notes of the dates `ds` whose ISO text contains `s`, date after date.
pub open spec fn date_hits(m: Map<Date, Seq<TagView>>, ds: Seq<Date>, s: Seq<char>) -> Seq<Seq<char>>
    decreases ds.len(),
{
    if ds.len() == 0 {
        seq![]
    } else {
        date_hits(m, ds.drop_last(), s) + if contains_text(iso_date(ds.last()), s) {
            entry_paths(date_entries(m, ds.last()))
        } else {
            seq![]
        }
    }
}

/// The elements of `l` that `r` holds, in order.
pub open spec fn keep_in(l: Seq<Seq<char>>, r: Seq<Seq<char>>) -> Seq<Seq<char>>
    decreases l.len(),
{
    if l.len() == 0 {
        l
    } else if r.contains(l.last()) {
        keep_in(l.drop_last(), r).push(l.last())
    } else {
        keep_in(l.drop_last(), r)
    }
}

/// The elements of `l` that `r` does not hold, in order.
pub open spec fn drop_in(l: Seq<Seq<char>>, r: Seq<Seq<char>>) -> Seq<Seq<char>>
    decreases l.len(),
{
    if l.len() == 0 {
        l
    } else if r.contains(l.last()) {
        drop_in(l.drop_last(), r)
    } else {
        drop_in(l.drop_last(), r).push(l.last())
    }
}

/// Every note that carries a tag.
pub open spec fn tagged_notes(m: Map<Seq<char>, Seq<TagView>>) -> Set<Seq<char>> {
    Set::new(|p: Seq<char>| exists|k: Seq<char>, i: int| m.contains_key(k) && 0 <= i < m[k].len() && #[trigger] m[k][i].0 == p)
}

/// The notes a query finds, given the tag, target and date maps of the
/// index, the vault's path and the full-text hits of each lower-cased word.
pub open spec fn query_result(
    tags: Map<Seq<char>, Seq<TagView>>,
    targets: Map<Seq<char>, Seq<LinkView>>,
    dates: Map<Date, Seq<TagView>>,
    vault: Seq<char>,
    hits: Seq<(Seq<char>, Seq<Seq<char>>)>,
    q: Query,
) -> Seq<Seq<char>>
    decreases q,
{
    match q {
        Query::Text(w) => hits_from(hits, lowercase(w), 0),
        Query::Tag(t) => entry_paths(tag_entries(tags, t)),
        Query::Link(t) => link_sources(entries_at(targets, link_query_key(vault, t))),
        Query::Date(s) => date_hits(dates, in_order(dates.dom(), |d: Date| date_key(d)), s),
        Query::And(a, b) => keep_in(
            query_result(tags, targets, dates, vault, hits, *a),
            query_result(tags, targets, dates, vault, hits, *b),
        ),
        Query::Or(a, b) => in_order(
            (query_result(tags, targets, dates, vault, hits, *a) + query_result(tags, targets, dates, vault, hits, *b)).to_set(),
            |t: Seq<char>| text_key(t),
        ),
        Query::Not(a) => drop_in(
            in_order(tagged_notes(tags), |t: Seq<char>| text_key(t)),
            query_result(tags, targets, dates, vault, hits, *a),
        ),
        _ => seq![],
    }
}

/// Does one of `v` have the text of `x`?
fn text_in(v: &Vec<String>, x: &String) -> (r: bool)
    ensures
        r == texts(v@).contains(x@),
{
    let mut i: usize = 0;
    while i < v.len()
        invariant
            i <= v@.len(),
            forall|j: int| 0 <= j < i ==> v@[j]@ != x@,
        decreases v@.len() - i,
    {
        if v[i] == *x {
            assert(texts(v@)[i as int] == x@);
            return true;
        }
        i = i + 1;
    }
    proof {
        if texts(v@).contains(x@) {
            let j = choose|j: int| 0 <= j < texts(v@).len() && texts(v@)[j] == x@;
            assert(v@[j]@ == x@);
        }
    }
    false
}

/// The strings of `l` whose text `r` holds (`keep`) or does not hold.
fn filter_by(l: &Vec<String>, r: &Vec<String>, keep: bool) -> (out: Vec<String>)
    ensures
        texts(out@) == if keep { keep_in(texts(l@), texts(r@)) } else { drop_in(texts(l@), texts(r@)) },
{
    let mut out: Vec<String> = Vec::new();
    let mut i: usize = 0;
    while i < l.len()
        invariant
            i <= l@.len(),
            texts(out@) == if keep { keep_in(texts(l@).take(i as int), texts(r@)) } else { drop_in(texts(l@).take(i as int), texts(r@)) },
        decreases l@.len() - i,
    {
        let inside = text_in(r, &l[i]);
        let ghost before = texts(out@);
        proof {
            assert(texts(l@).take(i + 1).drop_last() =~= texts(l@).take(i as int));
            assert(texts(l@).take(i + 1).last() == l@[i as int]@);
        }
        if inside == keep {
            out.push(l[i].clone());
            assert(texts(out@) =~= before.push(l@[i as int]@));
        }
        i = i + 1;
    }
    assert(texts(l@).take(l@.len() as int) =~= texts(l@));
    out
}

/// The target key a `link:` query for `name` looks up (see
/// [`link_query_key`]).
fn link_query_key_of(vault: &str, name: &str) -> (r: String)
    ensures
        r@ == link_query_key(vault@, name@),
{
    let whole = join_path_of(vault, name);
    let (rooted, mut parts) = key_split(whole.as_str());
    let n = parts.len();
    if n > 0 {
        let last = &parts[n - 1];
        let special = (last.len() == 2 && last[0] == '.' && last[1] == '.') || (last.len() == 1 && last[0] == '.');
        proof {
            if last@ == seq!['.', '.'] {
                assert(last@.len() == 2 && last@[0] == '.' && last@[1] == '.');
            }
            if last@ == seq!['.'] {
                assert(last@.len() == 1 && last@[0] == '.');
            }
            if special {
                if last@.len() == 2 {
                    assert(last@ =~= seq!['.', '.']);
                } else {
                    assert(last@ =~= seq!['.']);
                }
            }
        }
        if !special {
            let mut stem = name_stem(last);
            stem.push('.');
            stem.push('m');
            stem.push('d');
            let ghost before = views(parts@);
            assert(before.last() == last@);
            assert(stem@ =~= stem_of(before.last()) + seq!['.', 'm', 'd']);
            let ghost expect = before.drop_last().push(stem@);
            parts.set(n - 1, stem);
            assert(views(parts@) =~= expect);
        }
    }
    let text = render_state(rooted, &parts);
    string_of(&text)
}

/// The full-text hits of the word `w` in `hits` (see [`hits_from`]).
fn hits_for(hits: &Vec<(String, Vec<String>)>, w: &String) -> (r: Vec<String>)
    ensures
        texts(r@) == hits_from(hit_table(hits@), w@, 0),
{
    let mut i: usize = 0;
    while i < hits.len()
        invariant
            i <= hits@.len(),
            hits_from(hit_table(hits@), w@, 0) == hits_from(hit_table(hits@), w@, i as int),
        decreases hits@.len() - i,
    {
        if hits[i].0 == *w {
            let mut out: Vec<String> = Vec::new();
            let mut j: usize = 0;
            let row = &hits[i].1;
            while j < row.len()
                invariant
                    j <= row@.len(),
                    texts(out@) == texts(row@).take(j as int),
                decreases row@.len() - j,
            {
                let ghost before = texts(out@);
                let s = row[j].clone();
                out.push(s);
                assert(texts(out@) =~= before.push(s@));
                assert(texts(out@) =~= texts(row@).take(j + 1));
                j = j + 1;
            }
            assert(texts(row@).take(j as int) =~= texts(row@));
            return out;
        }
        i = i + 1;
    }
    let out: Vec<String> = Vec::new();
    assert(texts(out@) =~= seq![]);
    out
}

/// The paths of the tag entries `es`.
fn tag_paths(es: &Vec<TagEntry>) -> (r: Vec<String>)
    ensures
        texts(r@) == entry_paths(tag_views(es@)),
{
    let mut r: Vec<String> = Vec::new();
    let mut i: usize = 0;
    while i < es.len()
        invariant
            i <= es@.len(),
            texts(r@) == entry_paths(tag_views(es@)).take(i as int),
        decreases es@.len() - i,
    {
        let ghost before = texts(r@);
        let p = es[i].path.clone();
        r.push(p);
        assert(texts(r@) =~= before.push(p@));
        assert(texts(r@) =~= entry_paths(tag_views(es@)).take(i + 1));
        i = i + 1;
    }
    assert(entry_paths(tag_views(es@)).take(i as int) =~= entry_paths(tag_views(es@)));
    r
}

/// The paths of the date entries `es`.
fn date_paths(es: &Vec<DateEntry>) -> (r: Vec<String>)
    ensures
        texts(r@) == entry_paths(date_views(es@)),
{
    let mut r: Vec<String> = Vec::new();
    let mut i: usize = 0;
    while i < es.len()
        invariant
            i <= es@.len(),
            texts(r@) == entry_paths(date_views(es@)).take(i as int),
        decreases es@.len() - i,
    {
        let ghost before = texts(r@);
        let p = es[i].path.clone();
        r.push(p);
        assert(texts(r@) =~= before.push(p@));
        assert(texts(r@) =~= entry_paths(date_views(es@)).take(i + 1));
        i = i + 1;
    }
    assert(entry_paths(date_views(es@)).take(i as int) =~= entry_paths(date_views(es@)));
    r
}

/// The sources of the links `es`.
fn link_paths(es: &Vec<LinkEntry>) -> (r: Vec<String>)
    ensures
        texts(r@) == link_sources(link_views(es@)),
{
    let mut r: Vec<String> = Vec::new();
    let mut i: usize = 0;
    while i < es.len()
        invariant
            i <= es@.len(),
            texts(r@) == link_sources(link_views(es@)).take(i as int),
        decreases es@.len() - i,
    {
        let ghost before = texts(r@);
        let p = es[i].source.clone();
        r.push(p);
        assert(texts(r@) =~= before.push(p@));
        assert(texts(r@) =~= link_sources(link_views(es@)).take(i + 1));
        i = i + 1;
    }
    assert(link_sources(link_views(es@)).take(i as int) =~= link_sources(link_views(es@)));
    r
}

/// Appends the strings of `more` to `out`.
fn append_all(out: &mut Vec<String>, more: &Vec<String>)
    ensures
        texts(final(out)@) == texts(old(out)@) + texts(more@),
{
    let ghost start = texts(out@);
    let mut i: usize = 0;
    while i < more.len()
        invariant
            i <= more@.len(),
            texts(out@) == start + texts(more@).take(i as int),
        decreases more@.len() - i,
    {
        let ghost before = texts(out@);
        let p = more[i].clone();
        out.push(p);
        assert(texts(out@) =~= before.push(p@));
        assert(texts(out@) =~= start + texts(more@).take(i + 1));
        i = i + 1;
    }
    assert(texts(more@).take(i as int) =~= texts(more@));
}

/// Dates with the same key are the same date.
proof fn lemma_date_key_injective(a: Date, b: Date)
    requires
        date_key(a) =~= date_key(b),
    ensures
        a == b,
{
    assert(date_key(a)[0] == date_key(b)[0]);
    assert(date_key(a)[1] == date_key(b)[1]);
    assert(date_key(a)[2] == date_key(b)[2]);
}

/// The dates of `rows`, distinct as they are, in calendar order.
#[verifier::spinoff_prover]
#[verifier::rlimit(40)]
fn dates_in_order(rows: &Vec<(Date, Vec<DateEntry>)>) -> (r: Vec<Date>)
    requires
        forall|i: int, j: int| 0 <= i < j < rows@.len() ==> rows@[i].0 != rows@[j].0,
    ensures
        strictly_sorted(r@, |d: Date| date_key(d)),
        forall|d: Date| r@.contains(d) <==> exists|i: int| 0 <= i < rows@.len() && #[trigger] rows@[i].0 == d,
{
    let mut keyed: Vec<(Vec<i64>, Date)> = Vec::new();
    let mut i: usize = 0;
    while i < rows.len()
        invariant
            i <= rows@.len(),
            keyed@.len() == i,
            forall|j: int| 0 <= j < i ==> #[trigger] keyed@[j].1 == rows@[j].0 && keyed@[j].0@ == date_key(rows@[j].0),
        decreases rows@.len() - i,
    {
        let d = rows[i].0;
        let k: Vec<i64> = vec![d.year as i64, d.month as i64, d.day as i64];
        assert(k@ =~= date_key(d));
        keyed.push((k, d));
        i = i + 1;
    }
    let ghost pairs = keyed@;
    proof {
        assert(pairs.no_duplicates()) by {
            assert forall|a: int, b: int| 0 <= a < pairs.len() && 0 <= b < pairs.len() && a != b implies pairs[a] != pairs[b] by {
                assert(pairs[a].1 == rows@[a].0);
                assert(pairs[b].1 == rows@[b].0);
                if a < b {
                    assert(rows@[a].0 != rows@[b].0);
                } else {
                    assert(rows@[b].0 != rows@[a].0);
                }
            }
        }
    }
    let sorted = sort_by_key(keyed);
    proof {
        lemma_same_elements(pairs, sorted@);
        assert forall|t: int| 0 <= t < sorted@.len() implies #[trigger] sorted@[t].0@ == date_key(sorted@[t].1) by {
            assert(pairs.contains(sorted@[t]));
            let q = choose|q: int| 0 <= q < pairs.len() && pairs[q] == sorted@[t];
            assert(pairs[q].1 == rows@[q].0);
        }
    }
    let mut out: Vec<Date> = Vec::new();
    let mut j: usize = 0;
    while j < sorted.len()
        invariant
            j <= sorted@.len(),
            out@.len() == j,
            forall|t: int| 0 <= t < j ==> #[trigger] out@[t] == sorted@[t].1,
        decreases sorted@.len() - j,
    {
        out.push(sorted[j].1);
        j = j + 1;
    }
    proof {
        let key = |d: Date| date_key(d);
        assert forall|a: int, b: int| 0 <= a < b < out@.len() implies lex_lt(key(#[trigger] out@[a]), key(#[trigger] out@[b])) by {
            assert(!lex_lt(sorted@[b].0@, sorted@[a].0@));
            assert(sorted@[a] != sorted@[b]);
            if !lex_lt(date_key(out@[a]), date_key(out@[b])) {
                crate::order::lemma_lex_total(date_key(out@[a]), date_key(out@[b]), 0);
                assert(date_key(out@[a]) =~= date_key(out@[b]));
                lemma_date_key_injective(out@[a], out@[b]);
                assert(sorted@[a] == sorted@[b]);
            }
        }
        assert forall|d: Date| out@.contains(d) implies exists|i: int| 0 <= i < rows@.len() && #[trigger] rows@[i].0 == d by {
            let t = choose|t: int| 0 <= t < out@.len() && out@[t] == d;
            assert(pairs.contains(sorted@[t]));
            let q = choose|q: int| 0 <= q < pairs.len() && pairs[q] == sorted@[t];
            assert(rows@[q].0 == d);
        }
        assert forall|d: Date| (exists|i: int| 0 <= i < rows@.len() && #[trigger] rows@[i].0 == d) implies out@.contains(d) by {
            let q = choose|q: int| 0 <= q < rows@.len() && #[trigger] rows@[q].0 == d;
            assert(pairs[q].1 == d);
            assert(sorted@.contains(pairs[q]));
            let t = choose|t: int| 0 <= t < sorted@.len() && sorted@[t] == pairs[q];
            assert(out@[t] == d);
        }
    }
    out
}

/// Every indexed note (every note that carries a tag in `index`), each
/// once, in text order.
#[verifier::spinoff_prover]
#[verifier::rlimit(40)]
fn all_indexed_files(index: &TagIndex) -> (r: Vec<String>)
    ensures
        texts(r@) == in_order(tagged_notes(index.tags()), |t: Seq<char>| text_key(t)),
{
    let rows = index.iter();
    let ghost m = index.tags();
    let mut flat: Vec<String> = Vec::new();
    let mut k: usize = 0;
    while k < rows.len()
        invariant
            k <= rows@.len(),
            forall|p: Seq<char>| texts(flat@).contains(p) <==> exists|i: int, j: int|
                0 <= i < k && 0 <= j < rows@[i].1@.len() && #[trigger] rows@[i].1@[j].path@ == p,
        decreases rows@.len() - k,
    {
        let ghost before = texts(flat@);
        let more = tag_paths(&rows[k].1);
        append_all(&mut flat, &more);
        proof {
            let es = rows@[k as int].1@;
            assert(texts(more@) == entry_paths(tag_views(es)));
            assert forall|p: Seq<char>| texts(flat@).contains(p) implies exists|i: int, j: int|
                0 <= i < k + 1 && 0 <= j < rows@[i].1@.len() && #[trigger] rows@[i].1@[j].path@ == p by {
                let t = choose|t: int| 0 <= t < texts(flat@).len() && texts(flat@)[t] == p;
                if t < before.len() {
                    assert(before[t] == p);
                    assert(before.contains(p));
                } else {
                    let u = t - before.len();
                    assert(texts(more@)[u] == p);
                    assert(es[u].path@ == p);
                    assert(rows@[k as int].1@[u].path@ == p);
                }
            }
            assert forall|p: Seq<char>| (exists|i: int, j: int|
                0 <= i < k + 1 && 0 <= j < rows@[i].1@.len() && #[trigger] rows@[i].1@[j].path@ == p) implies texts(flat@).contains(p) by {
                let (i, j) = choose|i: int, j: int| 0 <= i < k + 1 && 0 <= j < rows@[i].1@.len() && #[trigger] rows@[i].1@[j].path@ == p;
                if i < k {
                    assert(before.contains(p));
                    let t = choose|t: int| 0 <= t < before.len() && before[t] == p;
                    assert(texts(flat@)[t] == p);
                } else {
                    assert(texts(more@)[j] == p);
                    assert(texts(flat@)[before.len() + j] == p);
                }
            }
        }
        k = k + 1;
    }
    let r = sorted_texts(flat);
    proof {
        let key = |t: Seq<char>| text_key(t);
        lemma_in_order(texts(r@), key);
        assert forall|p: Seq<char>| #[trigger] texts(r@).to_set().contains(p) <==> tagged_notes(m).contains(p) by {
            if texts(r@).to_set().contains(p) {
                assert(texts(flat@).to_set().contains(p));
                assert(texts(flat@).contains(p));
                let (i, j) = choose|i: int, j: int| 0 <= i < rows@.len() && 0 <= j < rows@[i].1@.len() && #[trigger] rows@[i].1@[j].path@ == p;
                let key_i = rows@[i].0@;
                assert(m.contains_key(key_i));
                assert(tag_views(rows@[i].1@) == m[key_i]);
                assert(m[key_i][j] == rows@[i].1@[j]@);
                assert(m[key_i][j].0 == p);
            }
            if tagged_notes(m).contains(p) {
                let (kk, j) = choose|kk: Seq<char>, j: int| m.contains_key(kk) && 0 <= j < m[kk].len() && #[trigger] m[kk][j].0 == p;
                let i = choose|i: int| 0 <= i < rows@.len() && #[trigger] rows@[i].0@ == kk;
                assert(tag_views(rows@[i].1@) == m[kk]);
                assert(rows@[i].1@[j]@ == m[kk][j]);
                assert(rows@[i].1@[j].path@ == p);
                assert(texts(flat@).contains(p));
                assert(texts(flat@).to_set().contains(p));
            }
        }
        assert(texts(r@).to_set() =~= tagged_notes(m));
    }
    r
}

/// The notes of the dates of `index` whose ISO text contains `pattern`,
/// date after date in calendar order.
#[verifier::spinoff_prover]
#[verifier::rlimit(40)]
fn date_query(index: &DateIndex, pattern: &str) -> (r: Vec<String>)
    requires
        index.wf(),
    ensures
        texts(r@) == date_hits(index.dates(), in_order(index.dates().dom(), |d: Date| date_key(d)), pattern@),
{
    let ghost m = index.dates();
    let rows = index.all_dates();
    let ds = dates_in_order(&rows);
    proof {
        let key = |d: Date| date_key(d);
        lemma_in_order(ds@, key);
        assert forall|d: Date| #[trigger] ds@.to_set().contains(d) <==> m.dom().contains(d) by {
            if ds@.to_set().contains(d) {
                assert(ds@.contains(d));
                let i = choose|i: int| 0 <= i < rows@.len() && #[trigger] rows@[i].0 == d;
            }
            if m.dom().contains(d) {
                let i = choose|i: int| 0 <= i < rows@.len() && #[trigger] rows@[i].0 == d;
                assert(ds@.contains(d));
            }
        }
        assert(ds@.to_set() =~= m.dom());
    }
    let pat = chars_of(pattern);
    let mut out: Vec<String> = Vec::new();
    let mut i: usize = 0;
    while i < ds.len()
        invariant
            i <= ds@.len(),
            index.wf(),
            m == index.dates(),
            pat@ == pattern@,
            forall|d: Date| ds@.contains(d) ==> m.contains_key(d),
            texts(out@) == date_hits(m, ds@.take(i as int), pattern@),
        decreases ds@.len() - i,
    {
        let d = ds[i];
        assert(ds@.contains(d));
        assert(note_date(d));
        let iso = iso_date_string(d);
        let ic = chars_of(iso.as_str());
        let ghost before = texts(out@);
        assert(ds@.take(i + 1).drop_last() =~= ds@.take(i as int));
        assert(ds@.take(i + 1).last() == d);
        if contains_chars(&ic, &pat) {
            let es = index.get(d);
            let ps = date_paths(&es);
            append_all(&mut out, &ps);
        } else {
            assert(before + seq![] =~= before);
        }
        i = i + 1;
    }
    assert(ds@.take(ds@.len() as int) =~= ds@);
    out
}

/// What the program around the library asks ripgrep for: the lower-cased
/// words of the query's text parts, in order.
pub open spec fn query_words(q: Query) -> Seq<Seq<char>>
    decreases q,
{
    match q {
        Query::Text(w) => seq![lowercase(w)],
        Query::And(a, b) => query_words(*a) + query_words(*b),
        Query::Or(a, b) => query_words(*a) + query_words(*b),
        Query::Not(a) => query_words(*a),
        _ => seq![],
    }
}

/// Runs queries against a vault's indexes.
pub struct SearchEngine {
    pub index: ConcurrentIndex,
}

impl SearchEngine {
    /// An engine over `index`.
    pub fn new(index: ConcurrentIndex) -> (r: Self)
        ensures
            r.index == index,
    {
        SearchEngine { index }
    }

    /// The query written `input` (see [`parse_query`]).
    pub fn parse_query(input: &str) -> (r: QueryExpr)
        ensures
            query_view(r) == query_of(input@),
    {
        parse_query(input)
    }

    /// The notes `expr` finds, given the vault's path and, for each
    /// lower-cased word of a text part, the paths where ripgrep found it
    /// (see [`query_result`]). Parts that no index answers (`before:`,
    /// `after:`, `content:`) find nothing.
    pub fn execute_query(&self, expr: &QueryExpr, vault_path: &str, hits: &Vec<(String, Vec<String>)>) -> (r: Vec<String>)
        requires
            self.index.dates.wf(),
        ensures
            texts(r@) == query_result(
                self.index.tags.tags(),
                self.index.links.targets(),
                self.index.dates.dates(),
                vault_path@,
                hit_table(hits@),
                query_view(*expr),
            ),
        decreases expr,
    {
        match expr {
            QueryExpr::Text(w) => {
                let lw = to_lower(w.as_str());
                hits_for(hits, &lw)
            },
            QueryExpr::Tag(t) => {
                let es = self.index.tags.get(t.as_str());
                tag_paths(&es)
            },
            QueryExpr::Link(t) => {
                let key = link_query_key_of(vault_path, t.as_str());
                let es = self.index.links.backlinks_at(key.as_str());
                link_paths(&es)
            },
            QueryExpr::Date(s) => date_query(&self.index.dates, s.as_str()),
            QueryExpr::And(a, b) => {
                let left = self.execute_query(a, vault_path, hits);
                let right = self.execute_query(b, vault_path, hits);
                filter_by(&left, &right, true)
            },
            QueryExpr::Or(a, b) => {
                let mut left = self.execute_query(a, vault_path, hits);
                let right = self.execute_query(b, vault_path, hits);
                append_all(&mut left, &right);
                let r = sorted_texts(left);
                proof {
                    lemma_in_order(texts(r@), |t: Seq<char>| text_key(t));
                }
                r
            },
            QueryExpr::Not(a) => {
                let exclude = self.execute_query(a, vault_path, hits);
                let all = all_indexed_files(&self.index.tags);
                filter_by(&all, &exclude, false)
            },
            _ => {
                let r: Vec<String> = Vec::new();
                assert(texts(r@) =~= seq![]);
                r
            },
        }
    }

    /// The lower-cased words whose full-text hits `expr` needs, in order:
    /// the program runs ripgrep for each and hands the hits back.
    pub fn text_words(expr: &QueryExpr) -> (r: Vec<String>)
        ensures
            texts(r@) == query_words(query_view(*expr)),
        decreases expr,
    {
        match expr {
            QueryExpr::Text(w) => {
                let mut r: Vec<String> = Vec::new();
                r.push(to_lower(w.as_str()));
                assert(texts(r@) =~= seq![lowercase(w@)]);
                r
            },
            QueryExpr::And(a, b) | QueryExpr::Or(a, b) => {
                let mut r = Self::text_words(a);
                let rb = Self::text_words(b);
                let ghost ra = texts(r@);
                let mut i: usize = 0;
                while i < rb.len()
                    invariant
                        i <= rb@.len(),
                        texts(r@) == ra + texts(rb@).take(i as int),
                    decreases rb@.len() - i,
                {
                    let ghost before = texts(r@);
                    let s = rb[i].clone();
                    r.push(s);
                    assert(texts(r@) =~= before.push(s@));
                    assert(texts(r@) =~= ra + texts(rb@).take(i + 1));
                    i = i + 1;
                }
                assert(texts(rb@).take(rb@.len() as int) =~= texts(rb@));
                r
            },
            QueryExpr::Not(a) => Self::text_words(a),
            _ => {
                let r: Vec<String> = Vec::new();
                assert(texts(r@) =~= seq![]);
                r
            },
        }
    }
}

/// What `l` keeps of the elements that `r` holds: exactly those.
proof fn lemma_keep_in(l: Seq<Seq<char>>, r: Seq<Seq<char>>, x: Seq<char>)
    ensures
        keep_in(l, r).contains(x) <==> l.contains(x) && r.contains(x),
        drop_in(l, r).contains(x) <==> l.contains(x) && !r.contains(x),
    decreases l.len(),
{
    if l.len() > 0 {
        lemma_keep_in(l.drop_last(), r, x);
        let k = keep_in(l.drop_last(), r);
        let d = drop_in(l.drop_last(), r);
        if l.contains(x) {
            let i = choose|i: int| 0 <= i < l.len() && l[i] == x;
            if i < l.len() - 1 {
                assert(l.drop_last()[i] == x);
            }
        }
        if l.drop_last().contains(x) {
            let i = choose|i: int| 0 <= i < l.drop_last().len() && l.drop_last()[i] == x;
            assert(l[i] == x);
        }
        if k.push(l.last()).contains(x) && !k.contains(x) {
            let i = choose|i: int| 0 <= i < k.push(l.last()).len() && k.push(l.last())[i] == x;
            assert(i == k.len());
        }
        if d.push(l.last()).contains(x) && !d.contains(x) {
            let i = choose|i: int| 0 <= i < d.push(l.last()).len() && d.push(l.last())[i] == x;
            assert(i == d.len());
        }
        if k.contains(x) {
            let i = choose|i: int| 0 <= i < k.len() && k[i] == x;
            assert(k.push(l.last())[i] == x);
        }
        if d.contains(x) {
            let i = choose|i: int| 0 <= i < d.len() && d[i] == x;
            assert(d.push(l.last())[i] == x);
        }
        assert(l.last() == l[l.len() - 1]);
        assert(k.push(l.last())[k.len() as int] == l.last());
        assert(d.push(l.last())[d.len() as int] == l.last());
    }
}

/// Both parts of a query joined by a space must find a note: `a b` finds
/// exactly the notes that `a` finds and `b` finds, in the order `a` finds
/// them.
pub proof fn law_and_finds_both(
    tags: Map<Seq<char>, Seq<TagView>>,
    targets: Map<Seq<char>, Seq<LinkView>>,
    dates: Map<Date, Seq<TagView>>,
    vault: Seq<char>,
    hits: Seq<(Seq<char>, Seq<Seq<char>>)>,
    a: Query,
    b: Query,
    x: Seq<char>,
)
    ensures
        query_result(tags, targets, dates, vault, hits, Query::And(Box::new(a), Box::new(b))).contains(x) <==> (
            query_result(tags, targets, dates, vault, hits, a).contains(x)
            && query_result(tags, targets, dates, vault, hits, b).contains(x)),
{
    lemma_keep_in(query_result(tags, targets, dates, vault, hits, a), query_result(tags, targets, dates, vault, hits, b), x);
}

/// `not:` finds the notes with a tag that the inner query does not find.
pub proof fn law_not_excludes(
    tags: Map<Seq<char>, Seq<TagView>>,
    targets: Map<Seq<char>, Seq<LinkView>>,
    dates: Map<Date, Seq<TagView>>,
    vault: Seq<char>,
    hits: Seq<(Seq<char>, Seq<Seq<char>>)>,
    a: Query,
    x: Seq<char>,
)
    ensures
        query_result(tags, targets, dates, vault, hits, Query::Not(Box::new(a))).contains(x) ==>
            !query_result(tags, targets, dates, vault, hits, a).contains(x),
{
    lemma_keep_in(
        in_order(tagged_notes(tags), |t: Seq<char>| text_key(t)),
        query_result(tags, targets, dates, vault, hits, a),
        x,
    );
}

/// `a OR b` finds each note that `a` or `b` finds, once, in text order.
pub proof fn law_or_finds_either(
    tags: Map<Seq<char>, Seq<TagView>>,
    targets: Map<Seq<char>, Seq<LinkView>>,
    dates: Map<Date, Seq<TagView>>,
    vault: Seq<char>,
    hits: Seq<(Seq<char>, Seq<Seq<char>>)>,
    a: Query,
    b: Query,
    x: Seq<char>,
)
    ensures
        query_result(tags, targets, dates, vault, hits, Query::Or(Box::new(a), Box::new(b))).contains(x) <==> (
            query_result(tags, targets, dates, vault, hits, a).contains(x)
            || query_result(tags, targets, dates, vault, hits, b).contains(x)),
        query_result(tags, targets, dates, vault, hits, Query::Or(Box::new(a), Box::new(b))).no_duplicates(),
{
    let ra = query_result(tags, targets, dates, vault, hits, a);
    let rb = query_result(tags, targets, dates, vault, hits, b);
    let both = ra + rb;
    crate::order::lemma_in_text_order(both);
    let r = in_order(both.to_set(), |t: Seq<char>| text_key(t));
    assert(r.to_set().contains(x) <==> r.contains(x));
    assert(both.to_set().contains(x) <==> both.contains(x));
    if both.contains(x) {
        let i = choose|i: int| 0 <= i < both.len() && both[i] == x;
        if i < ra.len() {
            assert(ra[i] == x);
        } else {
            assert(rb[i - ra.len()] == x);
        }
    }
    if ra.contains(x) {
        let i = choose|i: int| 0 <= i < ra.len() && ra[i] == x;
        assert(both[i] == x);
    }
    if rb.contains(x) {
        let i = choose|i: int| 0 <= i < rb.len() && rb[i] == x;
        assert(both[ra.len() + i] == x);
    }
}

proof fn lemma_concat_contains<T>(a: Seq<T>, b: Seq<T>, x: T)
    ensures
        (a + b).contains(x) <==> a.contains(x) || b.contains(x),
{
    if (a + b).contains(x) {
        let i = choose|i: int| 0 <= i < (a + b).len() && (a + b)[i] == x;
        if i < a.len() {
            assert(a[i] == x);
        } else {
            assert(b[i - a.len()] == x);
        }
    }
    if a.contains(x) {
        let i = choose|i: int| 0 <= i < a.len() && a[i] == x;
        assert((a + b)[i] == x);
    }
    if b.contains(x) {
        let i = choose|i: int| 0 <= i < b.len() && b[i] == x;
        assert((a + b)[a.len() + i] == x);
    }
}

/// A date query finds a note exactly when one of the dates searched
/// carries the note and that date's full ISO text `YYYY-MM-DD` contains
/// the query text: so the query with a note's full date finds the note.
pub proof fn law_date_query_finds(m: Map<Date, Seq<TagView>>, ds: Seq<Date>, s: Seq<char>, p: Seq<char>)
    ensures
        date_hits(m, ds, s).contains(p) <==> exists|j: int, i: int|
            0 <= j < ds.len() && 0 <= i < date_entries(m, ds[j]).len() && #[trigger] date_entries(m, ds[j])[i].0 == p
                && contains_text(iso_date(ds[j]), s),
    decreases ds.len(),
{
    if ds.len() > 0 {
        let d = ds.drop_last();
        law_date_query_finds(m, d, s, p);
        let last = ds.last();
        let es = date_entries(m, last);
        let add = if contains_text(iso_date(last), s) { entry_paths(es) } else { seq![] };
        lemma_concat_contains(date_hits(m, d, s), add, p);
        let found = exists|j: int, i: int|
            0 <= j < ds.len() && 0 <= i < date_entries(m, ds[j]).len() && #[trigger] date_entries(m, ds[j])[i].0 == p
                && contains_text(iso_date(ds[j]), s);
        if add.contains(p) {
            let i = choose|i: int| 0 <= i < add.len() && add[i] == p;
            assert(ds[ds.len() - 1] == last);
            assert(date_entries(m, ds[ds.len() - 1])[i].0 == p);
        }
        if date_hits(m, d, s).contains(p) {
            let (j, i) = choose|j: int, i: int|
                0 <= j < d.len() && 0 <= i < date_entries(m, d[j]).len() && #[trigger] date_entries(m, d[j])[i].0 == p
                    && contains_text(iso_date(d[j]), s);
            assert(ds[j] == d[j]);
            assert(date_entries(m, ds[j])[i].0 == p);
        }
        if found {
            let (j, i) = choose|j: int, i: int|
                0 <= j < ds.len() && 0 <= i < date_entries(m, ds[j]).len() && #[trigger] date_entries(m, ds[j])[i].0 == p
                    && contains_text(iso_date(ds[j]), s);
            if j < d.len() {
                assert(d[j] == ds[j]);
                assert(date_entries(m, d[j])[i].0 == p);
            } else {
                assert(ds[j] == last);
                assert(add[i] == p);
            }
        }
    }
}

/// In particular, querying a note's full ISO date finds the note.
pub proof fn law_full_date_finds_note(m: Map<Date, Seq<TagView>>, ds: Seq<Date>, d: Date, i: int)
    requires
        ds.contains(d),
        0 <= i < date_entries(m, d).len(),
    ensures
        date_hits(m, ds, iso_date(d)).contains(date_entries(m, d)[i].0),
{
    let j = choose|j: int| 0 <= j < ds.len() && ds[j] == d;
    let t = iso_date(d);
    let z: int = 0;
    assert(t.subrange(z, z + t.len()) =~= t);
    assert(contains_text(t, t));
    assert(date_entries(m, ds[j])[i].0 == date_entries(m, d)[i].0);
    law_date_query_finds(m, ds, t, date_entries(m, d)[i].0);
}

} // verus!
