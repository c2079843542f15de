//! Wiki-links `[[target]]` rewritten as Markdown links for the preview: to
//! a `note://` address (the desktop window) or to the note's file (the
//! notes window).
use vstd::prelude::*;
use vstd::utf8::encode_utf8;
use crate::text::{chars_of, push_char, push_str, string_of};

verus! {

/// Position of the first `]` at or after `p`, or the length of `s`.
pub open spec fn close_from(s: Seq<char>, p: int) -> int
    decreases s.len() - p,
{
    if p < 0 || p >= s.len() {
        s.len() as int
    } else if s[p] == ']' {
        p
    } else {
        close_from(s, p + 1)
    }
}

/// Where the wiki-link starting at `i` ends (after its `]]`), if one does:
/// `[[`, at least one character other than `]`, then `]]`.
pub open spec fn link_end(s: Seq<char>, i: int) -> Option<int> {
    let k = close_from(s, i + 2);
    if 0 <= i && i + 1 < s.len() && s[i] == '[' && s[i + 1] == '[' && k > i + 2 && k + 1 < s.len() && s[k + 1] == ']' {
        Some(k + 2)
    } else {
        None
    }
}

/// The hexadecimal digit of `d` (`0`-`9`, `A`-`F`).
pub open spec fn hex_digit(d: u8) -> char {
    if d < 10 { ((48 + d) as u8) as char } else { ((55 + d) as u8) as char }
}

/// Is `b` kept as it is by percent-encoding: an ASCII letter or digit, or
/// one of `-`, `.`, `_`, `~`?
pub open spec fn url_safe(b: u8) -> bool {
    (48 <= b <= 57) || (65 <= b <= 90) || (97 <= b <= 122) || b == 45 || b == 46 || b == 95 || b == 126
}

/// The bytes `b` percent-encoded: safe bytes as they are, every other as
/// `%` and two upper-case hexadecimal digits.
pub open spec fn percent_encoded(b: Seq<u8>) -> Seq<char>
    decreases b.len(),
{
    if b.len() == 0 {
        seq![]
    } else {
        let x = b.last();
        percent_encoded(b.drop_last()) + if url_safe(x) {
            seq![x as char]
        } else {
            seq!['%', hex_digit(x / 16), hex_digit(x % 16)]
        }
    }
}

/// urlencoding's `encode`: the UTF-8 bytes of `s`, percent-encoded (its
/// documentation: every byte but alphanumerics and `-`, `_`, `.`, `~`).
#[verifier::external_body]
fn url_encode(s: &str) -> (r: String)
    ensures
        r@ == percent_encoded(encode_utf8(s@)),
{
    urlencoding::encode(s).into_owned()
}

/// How a wiki-link is rewritten.
#[derive(Clone, Copy, Debug, PartialEq, Eq, Structural)]
pub enum LinkStyle {
    /// `[target](note://target)`, the target percent-encoded in the address.
    NoteAddress,
    /// `[target](target.md)`.
    MarkdownFile,
}

/// The Markdown link a wiki-link to `target` becomes.
pub open spec fn markdown_link(style: LinkStyle, target: Seq<char>) -> Seq<char> {
    match style {
        LinkStyle::NoteAddress => seq!['['] + target + "](note://"@ + percent_encoded(encode_utf8(target)) + seq![')'],
        LinkStyle::MarkdownFile => seq!['['] + target + seq![']', '('] + target + ".md)"@,
    }
}

/// The text from position `i` on with every wiki-link rewritten, scanning
/// left to right (as a regular expression replaces its matches).
pub open spec fn rewritten(s: Seq<char>, i: int, style: LinkStyle) -> Seq<char>
    decreases s.len() - i,
{
    if i < 0 || i >= s.len() {
        seq![]
    } else {
        match link_end(s, i) {
            Some(j) => {
                if j <= i {
                    seq![]
                } else {
                    markdown_link(style, s.subrange(i + 2, j - 2)) + rewritten(s, j, style)
                }
            },
            None => seq![s[i]] + rewritten(s, i + 1, style),
        }
    }
}

proof fn lemma_close_from(s: Seq<char>, p: int)
    requires
        0 <= p,
    ensures
        p <= close_from(s, p) <= s.len() || (p > s.len() && close_from(s, p) == s.len()),
        close_from(s, p) < s.len() ==> s[close_from(s, p)] == ']',
        forall|q: int| p <= q < close_from(s, p) ==> s[q] != ']',
    decreases s.len() - p,
{
    if p < s.len() && s[p] != ']' {
        lemma_close_from(s, p + 1);
    }
}

/// Where the wiki-link starting at `i` ends, if one does (see
/// [`link_end`]).
fn link_end_exec(s: &Vec<char>, i: usize) -> (r: Option<usize>)
    requires
        i < s@.len(),
    ensures
        match link_end(s@, i as int) {
            Some(j) => r == Some(j as usize) && i + 4 <= j <= s@.len(),
            None => r is None,
        },
{
    let n = s.len();
    if !(i + 1 < n && s[i] == '[' && s[i + 1] == '[') {
        return None;
    }
    proof {
        lemma_close_from(s@, i + 2);
    }
    let mut k = i + 2;
    while k < n && s[k] != ']'
        invariant
            i + 2 <= k <= n,
            n == s@.len(),
            close_from(s@, i + 2) == close_from(s@, k as int),
        decreases n - k,
    {
        k = k + 1;
    }
    if k > i + 2 && k < n - 1 && s[k + 1] == ']' {
        Some(k + 2)
    } else {
        None
    }
}

/// Pushes the characters `c` onto `out`.
fn push_chars(out: &mut Vec<char>, c: &Vec<char>)
    ensures
        final(out)@ == old(out)@ + c@,
{
    let mut i: usize = 0;
    while i < c.len()
        invariant
            i <= c@.len(),
            out@ == old(out)@ + c@.take(i as int),
        decreases c@.len() - i,
    {
        out.push(c[i]);
        assert(c@.take(i + 1) =~= c@.take(i as int).push(c@[i as int]));
        i = i + 1;
    }
    assert(c@.take(c@.len() as int) =~= c@);
}

/// The Markdown link for `target` (see [`markdown_link`]).
fn markdown_link_of(style: LinkStyle, target: &Vec<char>) -> (r: Vec<char>)
    ensures
        r@ == markdown_link(style, target@),
{
    let t = string_of(target.as_slice());
    let mut out = String::new();
    push_char(&mut out, '[');
    push_str(&mut out, t.as_str());
    match style {
        LinkStyle::NoteAddress => {
            push_str(&mut out, "](note://");
            let enc = url_encode(t.as_str());
            push_str(&mut out, enc.as_str());
            push_char(&mut out, ')');
            assert(out@ =~= markdown_link(style, target@));
        },
        LinkStyle::MarkdownFile => {
            push_char(&mut out, ']');
            push_char(&mut out, '(');
            push_str(&mut out, t.as_str());
            push_str(&mut out, ".md)");
            assert(out@ =~= markdown_link(style, target@));
        },
    }
    chars_of(out.as_str())
}

/// `content` with every wiki-link rewritten in `style` (see
/// [`rewritten`]).
pub fn rewrite_wikilinks(content: &str, style: LinkStyle) -> (r: String)
    ensures
        r@ == rewritten(content@, 0, style),
{
    let s = chars_of(content);
    let n = s.len();
    let mut out: Vec<char> = Vec::new();
    let mut i: usize = 0;
    while i < n
        invariant
            i <= n,
            n == s@.len(),
            rewritten(s@, 0, style) == out@ + rewritten(s@, i as int, style),
        decreases n - i,
    {
        match link_end_exec(&s, i) {
            Some(j) => {
                let mut target: Vec<char> = Vec::new();
                let mut q = i + 2;
                while q < j - 2
                    invariant
                        i + 2 <= q <= j - 2,
                        j <= n,
                        n == s@.len(),
                        target@ == s@.subrange(i + 2, q as int),
                    decreases j - 2 - q,
                {
                    target.push(s[q]);
                    assert(s@.subrange(i + 2, q + 1) =~= s@.subrange(i + 2, q as int).push(s@[q as int]));
                    q = q + 1;
                }
                let link = markdown_link_of(style, &target);
                let ghost before = out@;
                push_chars(&mut out, &link);
                assert(rewritten(s@, i as int, style) == link@ + rewritten(s@, j as int, style));
                assert(out@ + rewritten(s@, j as int, style) =~= before + (link@ + rewritten(s@, j as int, style)));
                i = j;
            },
            None => {
                let ghost before = out@;
                out.push(s[i]);
                assert(rewritten(s@, i as int, style) == seq![s@[i as int]] + rewritten(s@, i + 1, style));
                assert(out@ + rewritten(s@, i + 1, style) =~= before + (seq![s@[i as int]] + rewritten(s@, i + 1, style)));
                i = i + 1;
            },
        }
    }
    assert(out@ + rewritten(s@, n as int, style) =~= out@);
    string_of(out.as_slice())
}

/// The desktop window's preview text: each wiki-link becomes a link to its
/// `note://` address.
pub fn process_wikilinks(content: &str) -> (r: String)
    ensures
        r@ == rewritten(content@, 0, LinkStyle::NoteAddress),
{
    rewrite_wikilinks(content, LinkStyle::NoteAddress)
}

/// The notes window's preview text: each wiki-link becomes a link to the
/// note's file.
pub fn preprocess_wikilinks(input: &str) -> (r: String)
    ensures
        r@ == rewritten(input@, 0, LinkStyle::MarkdownFile),
{
    rewrite_wikilinks(input, LinkStyle::MarkdownFile)
}


/// Does `s` hold `[[` anywhere?
pub open spec fn has_double_bracket(s: Seq<char>) -> bool {
    exists|j: int| 0 <= j && j + 1 < s.len() && #[trigger] s[j] == '[' && s[j + 1] == '['
}

proof fn lemma_plain_kept(s: Seq<char>, i: int, style: LinkStyle)
    requires
        !has_double_bracket(s),
        0 <= i <= s.len(),
    ensures
        rewritten(s, i, style) == s.subrange(i, s.len() as int),
    decreases s.len() - i,
{
    if i < s.len() {
        assert(link_end(s, i) is None) by {
            if i + 1 < s.len() && s[i] == '[' && s[i + 1] == '[' {
                assert(has_double_bracket(s));
            }
        }
        lemma_plain_kept(s, i + 1, style);
        assert(s.subrange(i, s.len() as int) =~= seq![s[i]] + s.subrange(i + 1, s.len() as int));
    } else {
        assert(s.subrange(i, s.len() as int) =~= Seq::<char>::empty());
    }
}

/// A text that holds no `[[` is left as it is, in either style.
pub proof fn law_text_without_links_unchanged(s: Seq<char>, style: LinkStyle)
    requires
        !has_double_bracket(s),
    ensures
        rewritten(s, 0, style) == s,
{
    lemma_plain_kept(s, 0, style);
    assert(s.subrange(0, s.len() as int) =~= s);
}

} // verus!
