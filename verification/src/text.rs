//! Byte-level character classes and small string helpers shared by the
//! parsers. All predicates work on UTF-8 encoded text.
use vstd::prelude::*;
use vstd::utf8::*;
use vstd::std_specs::iter::IteratorSpec;

verus! {

/// Is `c` one of the ASCII white-space bytes (tab, line feed, vertical tab,
/// form feed, carriage return, space)?
pub open spec fn is_ascii_ws(c: u8) -> bool {
    c == 9u8 || c == 10u8 || c == 11u8 || c == 12u8 || c == 13u8 || c == 32u8
}

/// Length in bytes of the white-space character that starts at `p`, or 0.
/// The set is Unicode's White_Space property: the ASCII ones, U+0085,
/// U+00A0, U+1680, U+2000..U+200A, U+2028, U+2029, U+202F, U+205F, U+3000.
pub open spec fn ws_len_at(b: Seq<u8>, p: int) -> int {
    if 0 <= p < b.len() && is_ascii_ws(b[p]) {
        1
    } else if 0 <= p && p + 1 < b.len() && b[p] == 0xC2u8 && (b[p + 1] == 0x85u8 || b[p + 1] == 0xA0u8) {
        2
    } else if 0 <= p && p + 2 < b.len() && (
        (b[p] == 0xE1u8 && b[p + 1] == 0x9Au8 && b[p + 2] == 0x80u8)
        || (b[p] == 0xE2u8 && b[p + 1] == 0x80u8 && ((0x80u8 <= b[p + 2] && b[p + 2] <= 0x8Au8)
            || b[p + 2] == 0xA8u8 || b[p + 2] == 0xA9u8 || b[p + 2] == 0xAFu8))
        || (b[p] == 0xE2u8 && b[p + 1] == 0x81u8 && b[p + 2] == 0x9Fu8)
        || (b[p] == 0xE3u8 && b[p + 1] == 0x80u8 && b[p + 2] == 0x80u8)) {
        3
    } else {
        0
    }
}

/// Length in bytes of the white-space character that ends right before `p`, or 0.
pub open spec fn ws_len_before(b: Seq<u8>, p: int) -> int {
    if p >= 1 && ws_len_at(b, p - 1) == 1 {
        1
    } else if p >= 2 && ws_len_at(b, p - 2) == 2 {
        2
    } else if p >= 3 && ws_len_at(b, p - 3) == 3 {
        3
    } else {
        0
    }
}

/// Executable form of [`ws_len_at`].
pub fn ws_len_at_exec(b: &[u8], p: usize) -> (r: usize)
    ensures
        r == ws_len_at(b@, p as int),
{
    let n = b.len();
    if p < n && (b[p] == 9 || b[p] == 10 || b[p] == 11 || b[p] == 12 || b[p] == 13 || b[p] == 32) {
        1
    } else if p < n && n - p > 1 && b[p] == 0xC2 && (b[p + 1] == 0x85 || b[p + 1] == 0xA0) {
        2
    } else if p < n && n - p > 2 && (
        (b[p] == 0xE1 && b[p + 1] == 0x9A && b[p + 2] == 0x80)
        || (b[p] == 0xE2 && b[p + 1] == 0x80 && ((0x80 <= b[p + 2] && b[p + 2] <= 0x8A)
            || b[p + 2] == 0xA8 || b[p + 2] == 0xA9 || b[p + 2] == 0xAF))
        || (b[p] == 0xE2 && b[p + 1] == 0x81 && b[p + 2] == 0x9F)
        || (b[p] == 0xE3 && b[p + 1] == 0x80 && b[p + 2] == 0x80)) {
        3
    } else {
        0
    }
}

/// Executable form of [`ws_len_before`].
pub fn ws_len_before_exec(b: &[u8], p: usize) -> (r: usize)
    ensures
        r == ws_len_before(b@, p as int),
{
    if p >= 1 && ws_len_at_exec(b, p - 1) == 1 {
        1
    } else if p >= 2 && ws_len_at_exec(b, p - 2) == 2 {
        2
    } else if p >= 3 && ws_len_at_exec(b, p - 3) == 3 {
        3
    } else {
        0
    }
}

/// Appends `t` to `s`.
pub(crate) fn push_str(s: &mut String, t: &str)
    ensures
        final(s)@ == old(s)@ + t@,
{
    s.append(t);
}

/// Appends the character `c` to `s` (std's `String::push`).
#[verifier::external_body]
pub(crate) fn push_char(s: &mut String, c: char)
    ensures
        final(s)@ == old(s)@.push(c),
{
    s.push(c);
}

/// The text with which std describes why `bytes` are not UTF-8 (the
/// `Display` of `FromUtf8Error`): it names the first invalid sequence and
/// where it starts, so it depends on the bytes alone. Its wording is not
/// stated here.
pub uninterp spec fn utf8_error_text(bytes: Seq<u8>) -> Seq<char>;

/// Decodes a byte vector as UTF-8 (std's `String::from_utf8`); on failure,
/// the text of std's error, named [`utf8_error_text`].
#[verifier::external_body]
pub(crate) fn utf8_decode(v: Vec<u8>) -> (r: Result<String, String>)
    ensures
        r is Ok <==> valid_utf8(v@),
        r matches Ok(s) ==> s@ == decode_utf8(v@),
        r matches Err(m) ==> m@ == utf8_error_text(v@),
{
    match String::from_utf8(v) {
        Ok(s) => Ok(s),
        Err(e) => Err(e.to_string()),
    }
}

/// The character of the decimal digit `d` (`0 <= d < 10`).
pub open spec fn digit_char(d: nat) -> char {
    if d == 0 { '0' } else if d == 1 { '1' } else if d == 2 { '2' } else if d == 3 { '3' }
    else if d == 4 { '4' } else if d == 5 { '5' } else if d == 6 { '6' } else if d == 7 { '7' }
    else if d == 8 { '8' } else { '9' }
}

/// Decimal representation of `n` without leading zeros.
pub open spec fn decimal(n: nat) -> Seq<char>
    decreases n,
{
    if n < 10 {
        seq![digit_char(n)]
    } else {
        decimal(n / 10).push(digit_char(n % 10))
    }
}

fn digit_to_char(d: u64) -> (c: char)
    requires
        d < 10,
    ensures
        c == digit_char(d as nat),
{
    if d == 0 { '0' } else if d == 1 { '1' } else if d == 2 { '2' } else if d == 3 { '3' }
    else if d == 4 { '4' } else if d == 5 { '5' } else if d == 6 { '6' } else if d == 7 { '7' }
    else if d == 8 { '8' } else { '9' }
}

/// Appends the decimal representation of `n` to `s`.
pub fn push_decimal(s: &mut String, n: u64)
    ensures
        final(s)@ == old(s)@ + decimal(n as nat),
    decreases n,
{
    if n < 10 {
        push_char(s, digit_to_char(n));
        assert(decimal(n as nat) =~= seq![digit_char(n as nat)]);
    } else {
        push_decimal(s, n / 10);
        push_char(s, digit_to_char(n % 10));
        assert(old(s)@ + decimal(n as nat) =~= old(s)@ + decimal((n / 10) as nat) + seq![digit_char((n % 10) as nat)]);
    }
}

/// The text between byte positions `i` and `j` of the UTF-8 text `b`.
pub fn substring(b: &[u8], i: usize, j: usize) -> (r: String)
    requires
        valid_utf8(b@),
        i <= j <= b@.len(),
        is_char_boundary(b@, i as int),
        is_char_boundary(b@, j as int),
    ensures
        valid_utf8(b@.subrange(i as int, j as int)),
        r@ == decode_utf8(b@.subrange(i as int, j as int)),
{
    let ghost bs = b@;
    proof {
        lemma_valid_sub(bs, i as int, j as int);
    }
    let mut v: Vec<u8> = Vec::new();
    let mut k = i;
    while k < j
        invariant
            i <= k <= j <= b@.len(),
            v@ =~= b@.subrange(i as int, k as int),
        decreases j - k,
    {
        v.push(b[k]);
        k = k + 1;
    }
    match utf8_decode(v) {
        Ok(s) => s,
        Err(_) => {
            proof {
                assert(false);
            }
            String::new()
        },
    }
}

/// A slice between two character boundaries of valid UTF-8 is valid UTF-8.
pub proof fn lemma_valid_sub(b: Seq<u8>, i: int, j: int)
    requires
        valid_utf8(b),
        0 <= i <= j <= b.len(),
        is_char_boundary(b, i),
        is_char_boundary(b, j),
    ensures
        valid_utf8(b.subrange(i, j)),
{
    valid_utf8_split(b, j);
    let pre = b.subrange(0, j);
    assert(is_char_boundary(pre, i)) by {
        if i < j {
            is_char_boundary_iff_not_is_continuation_byte(pre, i);
            is_char_boundary_iff_not_is_continuation_byte(b, i);
        } else {
            is_char_boundary_start_end_of_seq(pre);
        }
    }
    valid_utf8_split(pre, i);
    assert(pre.subrange(i, pre.len() as int) =~= b.subrange(i, j));
}


/// In valid UTF-8, the position after the character that starts at a
/// boundary `i` is a boundary too.
pub proof fn lemma_char_step(b: Seq<u8>, i: int)
    requires
        valid_utf8(b),
        0 <= i < b.len(),
        is_char_boundary(b, i),
    ensures
        i + length_of_first_codepoint(b.subrange(i, b.len() as int)) <= b.len(),
        is_char_boundary(b, i + length_of_first_codepoint(b.subrange(i, b.len() as int))),
    decreases b.len(),
{
    let l0 = length_of_first_scalar(b);
    let pop = pop_first_scalar(b);
    if i == 0 {
        assert(b.subrange(0, b.len() as int) =~= b);
        assert(pop.len() == b.len() - l0);
        assert(is_char_boundary(pop, 0));
    } else {
        assert(pop.len() == b.len() - l0);
        assert(is_char_boundary(pop, i - l0));
        if i - l0 < 0 {
            assert(false);
        }
        assert(pop.subrange(i - l0, pop.len() as int) =~= b.subrange(i, b.len() as int));
        assert(valid_utf8(pop));
        if i - l0 < pop.len() {
            lemma_char_step(pop, i - l0);
        } else {
            assert(false);
        }
    }
}

/// An ASCII byte of valid UTF-8 sits between two boundaries.
pub proof fn lemma_ascii_boundary(b: Seq<u8>, i: int)
    requires
        valid_utf8(b),
        0 <= i < b.len(),
        b[i] < 0x80,
    ensures
        is_char_boundary(b, i),
        is_char_boundary(b, i + 1),
{
    is_char_boundary_iff_not_is_continuation_byte(b, i);
    lemma_char_step(b, i);
    assert(b.subrange(i, b.len() as int)[0] == b[i]);
}

/// In valid UTF-8, a byte that is not a continuation byte is at a boundary.
pub proof fn lemma_lead_boundary(b: Seq<u8>, i: int)
    requires
        valid_utf8(b),
        0 <= i <= b.len(),
        i == b.len() || !is_continuation_byte(b[i]),
    ensures
        is_char_boundary(b, i),
{
    if i == b.len() {
        is_char_boundary_start_end_of_seq(b);
    } else {
        is_char_boundary_iff_not_is_continuation_byte(b, i);
    }
}

/// The characters of `s`, in order.
pub fn chars_of(s: &str) -> (v: Vec<char>)
    ensures
        v@ == s@,
{
    broadcast use vstd::string::axiom_spec_iter, vstd::string::next_postcondition;
    let mut v: Vec<char> = Vec::new();
    for c in iter: s.chars()
        invariant
            iter.seq() == s@,
            v@ == s@.take(iter.index() as int),
    {
        v.push(c);
    }
    assert(v@ =~= s@.take(s@.len() as int));
    v
}

/// The text made of the characters `v`.
pub fn string_of(v: &[char]) -> (s: String)
    ensures
        s@ == v@,
{
    let mut s = String::new();
    let mut i: usize = 0;
    while i < v.len()
        invariant
            i <= v@.len(),
            s@ == v@.subrange(0, i as int),
        decreases v@.len() - i,
    {
        push_char(&mut s, v[i]);
        assert(v@.subrange(0, i as int).push(v@[i as int]) =~= v@.subrange(0, i as int + 1));
        i = i + 1;
    }
    assert(v@.subrange(0, v@.len() as int) =~= v@);
    s
}

} // verus!
