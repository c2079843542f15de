//! Message framing of the tool server: a `Content-Length: N` header line, a
//! blank line, then exactly N bytes of UTF-8 body.
use vstd::prelude::*;
use vstd::utf8::*;
use vstd::string::StringSliceAdditionalSpecFns;
use crate::parser::{
    lines_from, trimmed, note_lines, trimmed_exec, range_view, lemma_lines_shape, line_end, content_end,
    skip_ws, trim_back,
};
use crate::text::{push_str, push_decimal, utf8_decode, decimal, utf8_error_text};

verus! {

/// The header label `Content-Length:` as bytes.
pub open spec fn label_bytes() -> Seq<u8> {
    seq![67u8, 111u8, 110u8, 116u8, 101u8, 110u8, 116u8, 45u8, 76u8, 101u8, 110u8, 103u8, 116u8, 104u8, 58u8]
}

/// The ASCII digit byte of `d` (`0 <= d < 10`).
pub open spec fn digit_byte(d: nat) -> u8 {
    (48 + d) as u8
}

/// Decimal representation of `n` as ASCII bytes.
pub open spec fn decimal_bytes(n: nat) -> Seq<u8>
    decreases n,
{
    if n < 10 {
        seq![digit_byte(n)]
    } else {
        decimal_bytes(n / 10).push(digit_byte(n % 10))
    }
}

/// The header of a message whose body has `n` bytes:
/// `Content-Length: n` followed by CR LF CR LF.
pub open spec fn header_bytes(n: nat) -> Seq<u8> {
    label_bytes() + seq![32u8] + decimal_bytes(n) + seq![13u8, 10u8, 13u8, 10u8]
}

/// A whole message carrying `body`.
pub open spec fn frame(body: Seq<u8>) -> Seq<u8> {
    header_bytes(body.len()) + body
}

/// Does the label `Content-Length:` start at `p` and end by `e`?
pub open spec fn label_at(b: Seq<u8>, p: int, e: int) -> bool {
    0 <= p && p + 15 <= e && e <= b.len() && b.subrange(p, p + 15) == label_bytes()
}

/// Position after every repetition of the label from `p` on (what
/// `trim_start_matches` leaves).
pub open spec fn strip_label(b: Seq<u8>, p: int, e: int) -> int
    decreases e - p,
{
    if label_at(b, p, e) {
        strip_label(b, p + 15, e)
    } else {
        p
    }
}

/// Index of the first of the lines `ls`, from `k` on, whose trimmed text
/// starts with the label; `ls.len()` if there is none.
pub open spec fn header_index(b: Seq<u8>, ls: Seq<(int, int)>, k: int) -> int
    decreases ls.len() - k,
{
    if k < 0 || k >= ls.len() {
        ls.len() as int
    } else {
        let t = trimmed(b, ls[k]);
        if label_at(b, t.0, t.1) {
            k
        } else {
            header_index(b, ls, k + 1)
        }
    }
}

/// Why a decimal number did not parse (std's `ParseIntError` kinds for an
/// unsigned target).
#[derive(Clone, Copy, Debug, PartialEq, Eq, Structural)]
pub enum IntError {
    Empty,
    InvalidDigit,
    Overflow,
}

/// std's wording for each kind of integer parse error.
pub open spec fn int_error_text(e: IntError) -> Seq<char> {
    match e {
        IntError::Empty => "cannot parse integer from empty string"@,
        IntError::InvalidDigit => "invalid digit found in string"@,
        IntError::Overflow => "number too large to fit in target type"@,
    }
}

/// Is `c` an ASCII digit?
pub open spec fn is_digit(c: u8) -> bool {
    48 <= c <= 57
}

/// The digits from `p` to `e` appended to the value `acc`, as a number no
/// greater than `max`.
pub open spec fn parse_digits(b: Seq<u8>, p: int, e: int, acc: nat, max: nat) -> Result<nat, IntError>
    decreases e - p,
{
    if p >= e {
        Ok(acc)
    } else if !is_digit(b[p]) {
        Err(IntError::InvalidDigit)
    } else if acc * 10 + (b[p] - 48) > max {
        Err(IntError::Overflow)
    } else {
        parse_digits(b, p + 1, e, (acc * 10 + (b[p] - 48)) as nat, max)
    }
}

/// The bytes from `p` to `e` read as an unsigned number no greater than
/// `max`, the way std's `from_str` reads one: an optional `+`, then at
/// least one decimal digit, no overflow.
pub open spec fn parse_num(b: Seq<u8>, p: int, e: int, max: nat) -> Result<nat, IntError> {
    if p >= e {
        Err(IntError::Empty)
    } else if b[p] == 43u8 {
        if p + 1 >= e {
            Err(IntError::InvalidDigit)
        } else {
            parse_digits(b, p + 1, e, 0, max)
        }
    } else {
        parse_digits(b, p, e, 0, max)
    }
}

/// The bytes from `p` to `e` read as a `usize` (see [`parse_num`]).
pub open spec fn parse_uint(b: Seq<u8>, p: int, e: int) -> Result<nat, IntError> {
    parse_num(b, p, e, usize::MAX as nat)
}

/// Does `pat` occur at position `p` of `b`?
pub open spec fn occurs_at(b: Seq<u8>, p: int, pat: Seq<u8>) -> bool {
    0 <= p && p + pat.len() <= b.len() && b.subrange(p, p + pat.len() as int) == pat
}

/// First position at or after `p` where `pat` occurs, or -1.
pub open spec fn find_from(b: Seq<u8>, p: int, pat: Seq<u8>) -> int
    decreases b.len() - p,
{
    if p < 0 || p >= b.len() || p + pat.len() > b.len() {
        -1
    } else if occurs_at(b, p, pat) {
        p
    } else {
        find_from(b, p + 1, pat)
    }
}

/// Where the body starts: after the first CR LF CR LF, or else after the
/// first LF LF; -1 if there is neither.
pub open spec fn body_start(b: Seq<u8>) -> int {
    let crlf = find_from(b, 0, seq![13u8, 10u8, 13u8, 10u8]);
    let lf = find_from(b, 0, seq![10u8, 10u8]);
    if crlf >= 0 {
        crlf + 4
    } else if lf >= 0 {
        lf + 2
    } else {
        -1
    }
}

/// What reading one message out of `b` comes to.
pub ghost enum Framing {
    /// Nothing to read.
    Closed,
    /// The input is not UTF-8.
    BadText,
    /// No line starts with the label.
    NoHeader,
    /// The length after the label is not a number.
    BadLength(IntError),
    /// No blank line ends the header.
    NoBlankLine,
    /// Fewer bytes follow the header than announced: (announced, present).
    TooShort(nat, nat),
    /// The announced bytes, those from the first offset to the second, are
    /// not UTF-8.
    BadBody(int, int),
    /// The body lies between these two positions.
    Body(int, int),
}

/// The outcome of reading one message out of `b`.
pub open spec fn framing(b: Seq<u8>) -> Framing {
    if b.len() == 0 {
        Framing::Closed
    } else if !valid_utf8(b) {
        Framing::BadText
    } else {
        let ls = lines_from(b, 0);
        let k = header_index(b, ls, 0);
        if k >= ls.len() {
            Framing::NoHeader
        } else {
            let t = trimmed(b, ls[k]);
            let num = trimmed(b, (strip_label(b, t.0, t.1), t.1));
            match parse_uint(b, num.0, num.1) {
                Err(e) => Framing::BadLength(e),
                Ok(n) => {
                    let s = body_start(b);
                    if s < 0 {
                        Framing::NoBlankLine
                    } else if b.len() - s < n {
                        Framing::TooShort(n, (b.len() - s) as nat)
                    } else if !valid_utf8(b.subrange(s, s + n)) {
                        Framing::BadBody(s, s + n)
                    } else {
                        Framing::Body(s, s + n)
                    }
                },
            }
        }
    }
}

/// The message text of an outcome that is not a body, where it does not
/// depend on std's UTF-8 error wording.
pub open spec fn framing_error_text(f: Framing) -> Seq<char> {
    match f {
        Framing::Closed => "Connection closed"@,
        Framing::NoHeader => "No Content-Length header found"@,
        Framing::BadLength(e) => "Invalid Content-Length: "@ + int_error_text(e),
        Framing::NoBlankLine => "Missing blank line after header"@,
        Framing::TooShort(n, m) => "Content-Length "@ + decimal(n) + " exceeds body size "@ + decimal(m),
        _ => seq![],
    }
}

fn label_at_exec(b: &[u8], p: usize, e: usize) -> (r: bool)
    requires
        p <= e <= b@.len(),
    ensures
        r == label_at(b@, p as int, e as int),
{
    if e - p < 15 {
        return false;
    }
    let r = b[p] == 67 && b[p + 1] == 111 && b[p + 2] == 110 && b[p + 3] == 116 && b[p + 4] == 101
        && b[p + 5] == 110 && b[p + 6] == 116 && b[p + 7] == 45 && b[p + 8] == 76 && b[p + 9] == 101
        && b[p + 10] == 110 && b[p + 11] == 103 && b[p + 12] == 116 && b[p + 13] == 104 && b[p + 14] == 58;
    proof {
        if r {
            assert(b@.subrange(p as int, p + 15) =~= label_bytes());
        } else {
            if b@.subrange(p as int, p + 15) == label_bytes() {
                assert(b@.subrange(p as int, p + 15)[0] == b@[p as int]);
                assert(b@.subrange(p as int, p + 15)[1] == b@[p + 1]);
                assert(b@.subrange(p as int, p + 15)[2] == b@[p + 2]);
                assert(b@.subrange(p as int, p + 15)[3] == b@[p + 3]);
                assert(b@.subrange(p as int, p + 15)[4] == b@[p + 4]);
                assert(b@.subrange(p as int, p + 15)[5] == b@[p + 5]);
                assert(b@.subrange(p as int, p + 15)[6] == b@[p + 6]);
                assert(b@.subrange(p as int, p + 15)[7] == b@[p + 7]);
                assert(b@.subrange(p as int, p + 15)[8] == b@[p + 8]);
                assert(b@.subrange(p as int, p + 15)[9] == b@[p + 9]);
                assert(b@.subrange(p as int, p + 15)[10] == b@[p + 10]);
                assert(b@.subrange(p as int, p + 15)[11] == b@[p + 11]);
                assert(b@.subrange(p as int, p + 15)[12] == b@[p + 12]);
                assert(b@.subrange(p as int, p + 15)[13] == b@[p + 13]);
                assert(b@.subrange(p as int, p + 15)[14] == b@[p + 14]);
            }
        }
    }
    r
}

/// The bytes from `p` to `e` read as a number no greater than `max` (see
/// [`parse_num`]).
pub(crate) fn parse_num_exec(b: &[u8], p: usize, e: usize, max: usize) -> (r: Result<usize, IntError>)
    requires
        p <= e <= b@.len(),
    ensures
        r matches Ok(v) ==> parse_num(b@, p as int, e as int, max as nat) == Ok::<nat, IntError>(v as nat) && v <= max,
        r matches Err(k) ==> parse_num(b@, p as int, e as int, max as nat) == Err::<nat, IntError>(k),
{
    if p >= e {
        return Err(IntError::Empty);
    }
    let mut q = p;
    if b[p] == 43 {
        if p + 1 >= e {
            return Err(IntError::InvalidDigit);
        }
        q = p + 1;
    }
    let mut acc: usize = 0;
    while q < e
        invariant
            p <= q <= e <= b@.len(),
            acc <= max,
            parse_num(b@, p as int, e as int, max as nat) == parse_digits(b@, q as int, e as int, acc as nat, max as nat),
        decreases e - q,
    {
        let c = b[q];
        if !(48 <= c && c <= 57) {
            return Err(IntError::InvalidDigit);
        }
        let d = (c - 48) as usize;
        if d > max || acc > (max - d) / 10 {
            assert(acc * 10 + d > max) by (nonlinear_arith)
                requires
                    d > max || acc > (max - d) / 10,
                    d <= 9,
            ;
            return Err(IntError::Overflow);
        }
        assert(acc * 10 + d <= max) by (nonlinear_arith)
            requires
                acc <= (max - d) / 10,
                d <= max,
                d <= 9,
        ;
        acc = acc * 10 + d;
        q = q + 1;
    }
    Ok(acc)
}

fn parse_uint_exec(b: &[u8], p: usize, e: usize) -> (r: Result<usize, IntError>)
    requires
        p <= e <= b@.len(),
    ensures
        r matches Ok(v) ==> parse_uint(b@, p as int, e as int) == Ok::<nat, IntError>(v as nat),
        r matches Err(k) ==> parse_uint(b@, p as int, e as int) == Err::<nat, IntError>(k),
{
    parse_num_exec(b, p, e, usize::MAX)
}

fn occurs_at_exec(b: &[u8], p: usize, pat: &[u8]) -> (r: bool)
    requires
        p + pat@.len() <= b@.len(),
    ensures
        r == occurs_at(b@, p as int, pat@),
{
    let m = pat.len();
    let n = b.len();
    let mut j: usize = 0;
    while j < m
        invariant
            p + m <= n == b@.len(),
            j <= m == pat@.len(),
            forall|t: int| 0 <= t < j ==> b@[p + t] == pat@[t],
        decreases m - j,
    {
        if b[p + j] != pat[j] {
            proof {
                if occurs_at(b@, p as int, pat@) {
                    assert(b@.subrange(p as int, p + m)[j as int] == b@[p + j]);
                }
            }
            return false;
        }
        j = j + 1;
    }
    assert(b@.subrange(p as int, p + m) =~= pat@);
    true
}

fn find_exec(b: &[u8], pat: &[u8]) -> (r: Option<usize>)
    requires
        pat@.len() > 0,
    ensures
        r matches Some(p) ==> p as int == find_from(b@, 0, pat@) && p + pat@.len() <= b@.len(),
        r is None ==> find_from(b@, 0, pat@) == -1,
{
    let n = b.len();
    let m = pat.len();
    if m > n {
        return None;
    }
    let mut p: usize = 0;
    while p <= n - m
        invariant
            find_from(b@, 0, pat@) == find_from(b@, p as int, pat@),
            n == b@.len(),
            0 < m == pat@.len() <= n,
        decreases n - p,
    {
        if occurs_at_exec(b, p, pat) {
            return Some(p);
        }
        p = p + 1;
    }
    None
}

/// Reads one message out of `input`: the body announced by the first line
/// whose trimmed text starts with `Content-Length:`, which follows the first
/// blank line (CR LF CR LF, or else LF LF). The error texts name what is
/// wrong; those about invalid UTF-8 end with std's description of it
/// ([`utf8_error_text`]).
pub fn parse_message(input: &[u8]) -> (r: Result<String, String>)
    ensures
        match framing(input@) {
            Framing::Body(s, e) => r is Ok && r->Ok_0@ == decode_utf8(input@.subrange(s, e)),
            Framing::BadText => r is Err && r->Err_0@ == "Invalid UTF-8: "@ + utf8_error_text(input@),
            Framing::BadBody(s, e) => r is Err
                && r->Err_0@ == "Invalid UTF-8 body: "@ + utf8_error_text(input@.subrange(s, e)),
            f => r is Err && r->Err_0@ == framing_error_text(f),
        },
{
    let n = input.len();
    if n == 0 {
        return Err("Connection closed".to_owned());
    }
    let mut copy: Vec<u8> = Vec::new();
    let mut i: usize = 0;
    while i < n
        invariant
            i <= n == input@.len(),
            copy@ == input@.subrange(0, i as int),
        decreases n - i,
    {
        copy.push(input[i]);
        assert(input@.subrange(0, i + 1) =~= input@.subrange(0, i as int).push(input@[i as int]));
        i = i + 1;
    }
    assert(input@.subrange(0, n as int) =~= input@);
    if let Err(e) = utf8_decode(copy) {
        let mut m = "Invalid UTF-8: ".to_owned();
        push_str(&mut m, e.as_str());
        return Err(m);
    }
    let lines = note_lines(input);
    let ghost ls = lines_from(input@, 0);
    proof {
        lemma_lines_shape(input@, 0);
    }
    let mut k: usize = 0;
    while k < lines.len()
        invariant
            k <= lines@.len() == ls.len(),
            range_view(lines@) == ls,
            ls == lines_from(input@, 0),
            n == input@.len(),
            valid_utf8(input@),
            header_index(input@, ls, 0) == header_index(input@, ls, k as int),
            forall|j: int| 0 <= j < ls.len() ==> 0 <= #[trigger] ls[j].0 <= ls[j].1 <= input@.len(),
        decreases lines@.len() - k,
    {
        let line = lines[k];
        assert(ls[k as int] == (line.0 as int, line.1 as int));
        let t = trimmed_exec(input, line);
        if label_at_exec(input, t.0, t.1) {
            let mut s = t.0;
            while label_at_exec(input, s, t.1)
                invariant
                    t.0 <= s <= t.1 <= input@.len(),
                    strip_label(input@, t.0 as int, t.1 as int) == strip_label(input@, s as int, t.1 as int),
                decreases t.1 - s,
            {
                s = s + 15;
            }
            let num = trimmed_exec(input, (s, t.1));
            match parse_uint_exec(input, num.0, num.1) {
                Err(kind) => {
                    let mut m = "Invalid Content-Length: ".to_owned();
                    let text = match kind {
                        IntError::Empty => "cannot parse integer from empty string",
                        IntError::InvalidDigit => "invalid digit found in string",
                        IntError::Overflow => "number too large to fit in target type",
                    };
                    push_str(&mut m, text);
                    return Err(m);
                },
                Ok(len) => {
                    let crlf = find_exec(input, &[13u8, 10u8, 13u8, 10u8]);
                    let lf = find_exec(input, &[10u8, 10u8]);
                    proof {
                        assert([13u8, 10u8, 13u8, 10u8]@ =~= seq![13u8, 10u8, 13u8, 10u8]);
                        assert([10u8, 10u8]@ =~= seq![10u8, 10u8]);
                    }
                    let start: usize = match (crlf, lf) {
                        (Some(c), _) => c + 4,
                        (None, Some(l)) => l + 2,
                        (None, None) => {
                            return Err("Missing blank line after header".to_owned());
                        },
                    };
                    assert(start as int == body_start(input@));
                    assert(ls[k as int] == (line.0 as int, line.1 as int));
                    assert(header_index(input@, ls, 0) == k);
                    assert(parse_uint(input@, num.0 as int, num.1 as int) == Ok::<nat, IntError>(len as nat));
                    let avail = n - start;
                    if avail < len {
                        let mut m = "Content-Length ".to_owned();
                        push_decimal(&mut m, len as u64);
                        push_str(&mut m, " exceeds body size ");
                        push_decimal(&mut m, avail as u64);
                        return Err(m);
                    }
                    let mut body: Vec<u8> = Vec::new();
                    let mut j: usize = start;
                    while j < start + len
                        invariant
                            start <= j <= start + len <= n == input@.len(),
                            body@ == input@.subrange(start as int, j as int),
                        decreases start + len - j,
                    {
                        body.push(input[j]);
                        assert(input@.subrange(start as int, j + 1) =~= input@.subrange(start as int, j as int).push(input@[j as int]));
                        j = j + 1;
                    }
                    return match utf8_decode(body) {
                        Ok(text) => Ok(text),
                        Err(e) => {
                            let mut m = "Invalid UTF-8 body: ".to_owned();
                            push_str(&mut m, e.as_str());
                            Err(m)
                        },
                    };
                },
            }
        }
        k = k + 1;
    }
    Err("No Content-Length header found".to_owned())
}

fn push_decimal_bytes(v: &mut Vec<u8>, n: usize)
    ensures
        final(v)@ == old(v)@ + decimal_bytes(n as nat),
    decreases n,
{
    if n < 10 {
        v.push((48 + n) as u8);
        assert(decimal_bytes(n as nat) =~= seq![digit_byte(n as nat)]);
    } else {
        push_decimal_bytes(v, n / 10);
        v.push((48 + n % 10) as u8);
        assert(old(v)@ + decimal_bytes(n as nat) =~= old(v)@ + decimal_bytes((n / 10) as nat) + seq![digit_byte((n % 10) as nat)]);
    }
}

/// The message that carries `body`: `Content-Length: ` and the body's
/// length in bytes, CR LF CR LF, then the body.
pub fn format_message(body: &str) -> (r: Vec<u8>)
    ensures
        r@ == frame(body.spec_bytes()),
{
    let bytes = body.as_bytes();
    let mut v: Vec<u8> = Vec::new();
    v.push(67);
    v.push(111);
    v.push(110);
    v.push(116);
    v.push(101);
    v.push(110);
    v.push(116);
    v.push(45);
    v.push(76);
    v.push(101);
    v.push(110);
    v.push(103);
    v.push(116);
    v.push(104);
    v.push(58);
    v.push(32);
    assert(v@ =~= label_bytes() + seq![32u8]);
    push_decimal_bytes(&mut v, bytes.len());
    v.push(13);
    v.push(10);
    v.push(13);
    v.push(10);
    let ghost head = v@;
    assert(head =~= header_bytes(bytes@.len()));
    let mut i: usize = 0;
    while i < bytes.len()
        invariant
            i <= bytes@.len(),
            v@ == head + bytes@.subrange(0, i as int),
        decreases bytes@.len() - i,
    {
        v.push(bytes[i]);
        assert(bytes@.subrange(0, i + 1) =~= bytes@.subrange(0, i as int).push(bytes@[i as int]));
        i = i + 1;
    }
    assert(bytes@.subrange(0, bytes@.len() as int) =~= bytes@);
    v
}

proof fn lemma_decimal_bytes(n: nat)
    ensures
        decimal_bytes(n).len() >= 1,
        forall|i: int| 0 <= i < decimal_bytes(n).len() ==> is_digit(#[trigger] decimal_bytes(n)[i]),
    decreases n,
{
    if n >= 10 {
        lemma_decimal_bytes(n / 10);
        let s = decimal_bytes(n / 10);
        assert forall|i: int| 0 <= i < decimal_bytes(n).len() implies is_digit(#[trigger] decimal_bytes(n)[i]) by {
            if i < s.len() {
                assert(decimal_bytes(n)[i] == s[i]);
            }
        }
    }
}

proof fn lemma_parse_snoc(b: Seq<u8>, p: int, q: int, acc: nat, v: nat)
    requires
        0 <= p <= q < b.len(),
        parse_digits(b, p, q, acc, usize::MAX as nat) == Ok::<nat, IntError>(v),
        is_digit(b[q]),
        v * 10 + (b[q] - 48) <= usize::MAX,
    ensures
        parse_digits(b, p, q + 1, acc, usize::MAX as nat) == Ok::<nat, IntError>((v * 10 + (b[q] - 48)) as nat),
    decreases q - p,
{
    if p < q {
        let next = (acc * 10 + (b[p] - 48)) as nat;
        lemma_parse_snoc(b, p + 1, q, next, v);
    } else {
        assert(parse_digits(b, q + 1, q + 1, (acc * 10 + (b[q] - 48)) as nat, usize::MAX as nat) == Ok::<nat, IntError>((acc * 10 + (b[q] - 48)) as nat));
    }
}

proof fn lemma_parse_decimal(b: Seq<u8>, p: int, n: nat)
    requires
        0 <= p,
        p + decimal_bytes(n).len() <= b.len(),
        b.subrange(p, p + decimal_bytes(n).len()) == decimal_bytes(n),
        n <= usize::MAX,
    ensures
        parse_digits(b, p, p + decimal_bytes(n).len(), 0, usize::MAX as nat) == Ok::<nat, IntError>(n),
    decreases n,
{
    let d = decimal_bytes(n);
    assert(b[p + d.len() - 1] == d[d.len() - 1]);
    if n < 10 {
        assert(parse_digits(b, p + 1, p + 1, n, usize::MAX as nat) == Ok::<nat, IntError>(n));
    } else {
        let d0 = decimal_bytes(n / 10);
        assert(b.subrange(p, p + d0.len()) =~= d0) by {
            assert forall|i: int| 0 <= i < d0.len() implies b.subrange(p, p + d0.len())[i] == d0[i] by {
                assert(b[p + i] == d[i]);
            }
        }
        lemma_parse_decimal(b, p, n / 10);
        lemma_parse_snoc(b, p, p + d0.len(), 0, n / 10);
    }
}

proof fn lemma_find_first(b: Seq<u8>, p: int, q: int, pat: Seq<u8>)
    requires
        0 <= p <= q,
        pat.len() > 0,
        occurs_at(b, q, pat),
        forall|i: int| p <= i < q ==> !#[trigger] occurs_at(b, i, pat),
    ensures
        find_from(b, p, pat) == q,
    decreases q - p,
{
    if p < q {
        lemma_find_first(b, p + 1, q, pat);
    }
}

proof fn lemma_line_end_at(b: Seq<u8>, p: int, q: int)
    requires
        0 <= p <= q < b.len(),
        b[q] == 10u8,
        forall|i: int| p <= i < q ==> #[trigger] b[i] != 10u8,
    ensures
        line_end(b, p) == q,
    decreases q - p,
{
    if p < q {
        lemma_line_end_at(b, p + 1, q);
    }
}

proof fn lemma_ascii_valid(b: Seq<u8>)
    requires
        forall|i: int| 0 <= i < b.len() ==> #[trigger] b[i] < 128,
    ensures
        valid_utf8(b),
{
    assert(partial_valid_utf8(b, 0)) by {
        assert(b.subrange(0, 0) =~= Seq::<u8>::empty());
    }
    partial_valid_utf8_extend_ascii_block(b, 0, b.len() as int);
    assert(b.subrange(0, b.len() as int) =~= b);
}

/// The byte layout of a message: label, space, `d` digits, CR LF CR LF, body.
pub open spec fn frame_layout(f: Seq<u8>, d: int, dg: Seq<u8>) -> bool {
    &&& d == dg.len() >= 1
    &&& f.len() >= 20 + d
    &&& f.subrange(0, 15) == label_bytes()
    &&& f[15] == 32u8
    &&& f.subrange(16, 16 + d) == dg
    &&& (forall|j: int| 0 <= j < d ==> is_digit(#[trigger] dg[j]))
    &&& f[16 + d] == 13u8
    &&& f[17 + d] == 10u8
    &&& f[18 + d] == 13u8
    &&& f[19 + d] == 10u8
}

proof fn lemma_frame_plain(f: Seq<u8>, d: int, dg: Seq<u8>)
    requires
        frame_layout(f, d, dg),
    ensures
        forall|i: int| 0 <= i < 16 + d ==> {
            &&& #[trigger] f[i] != 10u8
            &&& f[i] != 13u8
            &&& f[i] < 128
            &&& (i != 15 ==> !crate::text::is_ascii_ws(f[i]) && f[i] != 0xC2u8 && f[i] != 0xE1u8
                && f[i] != 0xE2u8 && f[i] != 0xE3u8)
        },
{
    assert forall|i: int| 0 <= i < 16 + d implies {
        &&& #[trigger] f[i] != 10u8
        &&& f[i] != 13u8
        &&& f[i] < 128
        &&& (i != 15 ==> !crate::text::is_ascii_ws(f[i]) && f[i] != 0xC2u8 && f[i] != 0xE1u8
            && f[i] != 0xE2u8 && f[i] != 0xE3u8)
    } by {
        if i < 15 {
            assert(f[i] == f.subrange(0, 15)[i]);
        } else if i > 15 {
            assert(f[i] == f.subrange(16, 16 + d)[i - 16]);
            assert(is_digit(dg[i - 16]));
        }
    }
}

proof fn lemma_frame_header(f: Seq<u8>, d: int, dg: Seq<u8>)
    requires
        frame_layout(f, d, dg),
    ensures
        header_index(f, lines_from(f, 0), 0) == 0,
        lines_from(f, 0).len() > 0,
        trimmed(f, lines_from(f, 0)[0]) == (0int, 16 + d),
        strip_label(f, 0, 16 + d) == 15,
        trimmed(f, (15int, 16 + d)) == (16int, 16 + d),
        f[16] != 43u8,
        body_start(f) == 20 + d,
{
    lemma_frame_plain(f, d, dg);
    lemma_line_end_at(f, 0, 17 + d);
    assert(content_end(f, 0, 17 + d) == 16 + d);
    let ls = lines_from(f, 0);
    assert(ls[0] == (0int, 16 + d));
    assert(skip_ws(f, 0, 16 + d) == 0);
    assert(trim_back(f, 0, 16 + d) == 16 + d);
    assert(header_index(f, ls, 0) == 0);
    assert(!label_at(f, 15, 16 + d)) by {
        if label_at(f, 15, 16 + d) {
            assert(f.subrange(15, 30)[0] == f[15]);
        }
    }
    assert(label_at(f, 0, 16 + d));
    assert(strip_label(f, 15, 16 + d) == 15);
    assert(strip_label(f, 0, 16 + d) == 15);
    assert(skip_ws(f, 16, 16 + d) == 16);
    assert(skip_ws(f, 15, 16 + d) == 16);
    assert(trim_back(f, 16, 16 + d) == 16 + d);
    assert(f[16] == dg[0]) by {
        assert(f[16] == f.subrange(16, 16 + d)[0]);
    }
    let crlf = seq![13u8, 10u8, 13u8, 10u8];
    assert(f.subrange(16 + d, 20 + d) =~= crlf);
    assert forall|i: int| 0 <= i < 16 + d implies !#[trigger] occurs_at(f, i, crlf) by {
        if occurs_at(f, i, crlf) {
            assert(f.subrange(i, i + 4)[0] == f[i]);
        }
    }
    lemma_find_first(f, 0, 16 + d, crlf);
}

/// A message made by `format_message` reads back as the body it carries:
/// the whole header is one line, the length after the label is the body's
/// length, and the first blank line is the one that ends the header.
#[verifier::spinoff_prover]
#[verifier::rlimit(40)]
pub proof fn law_format_then_parse(body: Seq<char>)
    requires
        encode_utf8(body).len() <= usize::MAX,
    ensures
        framing(frame(encode_utf8(body))) == Framing::Body(
            header_bytes(encode_utf8(body).len()).len() as int,
            frame(encode_utf8(body)).len() as int,
        ),
        decode_utf8(
            frame(encode_utf8(body)).subrange(
                header_bytes(encode_utf8(body).len()).len() as int,
                frame(encode_utf8(body)).len() as int,
            ),
        ) == body,
{
    let e = encode_utf8(body);
    let n = e.len();
    let dg = decimal_bytes(n);
    let d = dg.len() as int;
    let h = header_bytes(n);
    let f = frame(e);
    lemma_decimal_bytes(n);
    assert(f.subrange(0, 15) =~= label_bytes());
    assert(f.subrange(16, 16 + d) =~= dg);
    assert(frame_layout(f, d, dg));
    assert(f.subrange(20 + d, f.len() as int) =~= e);
    assert(valid_utf8(e)) by {
        encode_utf8_valid_utf8(body);
    }
    assert(decode_utf8(e) == body) by {
        encode_utf8_decode_utf8(body);
    }
    assert(valid_utf8(f)) by {
        lemma_frame_plain(f, d, dg);
        assert forall|i: int| 0 <= i < h.len() implies #[trigger] h[i] < 128 by {
            assert(h[i] == f[i]);
        }
        lemma_ascii_valid(h);
        valid_utf8_concat(h, e);
    }
    lemma_frame_header(f, d, dg);
    lemma_parse_decimal(f, 16, n);
    assert(parse_uint(f, 16, 16 + d) == Ok::<nat, IntError>(n));
}

/// What a line read while waiting for a header says: nothing (`None`), or
/// the length after the label, or why that length does not parse.
pub open spec fn header_value(b: Seq<u8>) -> Option<Result<nat, IntError>> {
    let t = trimmed(b, (0, b.len() as int));
    if label_at(b, t.0, t.1) {
        let num = trimmed(b, (strip_label(b, t.0, t.1), t.1));
        Some(parse_uint(b, num.0, num.1))
    } else {
        None
    }
}

/// The message stream of the tool server; reading and writing it is done
/// by the program around the library, which hands each header line to
/// [`McpTransport::header_line`] and frames each reply with
/// [`format_message`].
pub struct McpTransport;

impl McpTransport {
    /// What a line read while waiting for a message says: `None` to read
    /// on (blank lines and lines without the label), the announced length,
    /// or the error text for a length that does not parse.
    pub fn header_line(line: &str) -> (r: Option<Result<usize, String>>)
        ensures
            match header_value(line.spec_bytes()) {
                None => r is None,
                Some(Ok(n)) => r == Some(Ok::<usize, String>(n as usize)),
                Some(Err(k)) => r matches Some(Err(m)) && m@ == "Invalid Content-Length: "@ + int_error_text(k),
            },
    {
        let b = line.as_bytes();
        let t = trimmed_exec(b, (0, b.len()));
        if !label_at_exec(b, t.0, t.1) {
            return None;
        }
        let mut s = t.0;
        while label_at_exec(b, s, t.1)
            invariant
                t.0 <= s <= t.1 <= b@.len(),
                strip_label(b@, t.0 as int, t.1 as int) == strip_label(b@, s as int, t.1 as int),
            decreases t.1 - s,
        {
            s = s + 15;
        }
        let num = trimmed_exec(b, (s, t.1));
        match parse_uint_exec(b, num.0, num.1) {
            Ok(n) => Some(Ok(n)),
            Err(kind) => {
                let mut m = "Invalid Content-Length: ".to_owned();
                let text = match kind {
                    IntError::Empty => "cannot parse integer from empty string",
                    IntError::InvalidDigit => "invalid digit found in string",
                    IntError::Overflow => "number too large to fit in target type",
                };
                push_str(&mut m, text);
                Some(Err(m))
            },
        }
    }
}

} // verus!
