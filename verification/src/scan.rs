//! The recognisers of the two scanning modes, over the bytes of the input.
//!
//! Each recogniser is a spec function from a buffer and an offset to the
//! offset at which the longest match ends, with an executable twin that
//! computes it.

use vstd::prelude::*;
use vstd::utf8::{
    is_char_boundary, is_char_boundary_iff_not_is_continuation_byte,
    is_char_boundary_start_end_of_seq, pop_first_scalar, valid_first_scalar, valid_utf8,
    valid_utf8_split,
};

verus! {

/// The bytes that the recognisers tell apart.
pub const TAB: u8 = 0x09;

pub const LINE_FEED: u8 = 0x0a;

pub const CARRIAGE_RETURN: u8 = 0x0d;

pub const SPACE: u8 = 0x20;

pub const QUOTE: u8 = 0x22;

pub const PLUS: u8 = 0x2b;

pub const COMMA: u8 = 0x2c;

pub const MINUS: u8 = 0x2d;

pub const DOT: u8 = 0x2e;

pub const SLASH: u8 = 0x2f;

pub const ZERO: u8 = 0x30;

pub const NINE: u8 = 0x39;

pub const COLON: u8 = 0x3a;

pub const LEFT_BRACKET: u8 = 0x5b;

pub const BACKSLASH: u8 = 0x5c;

pub const RIGHT_BRACKET: u8 = 0x5d;

pub const LEFT_BRACE: u8 = 0x7b;

pub const RIGHT_BRACE: u8 = 0x7d;

/// Space, carriage return, line feed and tab: skipped between tokens.
pub open spec fn is_whitespace(c: u8) -> bool {
    c == SPACE || c == CARRIAGE_RETURN || c == LINE_FEED || c == TAB
}

/// `0-9`.
pub open spec fn is_digit(c: u8) -> bool {
    ZERO <= c <= NINE
}

/// `0-9`, `a-f`, `A-F`.
pub open spec fn is_hex_digit(c: u8) -> bool {
    is_digit(c) || (0x41 <= c <= 0x46) || (0x61 <= c <= 0x66)
}

/// The bytes that may follow a backslash on their own: `"`, `\`, `/`,
/// `b`, `f`, `n`, `r`, `t`.
pub open spec fn is_simple_escape(c: u8) -> bool {
    c == QUOTE || c == BACKSLASH || c == SLASH || c == 0x62 || c == 0x66 || c == 0x6e || c == 0x72
        || c == 0x74
}

/// A byte of a character that may stand unescaped inside a string: not a
/// quote, not a backslash, not a control character.
pub open spec fn is_safe(c: u8) -> bool {
    c >= SPACE && c != QUOTE && c != BACKSLASH
}

/// A byte that cannot begin a character: one of the form `10xxxxxx`.
pub open spec fn is_continuation(c: u8) -> bool {
    0x80 <= c <= 0xbf
}

/// `p` is the end of the buffer or the first byte of a character.
pub open spec fn at_boundary(b: Seq<u8>, p: int) -> bool {
    p == b.len() || (0 <= p < b.len() && !is_continuation(b[p]))
}

/// The end of the run of whitespace that starts at `p`.
pub open spec fn whitespace_end(b: Seq<u8>, p: int) -> int
    decreases b.len() - p,
{
    if 0 <= p < b.len() && is_whitespace(b[p]) {
        whitespace_end(b, p + 1)
    } else {
        p
    }
}

/// The end of the run of decimal digits that starts at `p`.
pub open spec fn digits_end(b: Seq<u8>, p: int) -> int
    decreases b.len() - p,
{
    if 0 <= p < b.len() && is_digit(b[p]) {
        digits_end(b, p + 1)
    } else {
        p
    }
}

/// The end of the run of continuation bytes that starts at `p`.
pub open spec fn continuation_end(b: Seq<u8>, p: int) -> int
    decreases b.len() - p,
{
    if 0 <= p < b.len() && is_continuation(b[p]) {
        continuation_end(b, p + 1)
    } else {
        p
    }
}

/// The end of the character whose first byte is at `p`.
pub open spec fn char_end(b: Seq<u8>, p: int) -> int {
    continuation_end(b, p + 1)
}

/// The buffer holds `word` at `p`.
pub open spec fn has_word(b: Seq<u8>, p: int, word: Seq<u8>) -> bool {
    0 <= p && p + word.len() <= b.len() && b.subrange(p, p + word.len()) == word
}

/// The end of the optional fraction `\.[0-9]+` at `p`.
pub open spec fn fraction_end(b: Seq<u8>, p: int) -> int {
    if 0 <= p && p + 1 < b.len() && b[p] == DOT && is_digit(b[p + 1]) {
        digits_end(b, p + 1)
    } else {
        p
    }
}

/// Where the digits of an exponent at `p` would begin: behind `e` or `E`
/// and an optional sign.
pub open spec fn exponent_digits(b: Seq<u8>, p: int) -> int {
    if p + 1 < b.len() && (b[p + 1] == PLUS || b[p + 1] == MINUS) {
        p + 2
    } else {
        p + 1
    }
}

/// The end of the optional exponent `[eE][+-]?[0-9]+` at `p`.
pub open spec fn exponent_end(b: Seq<u8>, p: int) -> int {
    if 0 <= p < b.len() && (b[p] == 0x45 || b[p] == 0x65) && exponent_digits(b, p) < b.len()
        && is_digit(b[exponent_digits(b, p)]) {
        digits_end(b, exponent_digits(b, p))
    } else {
        p
    }
}

/// Where the integer part of a number at `p` begins: behind an optional
/// minus sign.
pub open spec fn integer_start(b: Seq<u8>, p: int) -> int {
    if 0 <= p < b.len() && b[p] == MINUS {
        p + 1
    } else {
        p
    }
}

/// The end of the integer part `0|[1-9][0-9]*` at `p`, where `b[p]` is a
/// digit: a leading zero stands alone.
pub open spec fn integer_end(b: Seq<u8>, p: int) -> int {
    if b[p] == ZERO {
        p + 1
    } else {
        digits_end(b, p)
    }
}

/// The end of the longest match of
/// `-?(0|[1-9][0-9]*)(\.[0-9]+)?([eE][+-]?[0-9]+)?` at `p`, if there is one.
pub open spec fn number_end(b: Seq<u8>, p: int) -> Option<int> {
    let i = integer_start(b, p);
    if 0 <= i < b.len() && is_digit(b[i]) {
        Some(exponent_end(b, fraction_end(b, integer_end(b, i))))
    } else {
        None
    }
}

/// The whole of `text` is one number literal.
pub open spec fn is_number(text: Seq<u8>) -> bool {
    number_end(text, 0) == Some(text.len() as int)
}

/// The length of the escape sequence at `p`, where `b[p]` is a backslash:
/// 2 for a simple escape, 6 for `\u` and four hex digits, 0 for anything
/// else.
pub open spec fn escape_len(b: Seq<u8>, p: int) -> int {
    if 0 <= p && p + 1 < b.len() && is_simple_escape(b[p + 1]) {
        2
    } else if 0 <= p && p + 5 < b.len() && b[p + 1] == 0x75 && is_hex_digit(b[p + 2])
        && is_hex_digit(b[p + 3]) && is_hex_digit(b[p + 4]) && is_hex_digit(b[p + 5]) {
        6
    } else {
        0
    }
}

/// The end of the longest run of safe characters and escape sequences
/// that starts at `p`.
pub open spec fn content_end(b: Seq<u8>, p: int) -> int
    decreases b.len() - p,
{
    if 0 <= p < b.len() && is_safe(b[p]) {
        content_end(b, p + 1)
    } else if 0 <= p < b.len() && b[p] == BACKSLASH && escape_len(b, p) > 0 {
        content_end(b, p + escape_len(b, p))
    } else {
        p
    }
}

/// The whole of `text` can stand between two quotes.
pub open spec fn is_string_body(text: Seq<u8>) -> bool {
    content_end(text, 0) == text.len()
}

/// The end of the run of at most `limit` hex digits that starts at `p`.
pub open spec fn hex_end(b: Seq<u8>, p: int, limit: int) -> int
    decreases limit,
{
    if limit > 0 && 0 <= p < b.len() && is_hex_digit(b[p]) {
        hex_end(b, p + 1, limit - 1)
    } else {
        p
    }
}

/// A run of whitespace ends inside the buffer, in front of a byte that
/// is no whitespace.
pub proof fn lemma_whitespace_end_bounds(b: Seq<u8>, p: int)
    requires
        0 <= p <= b.len(),
    ensures
        p <= whitespace_end(b, p) <= b.len(),
        whitespace_end(b, p) < b.len() ==> !is_whitespace(b[whitespace_end(b, p)]),
    decreases b.len() - p,
{
    if p < b.len() && is_whitespace(b[p]) {
        lemma_whitespace_end_bounds(b, p + 1);
    }
}

/// A run of digits holds digits only and ends inside the buffer, in
/// front of a byte that is no digit.
pub proof fn lemma_digits_end_bounds(b: Seq<u8>, p: int)
    requires
        0 <= p <= b.len(),
    ensures
        p <= digits_end(b, p) <= b.len(),
        digits_end(b, p) < b.len() ==> !is_digit(b[digits_end(b, p)]),
        p < b.len() && is_digit(b[p]) ==> p < digits_end(b, p),
        forall|i: int| p <= i < digits_end(b, p) ==> is_digit(#[trigger] b[i]),
    decreases b.len() - p,
{
    if p < b.len() && is_digit(b[p]) {
        lemma_digits_end_bounds(b, p + 1);
    }
}

/// A run of continuation bytes ends inside the buffer, on the first byte
/// of a character or at the end.
pub proof fn lemma_continuation_end_bounds(b: Seq<u8>, p: int)
    requires
        0 <= p <= b.len(),
    ensures
        p <= continuation_end(b, p) <= b.len(),
        at_boundary(b, continuation_end(b, p)),
    decreases b.len() - p,
{
    if p < b.len() && is_continuation(b[p]) {
        lemma_continuation_end_bounds(b, p + 1);
    }
}

/// A run of hex digits holds hex digits only, is no longer than its
/// limit, and ends inside the buffer.
pub proof fn lemma_hex_end_bounds(b: Seq<u8>, p: int, limit: int)
    requires
        0 <= p <= b.len(),
        0 <= limit,
    ensures
        p <= hex_end(b, p, limit) <= b.len(),
        hex_end(b, p, limit) <= p + limit,
        forall|i: int| p <= i < hex_end(b, p, limit) ==> is_hex_digit(#[trigger] b[i]),
    decreases limit,
{
    if limit > 0 && p < b.len() && is_hex_digit(b[p]) {
        lemma_hex_end_bounds(b, p + 1, limit - 1);
    }
}

/// A number literal is not empty, ends inside the buffer, and ends in a
/// digit.
pub proof fn lemma_number_end_bounds(b: Seq<u8>, p: int)
    requires
        0 <= p <= b.len(),
        number_end(b, p) is Some,
    ensures
        p < number_end(b, p)->0 <= b.len(),
        is_digit(b[number_end(b, p)->0 - 1]),
{
    let i = integer_start(b, p);
    lemma_digits_end_bounds(b, i);
    let ie = integer_end(b, i);
    if ie + 1 < b.len() {
        lemma_digits_end_bounds(b, ie + 1);
    }
    let fe = fraction_end(b, ie);
    let d = exponent_digits(b, fe);
    if d <= b.len() {
        lemma_digits_end_bounds(b, d);
    }
}

/// A run of safe characters and escapes ends inside the buffer, in
/// front of a byte that is not safe and begins no escape.
pub proof fn lemma_content_end_bounds(b: Seq<u8>, p: int)
    requires
        0 <= p <= b.len(),
    ensures
        p <= content_end(b, p) <= b.len(),
        content_end(b, p) < b.len() ==> !is_safe(b[content_end(b, p)]),
        content_end(b, p) < b.len() && b[content_end(b, p)] == BACKSLASH ==> escape_len(
            b,
            content_end(b, p),
        ) == 0,
    decreases b.len() - p,
{
    if p < b.len() && is_safe(b[p]) {
        lemma_content_end_bounds(b, p + 1);
    } else if p < b.len() && b[p] == BACKSLASH && escape_len(b, p) > 0 {
        lemma_content_end_bounds(b, p + escape_len(b, p));
    }
}

/// The end of the run of whitespace that starts at `pos`.
pub(crate) fn skip_whitespace(bytes: &[u8], pos: usize) -> (end: usize)
    requires
        pos <= bytes@.len(),
    ensures
        end == whitespace_end(bytes@, pos as int),
        pos <= end <= bytes@.len(),
{
    let mut i: usize = pos;
    while i < bytes.len() && (bytes[i] == SPACE || bytes[i] == CARRIAGE_RETURN || bytes[i]
        == LINE_FEED || bytes[i] == TAB)
        invariant
            pos <= i <= bytes@.len(),
            whitespace_end(bytes@, pos as int) == whitespace_end(bytes@, i as int),
        decreases bytes@.len() - i,
    {
        i = i + 1;
    }
    i
}

/// `c` is a decimal digit.
pub(crate) fn digit(c: u8) -> (yes: bool)
    ensures
        yes == is_digit(c),
{
    ZERO <= c && c <= NINE
}

/// `c` is a hexadecimal digit.
pub(crate) fn hex_digit(c: u8) -> (yes: bool)
    ensures
        yes == is_hex_digit(c),
{
    digit(c) || (0x41 <= c && c <= 0x46) || (0x61 <= c && c <= 0x66)
}

/// The end of the run of decimal digits that starts at `pos`.
pub(crate) fn scan_digits(bytes: &[u8], pos: usize) -> (end: usize)
    requires
        pos <= bytes@.len(),
    ensures
        end == digits_end(bytes@, pos as int),
        pos <= end <= bytes@.len(),
{
    let mut i: usize = pos;
    while i < bytes.len() && digit(bytes[i])
        invariant
            pos <= i <= bytes@.len(),
            digits_end(bytes@, pos as int) == digits_end(bytes@, i as int),
        decreases bytes@.len() - i,
    {
        i = i + 1;
    }
    i
}

/// The end of the character whose first byte is at `pos`.
pub(crate) fn scan_char(bytes: &[u8], pos: usize) -> (end: usize)
    requires
        pos < bytes@.len(),
    ensures
        end == char_end(bytes@, pos as int),
        pos < end <= bytes@.len(),
        at_boundary(bytes@, end as int),
{
    let len = bytes.len();
    let mut i: usize = pos + 1;
    proof {
        lemma_continuation_end_bounds(bytes@, pos + 1);
    }
    while i < len && 0x80 <= bytes[i] && bytes[i] <= 0xbf
        invariant
            len == bytes@.len(),
            pos < i <= bytes@.len(),
            continuation_end(bytes@, pos + 1) == continuation_end(bytes@, i as int),
        decreases bytes@.len() - i,
    {
        i = i + 1;
    }
    i
}

/// The end of the number literal at `pos`, if one begins there.
pub(crate) fn scan_number(bytes: &[u8], pos: usize) -> (end: Option<usize>)
    requires
        pos <= bytes@.len(),
    ensures
        end is Some == number_end(bytes@, pos as int) is Some,
        end matches Some(e) ==> e == number_end(bytes@, pos as int)->0 && pos < e <= bytes@.len(),
{
    let len = bytes.len();
    let start = if pos < len && bytes[pos] == MINUS {
        pos + 1
    } else {
        pos
    };
    if !(start < len && digit(bytes[start])) {
        return None;
    }
    proof {
        lemma_number_end_bounds(bytes@, pos as int);
    }
    let mut end = if bytes[start] == ZERO {
        start + 1
    } else {
        scan_digits(bytes, start)
    };
    if end < len && bytes[end] == DOT && end + 1 < len && digit(bytes[end + 1]) {
        end = scan_digits(bytes, end + 1);
    }
    if end < len && (bytes[end] == 0x45 || bytes[end] == 0x65) {
        let digits = if end + 1 < len && (bytes[end + 1] == PLUS || bytes[end + 1] == MINUS) {
            end + 2
        } else {
            end + 1
        };
        if digits < len && digit(bytes[digits]) {
            end = scan_digits(bytes, digits);
        }
    }
    Some(end)
}

/// The length of the escape sequence at `pos`, or 0 where the backslash
/// there begins none.
pub(crate) fn scan_escape(bytes: &[u8], pos: usize) -> (len: usize)
    requires
        pos < bytes@.len(),
    ensures
        len == escape_len(bytes@, pos as int),
        pos + len <= bytes@.len(),
{
    let n = bytes.len();
    if n - pos < 2 {
        return 0;
    }
    let c = bytes[pos + 1];
    if c == QUOTE || c == BACKSLASH || c == SLASH || c == 0x62 || c == 0x66 || c == 0x6e || c
        == 0x72 || c == 0x74 {
        2
    } else if n - pos >= 6 && c == 0x75 && hex_digit(bytes[pos + 2]) && hex_digit(bytes[pos + 3])
        && hex_digit(bytes[pos + 4]) && hex_digit(bytes[pos + 5]) {
        6
    } else {
        0
    }
}

/// The end of the longest run of safe characters and escape sequences
/// that starts at `pos`.
pub(crate) fn scan_content(bytes: &[u8], pos: usize) -> (end: usize)
    requires
        pos <= bytes@.len(),
    ensures
        end == content_end(bytes@, pos as int),
        pos <= end <= bytes@.len(),
{
    let mut i: usize = pos;
    loop
        invariant
            pos <= i <= bytes@.len(),
            content_end(bytes@, pos as int) == content_end(bytes@, i as int),
        ensures
            pos <= i <= bytes@.len(),
            i == content_end(bytes@, pos as int),
        decreases bytes@.len() - i,
    {
        if i >= bytes.len() {
            break ;
        }
        let c = bytes[i];
        if c >= SPACE && c != QUOTE && c != BACKSLASH {
            i = i + 1;
        } else if c == BACKSLASH {
            let step = scan_escape(bytes, i);
            if step == 0 {
                break ;
            }
            i = i + step;
        } else {
            break ;
        }
    }
    i
}

/// The end of the run of at most `limit` hex digits that starts at `pos`.
pub(crate) fn scan_hex(bytes: &[u8], pos: usize, limit: usize) -> (end: usize)
    requires
        pos <= bytes@.len(),
    ensures
        end == hex_end(bytes@, pos as int, limit as int),
        pos <= end <= bytes@.len(),
        end <= pos + limit,
{
    let mut i: usize = pos;
    let mut left: usize = limit;
    while left > 0 && i < bytes.len() && hex_digit(bytes[i])
        invariant
            pos <= i <= bytes@.len(),
            i + left == pos + limit,
            hex_end(bytes@, pos as int, limit as int) == hex_end(bytes@, i as int, left as int),
        decreases left,
    {
        i = i + 1;
        left = left - 1;
    }
    i
}

/// In well-formed UTF-8 the byte behind an ASCII byte begins a character.
pub proof fn lemma_boundary_after_ascii(b: Seq<u8>, p: int)
    requires
        valid_utf8(b),
        0 <= p < b.len(),
        b[p] <= 0x7f,
    ensures
        at_boundary(b, p + 1),
{
    is_char_boundary_iff_not_is_continuation_byte(b, p);
    valid_utf8_split(b, p);
    let tail = b.subrange(p, b.len() as int);
    assert(tail[0] == b[p]);
    assert(valid_first_scalar(tail) && valid_utf8(pop_first_scalar(tail)));
    let rest = pop_first_scalar(tail);
    assert(rest =~= b.subrange(p + 1, b.len() as int));
    if p + 1 < b.len() {
        assert(rest[0] == b[p + 1]);
        assert(valid_first_scalar(rest));
    }
}

/// Well-formed UTF-8 begins with the first byte of a character.
pub proof fn lemma_boundary_at_start(b: Seq<u8>)
    requires
        valid_utf8(b),
    ensures
        at_boundary(b, 0),
{
    if b.len() > 0 {
        assert(valid_first_scalar(b));
    }
}

/// In well-formed UTF-8 an offset that holds the first byte of a
/// character, or the end of the buffer, is a character boundary.
pub proof fn lemma_boundary_is_char_boundary(b: Seq<u8>, p: int)
    requires
        valid_utf8(b),
        at_boundary(b, p),
    ensures
        is_char_boundary(b, p),
{
    if p == b.len() {
        is_char_boundary_start_end_of_seq(b);
    } else {
        is_char_boundary_iff_not_is_continuation_byte(b, p);
    }
}

/// The buffer holds the bytes of `text` from offset `p` on.
pub open spec fn holds(b: Seq<u8>, p: int, text: Seq<u8>) -> bool {
    0 <= p && p + text.len() <= b.len() && forall|j: int|
        0 <= j < text.len() ==> b[p + j] == #[trigger] text[j]
}

/// The byte at `q`, if there is one, cannot continue a number literal
/// that ends there: it is no digit, no `.`, no `e` and no `E`.
pub open spec fn ends_number(b: Seq<u8>, q: int) -> bool {
    q >= b.len() || !(is_digit(b[q]) || b[q] == DOT || b[q] == 0x45 || b[q] == 0x65)
}

/// A run of digits inside `text` is the same run where the buffer holds
/// `text`, if no digit follows the text there.
pub proof fn lemma_digits_in_context(b: Seq<u8>, p: int, text: Seq<u8>, i: int)
    requires
        holds(b, p, text),
        0 <= i <= text.len(),
        p + text.len() >= b.len() || !is_digit(b[p + text.len()]),
    ensures
        digits_end(b, p + i) == p + digits_end(text, i),
    decreases text.len() - i,
{
    if i < text.len() {
        assert(b[p + i] == text[i]);
        if is_digit(text[i]) {
            lemma_digits_in_context(b, p, text, i + 1);
        }
    }
}

/// A number literal is found again where the buffer holds it, if what
/// follows cannot continue it.
pub proof fn lemma_number_in_context(b: Seq<u8>, p: int, text: Seq<u8>)
    requires
        holds(b, p, text),
        is_number(text),
        ends_number(b, p + text.len()),
    ensures
        number_end(b, p) == Some(p + text.len()),
{
    let n = text.len() as int;
    lemma_number_end_bounds(text, 0);
    assert(b[p] == text[0]);
    let i = integer_start(text, 0);
    assert(integer_start(b, p) == p + i);
    assert(b[p + i] == text[i]);
    lemma_digits_in_context(b, p, text, i);
    lemma_digits_end_bounds(text, i);
    let ie = integer_end(text, i);
    assert(integer_end(b, p + i) == p + ie);
    if ie < n {
        assert(b[p + ie] == text[ie]);
    }
    if ie + 1 < n {
        assert(b[p + ie + 1] == text[ie + 1]);
        lemma_digits_in_context(b, p, text, ie + 1);
        lemma_digits_end_bounds(text, ie + 1);
    }
    let fe = fraction_end(text, ie);
    if ie + 1 == n {
        assert(fe == ie);
        assert(exponent_end(text, fe) == fe);
    }
    assert(fraction_end(b, p + ie) == p + fe);
    if fe < n {
        assert(b[p + fe] == text[fe]);
        let d = exponent_digits(text, fe);
        if fe + 1 < n {
            assert(b[p + fe + 1] == text[fe + 1]);
        }
        assert(d < n);
        assert(exponent_digits(b, p + fe) == p + d);
        assert(b[p + d] == text[d]);
        lemma_digits_in_context(b, p, text, d);
    }
}

/// An escape sequence inside `text` is the same where the buffer holds
/// `text`.
pub proof fn lemma_escape_in_context(b: Seq<u8>, p: int, text: Seq<u8>, i: int)
    requires
        holds(b, p, text),
        0 <= i < text.len(),
        escape_len(text, i) > 0,
    ensures
        escape_len(b, p + i) == escape_len(text, i),
        i + escape_len(text, i) <= text.len(),
{
    assert(b[p + i + 1] == text[i + 1]);
    if !is_simple_escape(text[i + 1]) {
        assert(b[p + i + 2] == text[i + 2]);
        assert(b[p + i + 3] == text[i + 3]);
        assert(b[p + i + 4] == text[i + 4]);
        assert(b[p + i + 5] == text[i + 5]);
    }
}

/// The body of a string literal is found again where the buffer holds
/// it in front of a quote.
pub proof fn lemma_body_in_context(b: Seq<u8>, p: int, text: Seq<u8>, i: int)
    requires
        holds(b, p, text),
        p + text.len() < b.len(),
        b[p + text.len()] == QUOTE,
        0 <= i <= text.len(),
        content_end(text, i) == text.len(),
    ensures
        content_end(b, p + i) == p + text.len(),
    decreases text.len() - i,
{
    if i < text.len() {
        assert(b[p + i] == text[i]);
        if is_safe(text[i]) {
            lemma_body_in_context(b, p, text, i + 1);
        } else {
            lemma_escape_in_context(b, p, text, i);
            lemma_body_in_context(b, p, text, i + escape_len(text, i));
        }
    }
}

/// A run of digits that ends inside a part of the buffer is the same
/// run in that part alone.
pub proof fn lemma_digits_in_part(b: Seq<u8>, p: int, e: int, i: int)
    requires
        0 <= p <= i <= e <= b.len(),
        digits_end(b, i) <= e,
    ensures
        digits_end(b.subrange(p, e), i - p) == digits_end(b, i) - p,
    decreases e - i,
{
    let part = b.subrange(p, e);
    lemma_digits_end_bounds(b, i);
    if i < e {
        assert(part[i - p] == b[i]);
        if is_digit(b[i]) {
            lemma_digits_end_bounds(b, i + 1);
            lemma_digits_in_part(b, p, e, i + 1);
        }
    }
}

/// The bytes of a number literal in the buffer are a number literal.
pub proof fn lemma_number_is_number(b: Seq<u8>, p: int)
    requires
        0 <= p <= b.len(),
        number_end(b, p) is Some,
    ensures
        is_number(b.subrange(p, number_end(b, p)->0)),
{
    lemma_number_end_bounds(b, p);
    let e = number_end(b, p)->0;
    let part = b.subrange(p, e);
    let i = integer_start(b, p);
    lemma_digits_end_bounds(b, i);
    let ie = integer_end(b, i);
    if ie + 1 <= b.len() {
        lemma_digits_end_bounds(b, ie + 1);
    }
    let fe = fraction_end(b, ie);
    let d = exponent_digits(b, fe);
    if d <= b.len() {
        lemma_digits_end_bounds(b, d);
    }
    assert(i <= ie <= fe <= e);
    assert(part[0] == b[p]);
    assert(integer_start(part, 0) == i - p);
    assert(part[i - p] == b[i]);
    if b[i] != ZERO {
        lemma_digits_in_part(b, p, e, i);
    }
    assert(integer_end(part, i - p) == ie - p);
    if fe > ie {
        assert(part[ie - p] == b[ie]);
        assert(part[ie + 1 - p] == b[ie + 1]);
        lemma_digits_in_part(b, p, e, ie + 1);
    } else if ie + 1 < e {
        assert(part[ie - p] == b[ie]);
        assert(part[ie + 1 - p] == b[ie + 1]);
    }
    assert(fraction_end(part, ie - p) == fe - p);
    if e > fe {
        assert(part[fe - p] == b[fe]);
        if fe + 1 < e {
            assert(part[fe + 1 - p] == b[fe + 1]);
        }
        assert(exponent_digits(part, fe - p) == d - p);
        assert(part[d - p] == b[d]);
        lemma_digits_in_part(b, p, e, d);
    } else {
        assert(exponent_end(part, fe - p) == fe - p);
    }
}

/// A run of safe characters and escapes in the buffer is, on its own,
/// the body of a string literal.
pub proof fn lemma_content_is_body(b: Seq<u8>, p: int, i: int)
    requires
        0 <= p <= i <= content_end(b, p),
        p <= b.len(),
        content_end(b, i) == content_end(b, p),
    ensures
        content_end(b.subrange(p, content_end(b, p)), i - p) == content_end(b, p) - p,
    decreases b.len() - i,
{
    lemma_content_end_bounds(b, p);
    let e = content_end(b, p);
    let part = b.subrange(p, e);
    if i < e {
        assert(part[i - p] == b[i]);
        if is_safe(b[i]) {
            lemma_content_end_bounds(b, i + 1);
            lemma_content_is_body(b, p, i + 1);
        } else {
            let step = escape_len(b, i);
            lemma_content_end_bounds(b, i + step);
            assert(part[i + 1 - p] == b[i + 1]);
            if step == 6 {
                assert(part[i + 2 - p] == b[i + 2]);
                assert(part[i + 3 - p] == b[i + 3]);
                assert(part[i + 4 - p] == b[i + 4]);
                assert(part[i + 5 - p] == b[i + 5]);
            }
            assert(escape_len(part, i - p) == step);
            lemma_content_is_body(b, p, i + step);
        }
    }
}

} // verus!
