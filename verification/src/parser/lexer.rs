//! The lexer: whitespace, identifiers, braced and quoted literals, numbers.
//!
//! Each token is defined twice. A spec function says, byte by byte, where the
//! token ends; an executable function finds that end, jumping from one
//! significant byte to the next with the byte scanner. The functions that
//! take `&mut &str` are the cursor-style entry points built on top of them.

use vstd::prelude::*;
use vstd::string::*;
use crate::parser::delimiter::{
    brace_or_escape, brace_set, find_brace_delimiter, find_delimiter, find_quote_delimiter, found,
    lemma_scan_first, quote_set, quote_special, scan, structural_set,
};
use crate::text::{
    alphanumeric, byte_len, char_at, lemma_after_ascii, lemma_edges, lemma_scalar_step,
    lemma_str_bytes_valid, on_boundary, scalar_at, scalar_width, sub_str, text_of, width_of,
};

verus! {

pub const QUOTE: u8 = 0x22;

pub const HASH: u8 = 0x23;

pub const PERCENT: u8 = 0x25;

pub const OPEN_PAREN: u8 = 0x28;

pub const CLOSE_PAREN: u8 = 0x29;

pub const PLUS: u8 = 0x2b;

pub const COMMA: u8 = 0x2c;

pub const MINUS: u8 = 0x2d;

pub const EQUALS: u8 = 0x3d;

pub const AT: u8 = 0x40;

pub const BACKSLASH: u8 = 0x5c;

pub const OPEN_BRACE: u8 = 0x7b;

pub const CLOSE_BRACE: u8 = 0x7d;

/// Space, tab, line feed or carriage return.
pub open spec fn is_space(c: u8) -> bool {
    c == 0x20 || c == 0x09 || c == 0x0a || c == 0x0d
}

/// The first position at or after `pos` that does not hold a space.
pub open spec fn skip_spaces(b: Seq<u8>, pos: int) -> int
    decreases b.len() - pos,
{
    if 0 <= pos < b.len() && is_space(b[pos]) {
        skip_spaces(b, pos + 1)
    } else {
        pos
    }
}

/// May `c` appear in an identifier?
pub open spec fn ident_char(c: char) -> bool {
    alphanumeric(c) || c == '_' || c == '-' || c == ':' || c == '.'
}

/// The end of the longest run of identifier characters that starts at `pos`.
pub open spec fn ident_end(b: Seq<u8>, pos: int) -> int
    decreases b.len() - pos,
{
    if 0 <= pos && pos + width_of(b[pos]) <= b.len() && ident_char(scalar_at(b, pos)) {
        ident_end(b, pos + width_of(b[pos]))
    } else {
        pos
    }
}

/// The position of the `}` that closes a braced literal whose content starts
/// at `pos`, `depth` braces being open inside it. A backslash hides the byte
/// after it.
pub open spec fn brace_scan(b: Seq<u8>, pos: int, depth: nat) -> Option<int>
    decreases b.len() - pos,
{
    if pos < 0 || pos >= b.len() {
        None
    } else if b[pos] == BACKSLASH {
        brace_scan(
            b,
            if pos + 1 < b.len() {
                pos + 2
            } else {
                pos + 1
            },
            depth,
        )
    } else if b[pos] == OPEN_BRACE {
        brace_scan(b, pos + 1, depth + 1)
    } else if b[pos] == CLOSE_BRACE {
        if depth == 0 {
            Some(pos)
        } else {
            brace_scan(b, pos + 1, (depth - 1) as nat)
        }
    } else {
        brace_scan(b, pos + 1, depth)
    }
}

/// The position of the `"` that closes a quoted literal whose content starts
/// at `pos`, `depth` braces being open inside it. A quote inside braces does
/// not close the literal; a backslash hides the byte after it.
pub open spec fn quote_scan(b: Seq<u8>, pos: int, depth: nat) -> Option<int>
    decreases b.len() - pos,
{
    if pos < 0 || pos >= b.len() {
        None
    } else if b[pos] == BACKSLASH && pos + 1 < b.len() {
        quote_scan(b, pos + 2, depth)
    } else if b[pos] == QUOTE && depth == 0 {
        Some(pos)
    } else if b[pos] == OPEN_BRACE {
        quote_scan(b, pos + 1, depth + 1)
    } else if b[pos] == CLOSE_BRACE && depth > 0 {
        quote_scan(b, pos + 1, (depth - 1) as nat)
    } else {
        quote_scan(b, pos + 1, depth)
    }
}

/// The closing quote of the quoted literal that opens at `pos`.
pub open spec fn quoted_end(b: Seq<u8>, pos: int) -> Option<int> {
    if 0 <= pos < b.len() && b[pos] == QUOTE {
        quote_scan(b, pos + 1, 0)
    } else {
        None
    }
}

/// An ASCII decimal digit.
pub open spec fn is_digit(c: u8) -> bool {
    0x30 <= c <= 0x39
}

/// The end of the run of digits that starts at `pos`.
pub open spec fn digits_end(b: Seq<u8>, pos: int) -> int
    decreases b.len() - pos,
{
    if 0 <= pos < b.len() && is_digit(b[pos]) {
        digits_end(b, pos + 1)
    } else {
        pos
    }
}

/// The number written by the digits `b[start..end]`.
pub open spec fn digits_value(b: Seq<u8>, start: int, end: int) -> nat
    decreases end - start,
{
    if start >= end {
        0
    } else {
        digits_value(b, start, end - 1) * 10 + (b[end - 1] - 0x30) as nat
    }
}

/// Where the digits of a number at `pos` start: after an optional sign.
pub open spec fn after_sign(b: Seq<u8>, pos: int) -> int {
    if 0 <= pos < b.len() && (b[pos] == PLUS || b[pos] == MINUS) {
        pos + 1
    } else {
        pos
    }
}

/// The number at `pos` and the position after it: an optional sign and at
/// least one digit, whose magnitude fits an `i64`.
pub open spec fn number_at(b: Seq<u8>, pos: int) -> Option<(int, int)> {
    let start = after_sign(b, pos);
    let end = digits_end(b, start);
    let magnitude = digits_value(b, start, end);
    if end == start || magnitude > i64::MAX {
        None
    } else if start > pos && b[pos] == MINUS {
        Some((-(magnitude as int), end))
    } else {
        Some((magnitude as int, end))
    }
}

pub proof fn lemma_skip_spaces_bounds(b: Seq<u8>, pos: int)
    requires
        0 <= pos <= b.len(),
    ensures
        pos <= skip_spaces(b, pos) <= b.len(),
        skip_spaces(b, pos) < b.len() ==> !is_space(b[skip_spaces(b, pos)]),
        forall|j: int| pos <= j < skip_spaces(b, pos) ==> is_space(b[j]),
        skip_spaces(b, skip_spaces(b, pos)) == skip_spaces(b, pos),
    decreases b.len() - pos,
{
    if pos < b.len() && is_space(b[pos]) {
        lemma_skip_spaces_bounds(b, pos + 1);
    }
}

pub proof fn lemma_ident_end_bounds(b: Seq<u8>, pos: int)
    requires
        0 <= pos,
    ensures
        pos <= ident_end(b, pos),
        pos <= b.len() ==> ident_end(b, pos) <= b.len(),
    decreases b.len() - pos,
{
    if pos + width_of(b[pos]) <= b.len() && ident_char(scalar_at(b, pos)) {
        lemma_ident_end_bounds(b, pos + width_of(b[pos]));
    }
}

pub proof fn lemma_brace_skip(b: Seq<u8>, pos: int, to: int, depth: nat)
    requires
        0 <= pos <= to <= b.len(),
        forall|j: int| pos <= j < to ==> !brace_or_escape(b[j]),
    ensures
        brace_scan(b, pos, depth) == brace_scan(b, to, depth),
    decreases to - pos,
{
    if pos < to {
        lemma_brace_skip(b, pos + 1, to, depth);
    }
}

pub proof fn lemma_quote_skip(b: Seq<u8>, pos: int, to: int, depth: nat)
    requires
        0 <= pos <= to <= b.len(),
        forall|j: int| pos <= j < to ==> !quote_special(b[j]),
    ensures
        quote_scan(b, pos, depth) == quote_scan(b, to, depth),
    decreases to - pos,
{
    if pos < to {
        lemma_quote_skip(b, pos + 1, to, depth);
    }
}

/// The closing byte that a scan reports lies at or after its start and holds the closer.
pub proof fn lemma_brace_scan_bounds(b: Seq<u8>, pos: int, depth: nat)
    requires
        0 <= pos,
    ensures
        brace_scan(b, pos, depth) matches Some(e) ==> pos <= e < b.len() && b[e] == CLOSE_BRACE,
    decreases b.len() - pos,
{
    if pos < b.len() {
        if b[pos] == BACKSLASH {
            lemma_brace_scan_bounds(
                b,
                if pos + 1 < b.len() {
                    pos + 2
                } else {
                    pos + 1
                },
                depth,
            );
        } else if b[pos] == OPEN_BRACE {
            lemma_brace_scan_bounds(b, pos + 1, depth + 1);
        } else if b[pos] == CLOSE_BRACE {
            if depth > 0 {
                lemma_brace_scan_bounds(b, pos + 1, (depth - 1) as nat);
            }
        } else {
            lemma_brace_scan_bounds(b, pos + 1, depth);
        }
    }
}

pub proof fn lemma_quote_scan_bounds(b: Seq<u8>, pos: int, depth: nat)
    requires
        0 <= pos,
    ensures
        quote_scan(b, pos, depth) matches Some(e) ==> pos <= e < b.len() && b[e] == QUOTE,
    decreases b.len() - pos,
{
    if pos < b.len() {
        if b[pos] == BACKSLASH && pos + 1 < b.len() {
            lemma_quote_scan_bounds(b, pos + 2, depth);
        } else if b[pos] == QUOTE && depth == 0 {
        } else if b[pos] == OPEN_BRACE {
            lemma_quote_scan_bounds(b, pos + 1, depth + 1);
        } else if b[pos] == CLOSE_BRACE && depth > 0 {
            lemma_quote_scan_bounds(b, pos + 1, (depth - 1) as nat);
        } else {
            lemma_quote_scan_bounds(b, pos + 1, depth);
        }
    }
}

pub proof fn lemma_digits_end_bounds(b: Seq<u8>, pos: int)
    requires
        0 <= pos <= b.len(),
    ensures
        pos <= digits_end(b, pos) <= b.len(),
        forall|j: int| pos <= j < digits_end(b, pos) ==> is_digit(b[j]),
    decreases b.len() - pos,
{
    if pos < b.len() && is_digit(b[pos]) {
        lemma_digits_end_bounds(b, pos + 1);
    }
}

proof fn lemma_digits_value_grows(b: Seq<u8>, start: int, mid: int, end: int)
    requires
        start <= mid <= end,
        forall|j: int| start <= j < end ==> is_digit(b[j]),
    ensures
        digits_value(b, start, mid) <= digits_value(b, start, end),
    decreases end - mid,
{
    if mid < end {
        lemma_digits_value_grows(b, start, mid, end - 1);
    }
}

/// Skips spaces, tabs and line breaks from `pos`.
pub fn skip_spaces_at(bytes: &[u8], pos: usize) -> (r: usize)
    requires
        pos <= bytes@.len(),
    ensures
        r == skip_spaces(bytes@, pos as int),
        pos <= r <= bytes@.len(),
{
    let mut at = pos;
    while at < bytes.len() && (bytes[at] == 0x20 || bytes[at] == 0x09 || bytes[at] == 0x0a
        || bytes[at] == 0x0d)
        invariant
            pos <= at <= bytes@.len(),
            skip_spaces(bytes@, pos as int) == skip_spaces(bytes@, at as int),
        decreases bytes@.len() - at,
    {
        at += 1;
    }
    at
}

/// Skips spaces, tabs and line breaks in `input` from `pos`.
pub fn skip_at(input: &str, pos: usize) -> (r: usize)
    requires
        pos <= input.spec_bytes().len(),
        on_boundary(input.spec_bytes(), pos as int),
    ensures
        r == skip_spaces(input.spec_bytes(), pos as int),
        pos <= r <= input.spec_bytes().len(),
        on_boundary(input.spec_bytes(), r as int),
{
    let r = skip_spaces_at(input.as_bytes(), pos);
    proof {
        lemma_str_bytes_valid(input);
        lemma_skip_spaces_bounds(input.spec_bytes(), pos as int);
        if r > pos {
            lemma_after_ascii(input.spec_bytes(), r - 1);
        }
    }
    r
}

/// May `c` appear in an identifier?
pub fn is_ident_char(c: char) -> (r: bool)
    ensures
        r == ident_char(c),
{
    c.is_alphanumeric() || c == '_' || c == '-' || c == ':' || c == '.'
}

/// Finds the end of the identifier that starts at `pos`.
pub fn ident_end_at(input: &str, pos: usize) -> (r: usize)
    requires
        pos <= input.spec_bytes().len(),
        on_boundary(input.spec_bytes(), pos as int),
    ensures
        r == ident_end(input.spec_bytes(), pos as int),
        pos <= r <= input.spec_bytes().len(),
        on_boundary(input.spec_bytes(), r as int),
{
    let bytes = input.as_bytes();
    let ghost b = input.spec_bytes();
    let mut at = pos;
    let mut going = true;
    while going && at < bytes.len()
        invariant
            bytes@ == b,
            b == input.spec_bytes(),
            pos <= at <= b.len(),
            on_boundary(b, at as int),
            ident_end(b, pos as int) == ident_end(b, at as int),
            !going ==> ident_end(b, at as int) == at,
        decreases
                b.len() - at + if going {
                    1int
                } else {
                    0int
                },
    {
        proof {
            lemma_str_bytes_valid(input);
            lemma_scalar_step(b, at as int);
        }
        let c = char_at(input, at);
        if is_ident_char(c) {
            at += scalar_width(bytes[at]);
        } else {
            going = false;
        }
    }
    at
}

/// Finds the `}` that closes a braced literal whose content starts at `start`.
pub fn brace_close(bytes: &[u8], start: usize) -> (r: Option<usize>)
    requires
        start <= bytes@.len(),
    ensures
        match r {
            Some(e) => brace_scan(bytes@, start as int, 0) == Some(e as int),
            None => brace_scan(bytes@, start as int, 0) is None,
        },
{
    let ghost b = bytes@;
    let mut depth: usize = 0;
    let mut pos = start;
    while pos < bytes.len()
        invariant
            b == bytes@,
            start <= pos <= b.len(),
            depth <= pos - start,
            brace_scan(b, start as int, 0) == brace_scan(b, pos as int, depth as nat),
        decreases b.len() - pos,
    {
        match find_brace_delimiter(bytes, pos) {
            None => {
                proof {
                    lemma_scan_first(b, pos as int, brace_set());
                    lemma_brace_skip(b, pos as int, b.len() as int, depth as nat);
                }
                return None;
            },
            Some((next, delim)) => {
                proof {
                    lemma_scan_first(b, pos as int, brace_set());
                    lemma_brace_skip(b, pos as int, next as int, depth as nat);
                }
                pos = next;
                if delim == 0x7b {
                    depth += 1;
                    pos += 1;
                } else if delim == 0x7d {
                    if depth == 0 {
                        return Some(pos);
                    }
                    depth -= 1;
                    pos += 1;
                } else if pos + 1 < bytes.len() {
                    pos += 2;
                } else {
                    pos += 1;
                }
            },
        }
    }
    None
}

/// Finds the `"` that closes a quoted literal whose content starts at `start`.
pub fn quote_close(bytes: &[u8], start: usize) -> (r: Option<usize>)
    requires
        start <= bytes@.len(),
    ensures
        match r {
            Some(e) => quote_scan(bytes@, start as int, 0) == Some(e as int),
            None => quote_scan(bytes@, start as int, 0) is None,
        },
{
    let ghost b = bytes@;
    let mut depth: usize = 0;
    let mut pos = start;
    while pos < bytes.len()
        invariant
            b == bytes@,
            start <= pos <= b.len(),
            depth <= pos - start,
            quote_scan(b, start as int, 0) == quote_scan(b, pos as int, depth as nat),
        decreases b.len() - pos,
    {
        match find_quote_delimiter(bytes, pos) {
            None => {
                proof {
                    lemma_scan_first(b, pos as int, quote_set());
                    lemma_quote_skip(b, pos as int, b.len() as int, depth as nat);
                }
                return None;
            },
            Some((next, delim)) => {
                proof {
                    lemma_scan_first(b, pos as int, quote_set());
                    lemma_quote_skip(b, pos as int, next as int, depth as nat);
                }
                pos = next;
                if delim == 0x5c && pos + 1 < bytes.len() {
                    pos += 2;
                } else if delim == 0x22 && depth == 0 {
                    return Some(pos);
                } else if delim == 0x7b {
                    depth += 1;
                    pos += 1;
                } else if delim == 0x7d && depth > 0 {
                    depth -= 1;
                    pos += 1;
                } else {
                    pos += 1;
                }
            },
        }
    }
    None
}

/// Reads the number at `pos`: its value and the position after its last digit.
pub fn read_number(bytes: &[u8], pos: usize) -> (r: Option<(i64, usize)>)
    requires
        pos <= bytes@.len(),
    ensures
        match r {
            Some((n, e)) => number_at(bytes@, pos as int) == Some((n as int, e as int)) && pos < e
                <= bytes@.len(),
            None => number_at(bytes@, pos as int) is None,
        },
{
    let ghost b = bytes@;
    let negative = pos < bytes.len() && bytes[pos] == 0x2d;
    let start = if pos < bytes.len() && (bytes[pos] == 0x2b || bytes[pos] == 0x2d) {
        pos + 1
    } else {
        pos
    };
    proof {
        lemma_digits_end_bounds(b, start as int);
    }
    let mut at = start;
    let mut acc: u64 = 0;
    while at < bytes.len() && 0x30 <= bytes[at] && bytes[at] <= 0x39
        invariant
            b == bytes@,
            start <= at <= b.len(),
            start == after_sign(b, pos as int),
            digits_end(b, start as int) == digits_end(b, at as int),
            forall|j: int| start <= j < digits_end(b, start as int) ==> is_digit(b[j]),
            at <= digits_end(b, start as int) <= b.len(),
            acc == digits_value(b, start as int, at as int),
            acc <= i64::MAX,
        decreases b.len() - at,
    {
        let d = (bytes[at] - 0x30) as u64;
        if acc > (9223372036854775807u64 - d) / 10 {
            proof {
                assert(digits_value(b, start as int, at + 1) == acc * 10 + d);
                assert(acc * 10 + d > i64::MAX);
                lemma_digits_end_bounds(b, at + 1);
                lemma_digits_value_grows(b, start as int, at + 1, digits_end(b, start as int));
            }
            return None;
        }
        proof {
            lemma_digits_end_bounds(b, at + 1);
        }
        acc = acc * 10 + d;
        at += 1;
    }
    if at == start {
        return None;
    }
    if negative {
        Some((-(acc as i64), at))
    } else {
        Some((acc as i64, at))
    }
}

/// What is left of the input after the first `e` bytes.
pub open spec fn advanced(before: &str, after: &str, e: int) -> bool {
    after.spec_bytes() == before.spec_bytes().subrange(e, before.spec_bytes().len() as int)
}

/// Moves the cursor `e` bytes forward.
fn advance<'a>(input: &mut &'a str, e: usize)
    requires
        e <= old(input).spec_bytes().len(),
        on_boundary(old(input).spec_bytes(), e as int),
    ensures
        advanced(*old(input), *final(input), e as int),
{
    let s: &'a str = *input;
    proof {
        lemma_str_bytes_valid(s);
        lemma_edges(s.spec_bytes());
    }
    *input = sub_str(s, e, byte_len(s));
}

/// Takes an identifier from the front of the input: letters, digits, `_`, `-`,
/// `:` and `.`. Fails, leaving the input as it is, when there is none.
pub fn identifier<'a>(input: &mut &'a str) -> (r: Option<&'a str>)
    ensures
        match r {
            Some(name) => {
                let e = ident_end(old(input).spec_bytes(), 0);
                &&& e > 0
                &&& name@ == text_of(old(input).spec_bytes(), 0, e)
                &&& advanced(*old(input), *final(input), e)
            },
            None => ident_end(old(input).spec_bytes(), 0) == 0 && *final(input) == *old(input),
        },
{
    let s: &'a str = *input;
    proof {
        lemma_str_bytes_valid(s);
        lemma_edges(s.spec_bytes());
    }
    let e = ident_end_at(s, 0);
    if e == 0 {
        None
    } else {
        advance(input, e);
        Some(sub_str(s, 0, e))
    }
}

/// Takes a field name, which is an identifier.
pub fn field_name<'a>(input: &mut &'a str) -> (r: Option<&'a str>)
    ensures
        match r {
            Some(name) => {
                let e = ident_end(old(input).spec_bytes(), 0);
                &&& e > 0
                &&& name@ == text_of(old(input).spec_bytes(), 0, e)
                &&& advanced(*old(input), *final(input), e)
            },
            None => ident_end(old(input).spec_bytes(), 0) == 0 && *final(input) == *old(input),
        },
{
    identifier(input)
}

/// Takes the content of a braced literal, the opening brace already consumed.
/// The content ends before the matching `}`, which stays in the input.
pub fn balanced_braces<'a>(input: &mut &'a str) -> (r: Option<&'a str>)
    ensures
        match r {
            Some(content) => {
                &&& brace_scan(old(input).spec_bytes(), 0, 0) matches Some(e)
                &&& content@ == text_of(old(input).spec_bytes(), 0, e)
                &&& advanced(*old(input), *final(input), e)
            },
            None => brace_scan(old(input).spec_bytes(), 0, 0) is None && *final(input) == *old(
                input,
            ),
        },
{
    let s: &'a str = *input;
    match brace_close(s.as_bytes(), 0) {
        Some(e) => {
            proof {
                lemma_str_bytes_valid(s);
                lemma_edges(s.spec_bytes());
                lemma_brace_scan_bounds(s.spec_bytes(), 0, 0);
            }
            advance(input, e);
            Some(sub_str(s, 0, e))
        },
        None => None,
    }
}

/// Takes a quoted literal with its two quotes and returns what is between them.
pub fn quoted_string<'a>(input: &mut &'a str) -> (r: Option<&'a str>)
    ensures
        match r {
            Some(content) => {
                &&& quoted_end(old(input).spec_bytes(), 0) matches Some(e)
                &&& content@ == text_of(old(input).spec_bytes(), 1, e)
                &&& advanced(*old(input), *final(input), e + 1)
            },
            None => quoted_end(old(input).spec_bytes(), 0) is None && *final(input) == *old(input),
        },
{
    let s: &'a str = *input;
    let bytes = s.as_bytes();
    if bytes.len() == 0 || bytes[0] != 0x22 {
        return None;
    }
    match quote_close(bytes, 1) {
        Some(e) => {
            proof {
                lemma_str_bytes_valid(s);
                lemma_quote_scan_bounds(s.spec_bytes(), 1, 0);
                lemma_after_ascii(s.spec_bytes(), 0);
                lemma_after_ascii(s.spec_bytes(), e as int);
            }
            advance(input, e + 1);
            Some(sub_str(s, 1, e))
        },
        None => None,
    }
}

/// Takes a decimal integer with an optional sign.
pub fn number<'a>(input: &mut &'a str) -> (r: Option<i64>)
    ensures
        match r {
            Some(n) => {
                &&& number_at(old(input).spec_bytes(), 0) matches Some((v, e))
                &&& n == v
                &&& advanced(*old(input), *final(input), e)
            },
            None => number_at(old(input).spec_bytes(), 0) is None && *final(input) == *old(input),
        },
{
    let s: &'a str = *input;
    match read_number(s.as_bytes(), 0) {
        Some((n, e)) => {
            proof {
                lemma_str_bytes_valid(s);
                lemma_digits_end_bounds(s.spec_bytes(), after_sign(s.spec_bytes(), 0));
                lemma_after_ascii(s.spec_bytes(), e - 1);
            }
            advance(input, e);
            Some(n)
        },
        None => None,
    }
}

/// Drops spaces, tabs and line breaks from the front of the input.
pub fn skip_whitespace<'a>(input: &mut &'a str)
    ensures
        advanced(*old(input), *final(input), skip_spaces(old(input).spec_bytes(), 0)),
{
    let s: &'a str = *input;
    let e = skip_spaces_at(s.as_bytes(), 0);
    proof {
        lemma_str_bytes_valid(s);
        lemma_skip_spaces_bounds(s.spec_bytes(), 0);
        if e > 0 {
            lemma_after_ascii(s.spec_bytes(), e - 1);
        }
    }
    advance(input, e);
}

/// Finds the next structural byte (`{`, `}`, `,`, `@`, `=`) at or after `start`.
pub fn scan_to_bibtex_delimiter(haystack: &[u8], start: usize) -> (r: Option<(usize, u8)>)
    ensures
        found(r) == scan(haystack@, start as int, structural_set()),
{
    find_delimiter(haystack, start)
}

} // verus!
