//! The grammar: byte scanner, lexer, values, entries and the top-level driver.
//!
//! A file is a sequence of items: entries, string macros, preambles and
//! comments. [`items_at`] says which items a text holds; [`parse_bibtex`]
//! computes them, or reports where the text stops being a sequence of items.

pub mod delimiter;
pub mod entry;
pub mod lexer;
pub mod utils;
pub mod value;

pub use entry::parse_entry;

use vstd::prelude::*;
use vstd::string::*;
use std::borrow::Cow;
use crate::error::{position_after, track_position, Error};
use crate::model::{copy_value, Entry, EntryModel, Value, ValueModel};
use crate::parser::delimiter::{
    find_byte, find_bytes2, found, lemma_scan_first, one_of1, one_of2, scan,
};
use crate::parser::entry::{
    closing_of, entry_at, entry_borrowed, field_at, parse_entry_at, parse_field_at,
};
use crate::parser::lexer::{
    brace_close, brace_scan, lemma_brace_scan_bounds, skip_at, skip_spaces, skip_spaces_at, AT,
    CLOSE_PAREN, OPEN_BRACE, OPEN_PAREN, PERCENT,
};
use crate::parser::value::{good_end, parse_value_at, value_at, value_borrowed};
use crate::text::{
    byte_len, char_at, has_tag_at, lemma_after_ascii, lemma_edges, lemma_scalar_step,
    lemma_str_bytes_valid, on_boundary, scalar_at, scalar_width, sub_str, tag_at, text_of,
    whitespace, width_of,
};

verus! {

/// The view of a [`ParsedItem`].
pub enum ItemModel {
    Entry(EntryModel),
    String(Seq<char>, ValueModel),
    Preamble(ValueModel),
    Comment(Seq<char>),
}

/// A parsed item from the BibTeX file.
#[derive(Debug, PartialEq)]
pub enum ParsedItem<'a> {
    /// A bibliography entry
    Entry(Entry<'a>),
    /// A string definition
    String(&'a str, Value<'a>),
    /// A preamble
    Preamble(Value<'a>),
    /// A comment
    Comment(&'a str),
}

impl<'a> View for ParsedItem<'a> {
    type V = ItemModel;

    open spec fn view(&self) -> ItemModel {
        match self {
            ParsedItem::Entry(entry) => ItemModel::Entry(entry@),
            ParsedItem::String(name, value) => ItemModel::String(name@, value@),
            ParsedItem::Preamble(value) => ItemModel::Preamble(value@),
            ParsedItem::Comment(text) => ItemModel::Comment(text@),
        }
    }
}

impl<'a> Clone for ParsedItem<'a> {
    fn clone(&self) -> (r: Self)
        ensures
            r@ == self@,
    {
        match self {
            ParsedItem::Entry(entry) => ParsedItem::Entry(entry.clone()),
            ParsedItem::String(name, value) => ParsedItem::String(*name, copy_value(value)),
            ParsedItem::Preamble(value) => ParsedItem::Preamble(copy_value(value)),
            ParsedItem::Comment(text) => ParsedItem::Comment(*text),
        }
    }
}

/// The views of a run of items.
pub open spec fn item_views(items: Seq<ParsedItem<'_>>) -> Seq<ItemModel> {
    Seq::new(items.len(), |i: int| items[i]@)
}

/// Does every text in `item` borrow from an input?
pub open spec fn item_borrowed(item: ParsedItem<'_>) -> bool {
    match item {
        ParsedItem::Entry(entry) => entry_borrowed(entry),
        ParsedItem::String(_, value) => value_borrowed(value),
        ParsedItem::Preamble(value) => value_borrowed(value),
        ParsedItem::Comment(_) => true,
    }
}

/// The position of the opening delimiter of an `@keyword` item at `pos`:
/// optional white space, `@`, the keyword in any case, optional white space.
pub open spec fn keyword_open(b: Seq<u8>, pos: int, tag: Seq<u8>) -> Option<int> {
    let at = skip_spaces(b, pos);
    if 0 <= pos && at < b.len() && b[at] == AT && tag_at(b, at + 1, tag) {
        Some(skip_spaces(b, at + 1 + tag.len()))
    } else {
        None
    }
}

/// The string macro `@string{name = value}` at `pos`. Parentheses may stand
/// for the braces.
pub open spec fn string_at(b: Seq<u8>, pos: int) -> Option<(ItemModel, int)> {
    match keyword_open(b, pos, "string".spec_bytes()) {
        Some(open) => if open < b.len() && (b[open] == OPEN_BRACE || b[open] == OPEN_PAREN) {
            match field_at(b, open + 1) {
                Ok((f, e)) => if e < b.len() && b[e] == closing_of(b[open]) {
                    Some((ItemModel::String(f.name, f.value), e + 1))
                } else {
                    None
                },
                Err(_) => None,
            }
        } else {
            None
        },
        None => None,
    }
}

/// The preamble `@preamble{value}` at `pos`. Parentheses may stand for the braces.
pub open spec fn preamble_at(b: Seq<u8>, pos: int) -> Option<(ItemModel, int)> {
    match keyword_open(b, pos, "preamble".spec_bytes()) {
        Some(open) => if open < b.len() && (b[open] == OPEN_BRACE || b[open] == OPEN_PAREN) {
            match value_at(b, skip_spaces(b, open + 1)) {
                Some((v, e)) => {
                    let close = skip_spaces(b, e);
                    if close < b.len() && b[close] == closing_of(b[open]) {
                        Some((ItemModel::Preamble(v), close + 1))
                    } else {
                        None
                    }
                },
                None => None,
            }
        } else {
            None
        },
        None => None,
    }
}

/// The comment `@comment{...}` at `pos`, whose text runs to the matching
/// brace, or `@comment(...)`, whose text runs to the first `)`.
pub open spec fn formal_comment_at(b: Seq<u8>, pos: int) -> Option<(ItemModel, int)> {
    match keyword_open(b, pos, "comment".spec_bytes()) {
        Some(open) => if open < b.len() && b[open] == OPEN_BRACE {
            match brace_scan(b, open + 1, 0) {
                Some(e) => Some((ItemModel::Comment(text_of(b, open + 1, e)), e + 1)),
                None => None,
            }
        } else if open < b.len() && b[open] == OPEN_PAREN {
            match scan(b, open + 1, one_of1(CLOSE_PAREN)) {
                Some((e, _)) => Some((ItemModel::Comment(text_of(b, open + 1, e)), e + 1)),
                None => None,
            }
        } else {
            None
        },
        None => None,
    }
}

/// The line comment at `pos`: a `%` and the rest of the line. The line break
/// is not part of the comment; a carriage return that no line feed follows
/// is an error.
pub open spec fn line_comment_at(b: Seq<u8>, pos: int) -> Option<(ItemModel, int)> {
    if 0 <= pos < b.len() && b[pos] == PERCENT {
        let e = match scan(b, pos + 1, one_of2(0x0d, 0x0a)) {
            Some((e, _)) => e,
            None => b.len() as int,
        };
        if e < b.len() && b[e] == 0x0d && !(e + 1 < b.len() && b[e + 1] == 0x0a) {
            None
        } else {
            Some((ItemModel::Comment(text_of(b, pos + 1, e)), e))
        }
    } else {
        None
    }
}

/// Is every character of `b[pos..end]` white space?
pub open spec fn all_blank(b: Seq<u8>, pos: int, end: int) -> bool
    decreases end - pos,
{
    pos >= end || (0 <= pos && pos + width_of(b[pos]) <= end && whitespace(scalar_at(b, pos))
        && all_blank(b, pos + width_of(b[pos]), end))
}

/// Free text at `pos`: everything before the next `@`, which must exist. The
/// text must not be empty nor all white space.
pub open spec fn free_comment_at(b: Seq<u8>, pos: int) -> Option<(ItemModel, int)> {
    match scan(b, pos, one_of1(AT)) {
        Some((e, _)) => if e > pos && !all_blank(b, pos, e) {
            Some((ItemModel::Comment(text_of(b, pos, e)), e))
        } else {
            None
        },
        None => None,
    }
}

/// The comment at `pos`, in the first of its three forms that matches.
pub open spec fn comment_at(b: Seq<u8>, pos: int) -> Option<(ItemModel, int)> {
    if formal_comment_at(b, pos) is Some {
        formal_comment_at(b, pos)
    } else if line_comment_at(b, pos) is Some {
        line_comment_at(b, pos)
    } else {
        free_comment_at(b, pos)
    }
}

/// The item at `pos`: the first that matches of entry, string macro, preamble
/// and comment.
pub open spec fn item_at(b: Seq<u8>, pos: int) -> Option<(ItemModel, int)> {
    if let Some((entry, e)) = entry_at(b, pos) {
        Some((ItemModel::Entry(entry), e))
    } else if string_at(b, pos) is Some {
        string_at(b, pos)
    } else if preamble_at(b, pos) is Some {
        preamble_at(b, pos)
    } else {
        comment_at(b, pos)
    }
}

/// The first position at or after `pos` whose character is not white space.
pub open spec fn skip_blank(b: Seq<u8>, pos: int) -> int
    decreases b.len() - pos,
{
    if 0 <= pos && pos + width_of(b[pos]) <= b.len() && whitespace(scalar_at(b, pos)) {
        skip_blank(b, pos + width_of(b[pos]))
    } else {
        pos
    }
}

/// The items of the text from `pos` on, or the position of the first thing
/// that is not an item. White space between items is skipped.
pub open spec fn items_at(b: Seq<u8>, pos: int) -> std::result::Result<Seq<ItemModel>, int>
    decreases b.len() - pos,
{
    let p = skip_blank(b, pos);
    if pos < 0 || p >= b.len() {
        Ok(Seq::empty())
    } else {
        match item_at(b, p) {
            Some((item, e)) => if pos < e <= b.len() {
                match items_at(b, e) {
                    Ok(rest) => Ok(seq![item] + rest),
                    Err(at) => Err(at),
                }
            } else {
                Err(p)
            },
            None => Err(p),
        }
    }
}

/// The position `n` characters after `pos`, or the end of the text if that comes first.
pub open spec fn chars_ahead(b: Seq<u8>, pos: int, n: nat) -> int
    decreases n,
{
    if n == 0 || pos < 0 || pos + width_of(b[pos]) > b.len() {
        pos
    } else {
        chars_ahead(b, pos + width_of(b[pos]), (n - 1) as nat)
    }
}

/// The first `max` characters of the text from `pos` on, followed by `...`
/// when more than `max` bytes were left.
pub open spec fn snippet_at(b: Seq<u8>, pos: int, max: nat) -> Seq<char> {
    text_of(b, pos, chars_ahead(b, pos, max)) + if b.len() - pos > max {
        "..."@
    } else {
        Seq::empty()
    }
}

/// The text of the message of a failed parse.
pub open spec fn failure_message() -> Seq<char> {
    "Failed to parse entry"@
}

/// Does `e` report that the text `b` stops being a sequence of items at byte `at`?
pub open spec fn is_parse_error(e: Error, b: Seq<u8>, at: int) -> bool {
    &&& e matches Error::ParseError { line, column, message, snippet }
    &&& (line as int, column as int) == position_after(1, 1, b, at)
    &&& message@ == failure_message()
    &&& snippet matches Some(text)
    &&& text@ == snippet_at(b, at, 40)
}

/// Finds the opening delimiter of an `@keyword` item.
fn keyword_open_at(input: &str, pos: usize, tag: &str) -> (r: Option<usize>)
    requires
        pos <= input.spec_bytes().len(),
    ensures
        match r {
            Some(open) => keyword_open(input.spec_bytes(), pos as int, tag.spec_bytes()) == Some(
                open as int,
            ) && pos < open <= input.spec_bytes().len(),
            None => keyword_open(input.spec_bytes(), pos as int, tag.spec_bytes()) is None,
        },
{
    let bytes = input.as_bytes();
    let at = skip_spaces_at(bytes, pos);
    if at >= bytes.len() || bytes[at] != 0x40 {
        return None;
    }
    if !has_tag_at(bytes, at + 1, tag) {
        return None;
    }
    Some(skip_spaces_at(bytes, at + 1 + byte_len(tag)))
}

/// The name of a field that borrows its name.
fn borrowed_name<'a>(name: Cow<'a, str>) -> (r: &'a str)
    requires
        name is Borrowed,
    ensures
        r@ == name@,
{
    match name {
        Cow::Borrowed(s) => s,
        Cow::Owned(_) => vstd::pervasive::unreached(),
    }
}

/// Parses a `@string` definition at `pos`.
pub fn parse_string_at<'a>(input: &'a str, pos: usize) -> (r: Option<(ParsedItem<'a>, usize)>)
    requires
        pos <= input.spec_bytes().len(),
    ensures
        match r {
            Some((item, e)) => string_at(input.spec_bytes(), pos as int) == Some((item@, e as int))
                && good_end(input.spec_bytes(), pos as int, e as int) && item_borrowed(item),
            None => string_at(input.spec_bytes(), pos as int) is None,
        },
{
    let bytes = input.as_bytes();
    let ghost b = input.spec_bytes();
    let open = match keyword_open_at(input, pos, "string") {
        Some(open) => open,
        None => {
            return None;
        },
    };
    if open >= bytes.len() || (bytes[open] != 0x7b && bytes[open] != 0x28) {
        return None;
    }
    let closing: u8 = if bytes[open] == 0x7b {
        0x7d
    } else {
        0x29
    };
    proof {
        lemma_str_bytes_valid(input);
        lemma_after_ascii(b, open as int);
    }
    match parse_field_at(input, open + 1) {
        Ok((field, e)) => {
            if e < bytes.len() && bytes[e] == closing {
                proof {
                    lemma_after_ascii(b, e as int);
                }
                Some((ParsedItem::String(borrowed_name(field.name), field.value), e + 1))
            } else {
                None
            }
        },
        Err(_) => None,
    }
}

/// Parses a `@preamble` at `pos`.
pub fn parse_preamble_at<'a>(input: &'a str, pos: usize) -> (r: Option<(ParsedItem<'a>, usize)>)
    requires
        pos <= input.spec_bytes().len(),
    ensures
        match r {
            Some((item, e)) => preamble_at(input.spec_bytes(), pos as int) == Some(
                (item@, e as int),
            ) && good_end(input.spec_bytes(), pos as int, e as int) && item_borrowed(item),
            None => preamble_at(input.spec_bytes(), pos as int) is None,
        },
{
    let bytes = input.as_bytes();
    let ghost b = input.spec_bytes();
    let open = match keyword_open_at(input, pos, "preamble") {
        Some(open) => open,
        None => {
            return None;
        },
    };
    if open >= bytes.len() || (bytes[open] != 0x7b && bytes[open] != 0x28) {
        return None;
    }
    let closing: u8 = if bytes[open] == 0x7b {
        0x7d
    } else {
        0x29
    };
    proof {
        lemma_str_bytes_valid(input);
        lemma_after_ascii(b, open as int);
    }
    let start = skip_at(input, open + 1);
    match parse_value_at(input, start) {
        Some((value, e)) => {
            let close = skip_at(input, e);
            if close < bytes.len() && bytes[close] == closing {
                proof {
                    lemma_after_ascii(b, close as int);
                }
                Some((ParsedItem::Preamble(value), close + 1))
            } else {
                None
            }
        },
        None => None,
    }
}

/// Parses a `@comment{...}` or `@comment(...)` at `pos`.
fn parse_formal_comment_at<'a>(input: &'a str, pos: usize) -> (r: Option<(ParsedItem<'a>, usize)>)
    requires
        pos <= input.spec_bytes().len(),
    ensures
        match r {
            Some((item, e)) => formal_comment_at(input.spec_bytes(), pos as int) == Some(
                (item@, e as int),
            ) && good_end(input.spec_bytes(), pos as int, e as int) && item_borrowed(item),
            None => formal_comment_at(input.spec_bytes(), pos as int) is None,
        },
{
    let bytes = input.as_bytes();
    let ghost b = input.spec_bytes();
    let open = match keyword_open_at(input, pos, "comment") {
        Some(open) => open,
        None => {
            return None;
        },
    };
    if open >= bytes.len() {
        return None;
    }
    proof {
        lemma_str_bytes_valid(input);
    }
    if bytes[open] == 0x7b {
        match brace_close(bytes, open + 1) {
            Some(e) => {
                proof {
                    lemma_brace_scan_bounds(b, open + 1, 0);
                    lemma_after_ascii(b, open as int);
                    lemma_after_ascii(b, e as int);
                }
                Some((ParsedItem::Comment(sub_str(input, open + 1, e)), e + 1))
            },
            None => None,
        }
    } else if bytes[open] == 0x28 {
        match find_byte(bytes, 0x29, open + 1) {
            Some(e) => {
                proof {
                    lemma_scan_first(b, open + 1, one_of1(CLOSE_PAREN));
                    lemma_after_ascii(b, open as int);
                    lemma_after_ascii(b, e as int);
                }
                Some((ParsedItem::Comment(sub_str(input, open + 1, e)), e + 1))
            },
            None => None,
        }
    } else {
        None
    }
}

/// Parses a `%` line comment at `pos`.
fn parse_line_comment_at<'a>(input: &'a str, pos: usize) -> (r: Option<(ParsedItem<'a>, usize)>)
    requires
        pos <= input.spec_bytes().len(),
    ensures
        match r {
            Some((item, e)) => line_comment_at(input.spec_bytes(), pos as int) == Some(
                (item@, e as int),
            ) && good_end(input.spec_bytes(), pos as int, e as int) && item_borrowed(item),
            None => line_comment_at(input.spec_bytes(), pos as int) is None,
        },
{
    let bytes = input.as_bytes();
    let ghost b = input.spec_bytes();
    if pos >= bytes.len() || bytes[pos] != 0x25 {
        return None;
    }
    proof {
        lemma_str_bytes_valid(input);
        lemma_edges(b);
        lemma_after_ascii(b, pos as int);
        lemma_scan_first(b, pos + 1, one_of2(0x0d, 0x0a));
    }
    let e = match find_bytes2(bytes, 0x0d, 0x0a, pos + 1) {
        Some((e, _)) => e,
        None => bytes.len(),
    };
    if e < bytes.len() && bytes[e] == 0x0d && !(e + 1 < bytes.len() && bytes[e + 1] == 0x0a) {
        return None;
    }
    Some((ParsedItem::Comment(sub_str(input, pos + 1, e)), e))
}

/// Is every character between two positions white space?
fn is_all_blank(input: &str, pos: usize, end: usize) -> (r: bool)
    requires
        pos <= end <= input.spec_bytes().len(),
        on_boundary(input.spec_bytes(), pos as int),
        on_boundary(input.spec_bytes(), end as int),
    ensures
        r == all_blank(input.spec_bytes(), pos as int, end as int),
{
    let bytes = input.as_bytes();
    let ghost b = input.spec_bytes();
    let mut at = pos;
    while at < end
        invariant
            bytes@ == b,
            b == input.spec_bytes(),
            pos <= at <= b.len(),
            end <= b.len(),
            on_boundary(b, at as int),
            on_boundary(b, end as int),
            all_blank(b, pos as int, end as int) == all_blank(b, at as int, end as int),
        decreases b.len() - at,
    {
        proof {
            lemma_str_bytes_valid(input);
            lemma_scalar_step(b, at as int);
            if end < at + width_of(b[at as int]) {
                assert(vstd::utf8::is_continuation_byte(b[end as int]));
            }
        }
        if !char_at(input, at).is_whitespace() {
            return false;
        }
        at += scalar_width(bytes[at]);
    }
    true
}

/// Parses free text before the next `@` at `pos`.
fn parse_free_comment_at<'a>(input: &'a str, pos: usize) -> (r: Option<(ParsedItem<'a>, usize)>)
    requires
        pos <= input.spec_bytes().len(),
        on_boundary(input.spec_bytes(), pos as int),
    ensures
        match r {
            Some((item, e)) => free_comment_at(input.spec_bytes(), pos as int) == Some(
                (item@, e as int),
            ) && good_end(input.spec_bytes(), pos as int, e as int) && item_borrowed(item),
            None => free_comment_at(input.spec_bytes(), pos as int) is None,
        },
{
    let bytes = input.as_bytes();
    let ghost b = input.spec_bytes();
    proof {
        lemma_scan_first(b, pos as int, one_of1(AT));
    }
    match find_byte(bytes, 0x40, pos) {
        Some(e) => {
            if e > pos && !is_all_blank(input, pos, e) {
                Some((ParsedItem::Comment(sub_str(input, pos, e)), e))
            } else {
                None
            }
        },
        None => None,
    }
}

/// Parses a comment at `pos`, in any of its three forms.
pub fn parse_comment_at<'a>(input: &'a str, pos: usize) -> (r: Option<(ParsedItem<'a>, usize)>)
    requires
        pos <= input.spec_bytes().len(),
        on_boundary(input.spec_bytes(), pos as int),
    ensures
        match r {
            Some((item, e)) => comment_at(input.spec_bytes(), pos as int) == Some((item@, e as int))
                && good_end(input.spec_bytes(), pos as int, e as int) && item_borrowed(item),
            None => comment_at(input.spec_bytes(), pos as int) is None,
        },
{
    match parse_formal_comment_at(input, pos) {
        Some(found) => {
            return Some(found);
        },
        None => {},
    }
    match parse_line_comment_at(input, pos) {
        Some(found) => {
            return Some(found);
        },
        None => {},
    }
    parse_free_comment_at(input, pos)
}

/// Parses a single item (entry, string, preamble, or comment) at `pos`.
pub fn parse_item_at<'a>(input: &'a str, pos: usize) -> (r: Option<(ParsedItem<'a>, usize)>)
    requires
        pos <= input.spec_bytes().len(),
        on_boundary(input.spec_bytes(), pos as int),
    ensures
        match r {
            Some((item, e)) => item_at(input.spec_bytes(), pos as int) == Some((item@, e as int))
                && good_end(input.spec_bytes(), pos as int, e as int) && item_borrowed(item),
            None => item_at(input.spec_bytes(), pos as int) is None,
        },
{
    match parse_entry_at(input, pos) {
        Some((entry, e)) => {
            return Some((ParsedItem::Entry(entry), e));
        },
        None => {},
    }
    match parse_string_at(input, pos) {
        Some(found) => {
            return Some(found);
        },
        None => {},
    }
    match parse_preamble_at(input, pos) {
        Some(found) => {
            return Some(found);
        },
        None => {},
    }
    parse_comment_at(input, pos)
}

/// Skips white space of any kind from `pos`.
pub fn skip_blank_at(input: &str, pos: usize) -> (r: usize)
    requires
        pos <= input.spec_bytes().len(),
        on_boundary(input.spec_bytes(), pos as int),
    ensures
        r == skip_blank(input.spec_bytes(), pos as int),
        pos <= r <= input.spec_bytes().len(),
        on_boundary(input.spec_bytes(), r as int),
{
    let bytes = input.as_bytes();
    let ghost b = input.spec_bytes();
    let mut at = pos;
    let mut going = true;
    while going && at < bytes.len()
        invariant
            bytes@ == b,
            b == input.spec_bytes(),
            pos <= at <= b.len(),
            on_boundary(b, at as int),
            skip_blank(b, pos as int) == skip_blank(b, at as int),
            !going ==> skip_blank(b, at as int) == at,
        decreases
                b.len() - at + if going {
                    1int
                } else {
                    0int
                },
    {
        proof {
            lemma_str_bytes_valid(input);
            lemma_scalar_step(b, at as int);
        }
        if char_at(input, at).is_whitespace() {
            at += scalar_width(bytes[at]);
        } else {
            going = false;
        }
    }
    at
}

/// Calculates the 1-indexed line and column of the byte offset `pos`, or of
/// the end of the input when `pos` lies behind it.
pub fn calculate_position(input: &str, pos: usize) -> (r: (usize, usize))
    requires
        input.spec_bytes().len() < usize::MAX,
    ensures
        (r.0 as int, r.1 as int) == position_after(
            1,
            1,
            input.spec_bytes(),
            if pos <= input.spec_bytes().len() {
                pos as int
            } else {
                input.spec_bytes().len() as int
            },
        ),
{
    let bytes = input.as_bytes();
    let upto = if pos <= bytes.len() {
        pos
    } else {
        bytes.len()
    };
    track_position(1, 1, bytes, upto)
}

/// Gets a snippet of at most `max_len` characters of the input from `pos` on.
pub fn get_snippet(input: &str, pos: usize, max_len: usize) -> (r: String)
    requires
        pos <= input.spec_bytes().len(),
        on_boundary(input.spec_bytes(), pos as int),
    ensures
        r@ == snippet_at(input.spec_bytes(), pos as int, max_len as nat),
{
    let bytes = input.as_bytes();
    let ghost b = input.spec_bytes();
    let mut at = pos;
    let mut taken: usize = 0;
    while taken < max_len && at < bytes.len()
        invariant
            bytes@ == b,
            b == input.spec_bytes(),
            pos <= at <= b.len(),
            taken <= max_len,
            on_boundary(b, at as int),
            chars_ahead(b, pos as int, max_len as nat) == chars_ahead(
                b,
                at as int,
                (max_len - taken) as nat,
            ),
        decreases max_len - taken,
    {
        proof {
            lemma_str_bytes_valid(input);
            lemma_scalar_step(b, at as int);
        }
        at += scalar_width(bytes[at]);
        taken += 1;
    }
    proof {
        if at < b.len() {
            assert(taken == max_len);
        } else {
            assert(width_of(b[at as int]) >= 1);
        }
    }
    let mut out = sub_str(input, pos, at).to_owned();
    if bytes.len() - pos > max_len {
        out.append("...");
    }
    assert(out@ =~= snippet_at(b, pos as int, max_len as nat));
    out
}

/// Parse a complete BibTeX file into its items, in the order of the text.
/// Fails at the first thing that is not an item, with its position and a
/// snippet of the text there; no partial result is returned.
pub fn parse_bibtex<'a>(input: &'a str) -> (r: std::result::Result<Vec<ParsedItem<'a>>, Error>)
    ensures
        match r {
            Ok(items) => items_at(input.spec_bytes(), 0) == Ok::<Seq<ItemModel>, int>(
                item_views(items@),
            ) && forall|i: int| 0 <= i < items@.len() ==> item_borrowed(#[trigger] items@[i]),
            Err(e) => items_at(input.spec_bytes(), 0) matches Err(at) && is_parse_error(
                e,
                input.spec_bytes(),
                at,
            ),
        },
{
    let bytes = input.as_bytes();
    let ghost b = input.spec_bytes();
    let ghost total = items_at(b, 0);
    proof {
        lemma_str_bytes_valid(input);
        lemma_edges(b);
    }
    let mut items: Vec<ParsedItem<'a>> = Vec::new();
    let mut pos: usize = 0;
    loop
        invariant
            bytes@ == b,
            b == input.spec_bytes(),
            pos <= b.len(),
            on_boundary(b, pos as int),
            total == items_at(b, 0),
            match items_at(b, pos as int) {
                Ok(rest) => total == Ok::<Seq<ItemModel>, int>(item_views(items@) + rest),
                Err(at) => total == Err::<Seq<ItemModel>, int>(at),
            },
            forall|i: int| 0 <= i < items@.len() ==> item_borrowed(#[trigger] items@[i]),
        decreases b.len() - pos,
    {
        let start = skip_blank_at(input, pos);
        if start >= bytes.len() {
            proof {
                assert(item_views(items@) + Seq::<ItemModel>::empty() =~= item_views(items@));
            }
            return Ok(items);
        }
        match parse_item_at(input, start) {
            Some((item, e)) => {
                proof {
                    let before = item_views(items@);
                    assert(item_views(items@.push(item)) =~= before + seq![item@]);
                    match items_at(b, e as int) {
                        Ok(rest) => {
                            assert(before + (seq![item@] + rest) =~= (before + seq![item@])
                                + rest);
                        },
                        Err(_) => {},
                    }
                }
                items.push(item);
                pos = e;
            },
            None => {
                let (line, column) = track_position(1, 1, bytes, start);
                return Err(
                    Error::ParseError {
                        line,
                        column,
                        message: "Failed to parse entry".to_owned(),
                        snippet: Some(get_snippet(input, start, 40)),
                    },
                );
            },
        }
    }
}

} // verus!
