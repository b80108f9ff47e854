//! Parser utilities: keywords in any case and delimited spans.

use vstd::prelude::*;
use vstd::string::*;
use vstd::utf8::is_char_boundary;
use crate::parser::lexer::{advanced, skip_at, skip_spaces};
use crate::text::{
    byte_len, has_tag_at, lemma_after_ascii, lemma_edges, lemma_str_bytes_valid, on_boundary,
    sub_str, tag_at, text_of,
};

verus! {

/// May `parser` be called at every position of `input` that lies between two
/// characters, and does it end, when it succeeds, at such a position that is
/// not before the one it started at?
pub open spec fn parses<'a, O, F: Fn(&'a str, usize) -> Option<(O, usize)>>(
    parser: F,
    input: &'a str,
) -> bool {
    &&& forall|p: usize|
        p <= input.spec_bytes().len() && on_boundary(input.spec_bytes(), p as int)
            ==> call_requires(parser, (input, p))
    &&& forall|p: usize, o: O, e: usize| #[trigger]
        call_ensures(parser, (input, p), Some((o, e))) ==> p <= e <= input.spec_bytes().len()
            && on_boundary(input.spec_bytes(), e as int)
}

/// Makes a parser whitespace-insensitive: skips spaces, tabs and line breaks,
/// runs `parser` at `pos`, and skips again after it. A parser is a function
/// from the input and a position to a result and the position after it.
pub fn ws<'a, O, F: Fn(&'a str, usize) -> Option<(O, usize)>>(
    parser: F,
    input: &'a str,
    pos: usize,
) -> (r: Option<(O, usize)>)
    requires
        pos <= input.spec_bytes().len(),
        on_boundary(input.spec_bytes(), pos as int),
        parses(parser, input),
    ensures
        match r {
            Some((o, e)) => exists|mid: usize|
                call_ensures(
                    parser,
                    (input, skip_spaces(input.spec_bytes(), pos as int) as usize),
                    Some((o, mid)),
                ) && e == skip_spaces(input.spec_bytes(), mid as int),
            None => call_ensures(
                parser,
                (input, skip_spaces(input.spec_bytes(), pos as int) as usize),
                None,
            ),
        },
{
    let start = skip_at(input, pos);
    match parser(input, start) {
        Some((o, mid)) => {
            let end = skip_at(input, mid);
            Some((o, end))
        },
        None => None,
    }
}

/// Takes the keyword `tag` from the front of the input, in any case of its
/// ASCII letters, and returns it as it is written there. Fails, leaving the
/// input as it is, when the input does not start with the keyword or the
/// keyword would end inside a character.
pub fn tag_no_case<'a>(tag: &str, input: &mut &'a str) -> (r: Option<&'a str>)
    ensures
        match r {
            Some(found) => {
                &&& tag_at(old(input).spec_bytes(), 0, tag.spec_bytes())
                &&& found.spec_bytes() == old(input).spec_bytes().subrange(
                    0,
                    tag.spec_bytes().len() as int,
                )
                &&& advanced(*old(input), *final(input), tag.spec_bytes().len() as int)
            },
            None => *final(input) == *old(input) && !(tag_at(
                old(input).spec_bytes(),
                0,
                tag.spec_bytes(),
            ) && is_char_boundary(old(input).spec_bytes(), tag.spec_bytes().len() as int)),
        },
{
    let s: &'a str = *input;
    let len = byte_len(tag);
    if !has_tag_at(s.as_bytes(), 0, tag) {
        return None;
    }
    if !s.is_char_boundary(len) {
        return None;
    }
    let (found, rest) = s.split_at(len);
    *input = rest;
    Some(found)
}

/// The position after the `close` that matches the `open` at the start of a
/// delimited span, `depth` spans being open at `pos`. Every `open` opens a
/// span, every `close` closes one; nothing is escaped.
pub open spec fn delimited_end(b: Seq<u8>, pos: int, depth: nat, open: u8, close: u8) -> Option<int>
    decreases b.len() - pos,
{
    if pos < 0 || pos >= b.len() {
        None
    } else if b[pos] == open {
        delimited_end(b, pos + 1, depth + 1, open, close)
    } else if b[pos] == close && depth > 0 {
        if depth == 1 {
            Some(pos + 1)
        } else {
            delimited_end(b, pos + 1, (depth - 1) as nat, open, close)
        }
    } else {
        delimited_end(b, pos + 1, depth, open, close)
    }
}

proof fn lemma_delimited_end(b: Seq<u8>, pos: int, depth: nat, open: u8, close: u8)
    requires
        0 <= pos,
    ensures
        delimited_end(b, pos, depth, open, close) matches Some(e) ==> pos < e <= b.len() && b[e
            - 1] == close,
    decreases b.len() - pos,
{
    if pos < b.len() {
        if b[pos] == open {
            lemma_delimited_end(b, pos + 1, depth + 1, open, close);
        } else if b[pos] == close && depth > 0 {
            if depth > 1 {
                lemma_delimited_end(b, pos + 1, (depth - 1) as nat, open, close);
            }
        } else {
            lemma_delimited_end(b, pos + 1, depth, open, close);
        }
    }
}

/// Takes a span from the front of the input that starts with `open` and ends
/// with the matching `close`, and returns what is between the two. Both
/// delimiters must be ASCII. Fails, leaving the input as it is, when the
/// input does not start with `open` or the span is not closed.
pub fn balanced_delimited<'a>(open: u8, close: u8, input: &mut &'a str) -> (r: Option<&'a str>)
    requires
        open < 0x80,
        close < 0x80,
    ensures
        match r {
            Some(inner) => {
                &&& old(input).spec_bytes().len() > 0
                &&& old(input).spec_bytes()[0] == open
                &&& delimited_end(old(input).spec_bytes(), 0, 0, open, close) matches Some(e)
                &&& inner@ == text_of(old(input).spec_bytes(), 1, e - 1)
                &&& advanced(*old(input), *final(input), e)
            },
            None => *final(input) == *old(input) && (old(input).spec_bytes().len() == 0 || old(
                input,
            ).spec_bytes()[0] != open || delimited_end(old(input).spec_bytes(), 0, 0, open, close)
                is None),
        },
{
    let s: &'a str = *input;
    let bytes = s.as_bytes();
    let ghost b = s.spec_bytes();
    if bytes.len() == 0 || bytes[0] != open {
        return None;
    }
    let mut depth: usize = 0;
    let mut pos: usize = 0;
    let mut end: Option<usize> = None;
    while end.is_none() && pos < bytes.len()
        invariant
            bytes@ == b,
            pos <= b.len(),
            depth <= pos,
            end is None ==> delimited_end(b, 0, 0, open, close) == delimited_end(
                b,
                pos as int,
                depth as nat,
                open,
                close,
            ),
            end matches Some(e) ==> delimited_end(b, 0, 0, open, close) == Some(e as int),
            end matches Some(e) ==> e >= 2,
            b.len() > 0 && b[0] == open,
        decreases
                b.len() - pos + if end is None {
                    1int
                } else {
                    0int
                },
    {
        let byte = bytes[pos];
        if byte == open {
            depth += 1;
        } else if byte == close && depth > 0 {
            depth -= 1;
            if depth == 0 {
                end = Some(pos + 1);
            }
        }
        pos += 1;
    }
    match end {
        Some(e) => {
            proof {
                lemma_str_bytes_valid(s);
                lemma_edges(b);
                lemma_delimited_end(b, 0, 0, open, close);
                lemma_after_ascii(b, 0);
                lemma_after_ascii(b, e - 1);
            }
            *input = sub_str(s, e, byte_len(s));
            Some(sub_str(s, 1, e - 1))
        },
        None => None,
    }
}

} // verus!
