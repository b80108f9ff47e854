//! The entry grammar: `@type{key, name = value, ...}`.

use vstd::prelude::*;
use vstd::string::*;
use std::borrow::Cow;
use crate::model::{
    field_views, kind_of, Entry, EntryKind, EntryModel, EntryType, Field, FieldModel,
};
use crate::parser::lexer::{
    advanced, ident_end, ident_end_at, skip_at, skip_spaces, AT, CLOSE_BRACE, CLOSE_PAREN, COMMA,
    EQUALS, OPEN_BRACE, OPEN_PAREN,
};
use crate::parser::value::{good_end, parse_value_at, value_at, value_borrowed};
use crate::text::{
    byte_len, lemma_after_ascii, lemma_edges, lemma_str_bytes_valid, on_boundary, sub_str,
    text_of,
};

verus! {

/// The field `name = value` at `pos`, with the position after the white space
/// that follows it; or, when there is no such field, the position at which
/// reading it stopped: before a missing name, a missing `=` or a missing
/// value. What was read before that point stays read.
pub open spec fn field_at(b: Seq<u8>, pos: int) -> std::result::Result<(FieldModel, int), int> {
    let name_start = skip_spaces(b, pos);
    let name_end = ident_end(b, name_start);
    let eq = skip_spaces(b, name_end);
    let value_start = skip_spaces(b, eq + 1);
    if name_end == name_start {
        Err(name_start)
    } else if !(eq < b.len() && b[eq] == EQUALS) {
        Err(eq)
    } else {
        match value_at(b, value_start) {
            Some((v, e)) => Ok(
                (FieldModel { name: text_of(b, name_start, name_end), value: v }, skip_spaces(b, e)),
            ),
            None => Err(value_start),
        }
    }
}

/// Is `c` a byte that can close an entry?
pub open spec fn closer(c: u8) -> bool {
    c == CLOSE_BRACE || c == CLOSE_PAREN
}

/// The fields from `pos` on, with the position where the list stops: at a
/// closing delimiter, at the end of the input, or where a field that cannot
/// be parsed stopped being read. Fields are separated by commas and the last
/// may be followed by one. A field followed by neither a comma nor a closing
/// delimiter is an error.
pub open spec fn fields_at(b: Seq<u8>, pos: int) -> Option<(Seq<FieldModel>, int)>
    decreases b.len() - pos,
{
    let p = skip_spaces(b, pos);
    if pos < 0 || p >= b.len() || closer(b[p]) {
        Some((Seq::empty(), p))
    } else {
        match field_at(b, p) {
            Err(stop) => Some((Seq::empty(), stop)),
            Ok((f, e)) => if pos <= e < b.len() && b[e] == COMMA {
                match fields_at(b, e + 1) {
                    Some((rest, end)) => Some((seq![f] + rest, end)),
                    None => None,
                }
            } else if e < b.len() && closer(b[e]) {
                Some((seq![f], e))
            } else {
                None
            },
        }
    }
}

/// The body of an entry of type `ty` from `pos` on: the key, a comma and the fields.
pub open spec fn entry_body(b: Seq<u8>, pos: int, ty: EntryKind) -> Option<(EntryModel, int)> {
    let key_start = skip_spaces(b, pos);
    let key_end = ident_end(b, key_start);
    let comma = skip_spaces(b, key_end);
    if key_end > key_start && comma < b.len() && b[comma] == COMMA {
        match fields_at(b, comma + 1) {
            Some((fields, e)) => Some(
                (EntryModel { ty, key: text_of(b, key_start, key_end), fields }, e),
            ),
            None => None,
        }
    } else {
        None
    }
}

/// The delimiter that closes what `open` opened.
pub open spec fn closing_of(open: u8) -> u8 {
    if open == OPEN_BRACE {
        CLOSE_BRACE
    } else {
        CLOSE_PAREN
    }
}

/// What follows the `@` of an entry: the type, an opening `{` or `(`, the
/// body, and the matching closing delimiter with the white space after it.
pub open spec fn entry_content(b: Seq<u8>, pos: int) -> Option<(EntryModel, int)> {
    let type_end = ident_end(b, pos);
    let open = skip_spaces(b, type_end);
    if type_end > pos && open < b.len() && (b[open] == OPEN_BRACE || b[open] == OPEN_PAREN) {
        match entry_body(b, open + 1, kind_of(text_of(b, pos, type_end))) {
            Some((entry, e)) => {
                let close = skip_spaces(b, e);
                if close < b.len() && b[close] == closing_of(b[open]) {
                    Some((entry, skip_spaces(b, close + 1)))
                } else {
                    None
                }
            },
            None => None,
        }
    } else {
        None
    }
}

/// The entry at `pos`, after optional white space, with the position after it.
pub open spec fn entry_at(b: Seq<u8>, pos: int) -> Option<(EntryModel, int)> {
    let at = skip_spaces(b, pos);
    if 0 <= pos && at < b.len() && b[at] == AT {
        entry_content(b, at + 1)
    } else {
        None
    }
}

/// Does every text in `f` borrow from an input?
pub open spec fn field_borrowed(f: Field<'_>) -> bool {
    f.name is Borrowed && value_borrowed(f.value)
}

/// Do the key and the fields of `e` borrow every text from an input?
pub open spec fn body_borrowed(e: Entry<'_>) -> bool {
    &&& e.key is Borrowed
    &&& forall|i: int| 0 <= i < e.fields@.len() ==> field_borrowed(#[trigger] e.fields@[i])
}

/// Does every text in `e` borrow from an input?
pub open spec fn entry_borrowed(e: Entry<'_>) -> bool {
    &&& body_borrowed(e)
    &&& e.ty matches EntryType::Custom(name) ==> name is Borrowed
}

/// Parses a single field (`name = value`) at `pos`, or tells where reading it stopped.
pub fn parse_field_at<'a>(input: &'a str, pos: usize) -> (r: std::result::Result<
    (Field<'a>, usize),
    usize,
>)
    requires
        pos <= input.spec_bytes().len(),
        on_boundary(input.spec_bytes(), pos as int),
    ensures
        match r {
            Ok((f, e)) => field_at(input.spec_bytes(), pos as int) == Ok::<(FieldModel, int), int>(
                (f@, e as int),
            ) && good_end(input.spec_bytes(), pos as int, e as int) && field_borrowed(f),
            Err(stop) => field_at(input.spec_bytes(), pos as int) == Err::<(FieldModel, int), int>(
                stop as int,
            ) && pos <= stop <= input.spec_bytes().len() && on_boundary(
                input.spec_bytes(),
                stop as int,
            ),
        },
{
    let bytes = input.as_bytes();
    let ghost b = input.spec_bytes();
    let name_start = skip_at(input, pos);
    let name_end = ident_end_at(input, name_start);
    if name_end == name_start {
        return Err(name_start);
    }
    let eq = skip_at(input, name_end);
    if eq >= bytes.len() || bytes[eq] != 0x3d {
        return Err(eq);
    }
    proof {
        lemma_str_bytes_valid(input);
        lemma_after_ascii(b, eq as int);
    }
    let value_start = skip_at(input, eq + 1);
    match parse_value_at(input, value_start) {
        Some((value, e)) => {
            let end = skip_at(input, e);
            Ok((Field { name: Cow::Borrowed(sub_str(input, name_start, name_end)), value }, end))
        },
        None => Err(value_start),
    }
}

/// Parses all fields of an entry from `pos` on.
pub fn parse_fields_at<'a>(input: &'a str, pos: usize) -> (r: Option<(Vec<Field<'a>>, usize)>)
    requires
        pos <= input.spec_bytes().len(),
        on_boundary(input.spec_bytes(), pos as int),
    ensures
        match r {
            Some((fields, e)) => fields_at(input.spec_bytes(), pos as int) == Some(
                (field_views(fields@), e as int),
            ) && pos <= e <= input.spec_bytes().len() && on_boundary(input.spec_bytes(), e as int)
                && forall|i: int| 0 <= i < fields@.len() ==> field_borrowed(#[trigger] fields@[i]),
            None => fields_at(input.spec_bytes(), pos as int) is None,
        },
{
    let bytes = input.as_bytes();
    let ghost b = input.spec_bytes();
    let ghost total = fields_at(b, pos as int);
    let mut fields: Vec<Field<'a>> = Vec::new();
    let mut cur = pos;
    let mut going = true;
    while going
        invariant
            bytes@ == b,
            b == input.spec_bytes(),
            pos <= cur <= b.len(),
            on_boundary(b, cur as int),
            total == fields_at(b, pos as int),
            going ==> match fields_at(b, cur as int) {
                Some((rest, end)) => total == Some((field_views(fields@) + rest, end)),
                None => total is None,
            },
            !going ==> total == Some((field_views(fields@), cur as int)),
            forall|i: int| 0 <= i < fields@.len() ==> field_borrowed(#[trigger] fields@[i]),
        decreases
                b.len() - cur + if going {
                    1int
                } else {
                    0int
                },
    {
        let p = skip_at(input, cur);
        if p >= bytes.len() || bytes[p] == 0x7d || bytes[p] == 0x29 {
            proof {
                assert(field_views(fields@) + Seq::<FieldModel>::empty() =~= field_views(fields@));
            }
            cur = p;
            going = false;
        } else {
            match parse_field_at(input, p) {
                Err(stop) => {
                    proof {
                        assert(field_views(fields@) + Seq::<FieldModel>::empty() =~= field_views(
                            fields@,
                        ));
                    }
                    cur = stop;
                    going = false;
                },
                Ok((f, e)) => {
                    let ghost before = field_views(fields@);
                    if e < bytes.len() && bytes[e] == 0x2c {
                        proof {
                            lemma_str_bytes_valid(input);
                            lemma_after_ascii(b, e as int);
                            assert(field_views(fields@.push(f)) =~= before + seq![f@]);
                            match fields_at(b, e + 1) {
                                Some((rest, end)) => {
                                    assert(before + (seq![f@] + rest) =~= (before + seq![f@])
                                        + rest);
                                },
                                None => {},
                            }
                        }
                        fields.push(f);
                        cur = e + 1;
                    } else if e < bytes.len() && (bytes[e] == 0x7d || bytes[e] == 0x29) {
                        proof {
                            assert(field_views(fields@.push(f)) =~= before + seq![f@]);
                        }
                        fields.push(f);
                        cur = e;
                        going = false;
                    } else {
                        return None;
                    }
                },
            }
        }
    }
    Some((fields, cur))
}

/// Parses the body of an entry (key and fields) from `pos` on.
pub fn parse_entry_body<'a>(input: &'a str, pos: usize, entry_type: EntryType<'a>) -> (r: Option<
    (Entry<'a>, usize),
>)
    requires
        pos <= input.spec_bytes().len(),
        on_boundary(input.spec_bytes(), pos as int),
    ensures
        match r {
            Some((entry, e)) => entry_body(input.spec_bytes(), pos as int, entry_type@) == Some(
                (entry@, e as int),
            ) && good_end(input.spec_bytes(), pos as int, e as int) && entry.ty == entry_type
                && body_borrowed(entry),
            None => entry_body(input.spec_bytes(), pos as int, entry_type@) is None,
        },
{
    let bytes = input.as_bytes();
    let ghost b = input.spec_bytes();
    let key_start = skip_at(input, pos);
    let key_end = ident_end_at(input, key_start);
    if key_end == key_start {
        return None;
    }
    let comma = skip_at(input, key_end);
    if comma >= bytes.len() || bytes[comma] != 0x2c {
        return None;
    }
    proof {
        lemma_str_bytes_valid(input);
        lemma_after_ascii(b, comma as int);
    }
    match parse_fields_at(input, comma + 1) {
        Some((fields, e)) => Some(
            (
                Entry {
                    ty: entry_type,
                    key: Cow::Borrowed(sub_str(input, key_start, key_end)),
                    fields,
                },
                e,
            ),
        ),
        None => None,
    }
}

/// Parses what follows the `@` of an entry.
pub fn parse_entry_content<'a>(input: &'a str, pos: usize) -> (r: Option<(Entry<'a>, usize)>)
    requires
        pos <= input.spec_bytes().len(),
        on_boundary(input.spec_bytes(), pos as int),
    ensures
        match r {
            Some((entry, e)) => entry_content(input.spec_bytes(), pos as int) == Some(
                (entry@, e as int),
            ) && good_end(input.spec_bytes(), pos as int, e as int) && entry_borrowed(entry),
            None => entry_content(input.spec_bytes(), pos as int) is None,
        },
{
    let bytes = input.as_bytes();
    let ghost b = input.spec_bytes();
    let type_end = ident_end_at(input, pos);
    if type_end == pos {
        return None;
    }
    let entry_type = EntryType::parse(sub_str(input, pos, type_end));
    let open = skip_at(input, type_end);
    if open >= bytes.len() || (bytes[open] != 0x7b && bytes[open] != 0x28) {
        return None;
    }
    let closing: u8 = if bytes[open] == 0x7b {
        0x7d
    } else {
        0x29
    };
    proof {
        lemma_str_bytes_valid(input);
        lemma_after_ascii(b, open as int);
    }
    match parse_entry_body(input, open + 1, entry_type) {
        Some((entry, e)) => {
            let close = skip_at(input, e);
            if close < bytes.len() && bytes[close] == closing {
                proof {
                    lemma_after_ascii(b, close as int);
                }
                Some((entry, skip_at(input, close + 1)))
            } else {
                None
            }
        },
        None => None,
    }
}

/// Parses the entry at `pos`, after optional white space.
pub fn parse_entry_at<'a>(input: &'a str, pos: usize) -> (r: Option<(Entry<'a>, usize)>)
    requires
        pos <= input.spec_bytes().len(),
        on_boundary(input.spec_bytes(), pos as int),
    ensures
        match r {
            Some((entry, e)) => entry_at(input.spec_bytes(), pos as int) == Some((entry@, e as int))
                && good_end(input.spec_bytes(), pos as int, e as int) && entry_borrowed(entry),
            None => entry_at(input.spec_bytes(), pos as int) is None,
        },
{
    let bytes = input.as_bytes();
    let at = skip_at(input, pos);
    if at >= bytes.len() || bytes[at] != 0x40 {
        return None;
    }
    proof {
        lemma_str_bytes_valid(input);
        lemma_after_ascii(input.spec_bytes(), at as int);
    }
    parse_entry_content(input, at + 1)
}

/// Parse a bibliography entry from the front of the input. On failure the
/// input is left as it is.
pub fn parse_entry<'a>(input: &mut &'a str) -> (r: Option<Entry<'a>>)
    ensures
        match r {
            Some(entry) => {
                &&& entry_at(old(input).spec_bytes(), 0) matches Some((model, e))
                &&& entry@ == model
                &&& entry_borrowed(entry)
                &&& advanced(*old(input), *final(input), e)
            },
            None => entry_at(old(input).spec_bytes(), 0) is None && *final(input) == *old(input),
        },
{
    let s: &'a str = *input;
    proof {
        lemma_str_bytes_valid(s);
        lemma_edges(s.spec_bytes());
    }
    match parse_entry_at(s, 0) {
        Some((entry, e)) => {
            *input = sub_str(s, e, byte_len(s));
            Some(entry)
        },
        None => None,
    }
}

} // verus!
