//! The value grammar: literals, numbers, variables and `#` concatenation.

use vstd::prelude::*;
use vstd::std_specs::iter::IteratorSpec;
use vstd::string::*;
use std::borrow::Cow;
use crate::model::{lemma_concat_view, value_views, Value, ValueModel};
use crate::parser::lexer::{
    advanced, brace_close, brace_scan, ident_end, ident_end_at, lemma_brace_scan_bounds,
    lemma_quote_scan_bounds, lemma_skip_spaces_bounds, number_at, quote_close, quote_scan,
    read_number, skip_spaces, skip_spaces_at, HASH, OPEN_BRACE, QUOTE,
};
use crate::text::{
    byte_len, char_at, lemma_after_ascii, lemma_edges, lemma_str_bytes_valid, numeric, on_boundary,
    push_char, scalar_at, sub_str, text_of, whitespace,
};

verus! {

/// A quoted literal at `pos`: its text and the position after the closing quote.
pub open spec fn quoted_value(b: Seq<u8>, pos: int) -> Option<(ValueModel, int)> {
    if 0 <= pos < b.len() && b[pos] == QUOTE {
        match quote_scan(b, pos + 1, 0) {
            Some(e) => Some((ValueModel::Literal(text_of(b, pos + 1, e)), e + 1)),
            None => None,
        }
    } else {
        None
    }
}

/// A braced literal at `pos`: its text and the position after the closing brace.
pub open spec fn braced_value(b: Seq<u8>, pos: int) -> Option<(ValueModel, int)> {
    if 0 <= pos < b.len() && b[pos] == OPEN_BRACE {
        match brace_scan(b, pos + 1, 0) {
            Some(e) => Some((ValueModel::Literal(text_of(b, pos + 1, e)), e + 1)),
            None => None,
        }
    } else {
        None
    }
}

/// A number at `pos`.
pub open spec fn number_value(b: Seq<u8>, pos: int) -> Option<(ValueModel, int)> {
    match number_at(b, pos) {
        Some((n, e)) => Some((ValueModel::Number(n), e)),
        None => None,
    }
}

/// A variable at `pos`: an identifier that does not start with a numeric character.
pub open spec fn variable_value(b: Seq<u8>, pos: int) -> Option<(ValueModel, int)> {
    if 0 <= pos < b.len() && !numeric(scalar_at(b, pos)) && ident_end(b, pos) > pos {
        Some((ValueModel::Variable(text_of(b, pos, ident_end(b, pos))), ident_end(b, pos)))
    } else {
        None
    }
}

/// One component of a value: the first that matches of quoted literal, braced
/// literal, number and variable.
pub open spec fn single_value(b: Seq<u8>, pos: int) -> Option<(ValueModel, int)> {
    if quoted_value(b, pos) is Some {
        quoted_value(b, pos)
    } else if braced_value(b, pos) is Some {
        braced_value(b, pos)
    } else if number_value(b, pos) is Some {
        number_value(b, pos)
    } else {
        variable_value(b, pos)
    }
}

/// The components that follow one that ended at `pos`, each after a `#`, and
/// the position after the last of them. A `#` that no component follows is
/// not consumed.
pub open spec fn more_parts(b: Seq<u8>, pos: int) -> (Seq<ValueModel>, int)
    decreases b.len() - pos,
{
    let hash = skip_spaces(b, pos);
    if 0 <= pos && hash < b.len() && b[hash] == HASH {
        match single_value(b, skip_spaces(b, hash + 1)) {
            Some((v, e)) => if pos < e <= b.len() {
                (seq![v] + more_parts(b, e).0, more_parts(b, e).1)
            } else {
                (Seq::empty(), pos)
            },
            None => (Seq::empty(), pos),
        }
    } else {
        (Seq::empty(), pos)
    }
}

/// The value at `pos` and the position after it. A single component stands
/// for itself; two or more form a concatenation.
pub open spec fn value_at(b: Seq<u8>, pos: int) -> Option<(ValueModel, int)> {
    match single_value(b, pos) {
        Some((v, e)) => {
            let (rest, end) = more_parts(b, e);
            if rest.len() == 0 {
                Some((v, e))
            } else {
                Some((ValueModel::Concat(seq![v] + rest), end))
            }
        },
        None => None,
    }
}

/// Does every text in `v` borrow from an input, none of it being a copy?
pub open spec fn value_borrowed(v: Value<'_>) -> bool
    decreases v,
{
    match v {
        Value::Literal(text) => text is Borrowed,
        Value::Number(_) => true,
        Value::Concat(parts) => forall|i: int|
            0 <= i < parts@.len() ==> {
                proof {
                    vstd::std_specs::vec::axiom_vec_index_decreases(*parts, i);
                }
                value_borrowed(#[trigger] parts@[i])
            },
        Value::Variable(name) => name is Borrowed,
    }
}

/// What a successful parse at `pos` owes its caller: the end lies after
/// `pos`, inside the input and between two characters.
pub open spec fn good_end(b: Seq<u8>, pos: int, e: int) -> bool {
    pos < e <= b.len() && on_boundary(b, e)
}

/// A single component ends after its start and inside the input.
pub proof fn lemma_single_value_bounds(b: Seq<u8>, pos: int)
    requires
        0 <= pos <= b.len(),
    ensures
        single_value(b, pos) matches Some((v, e)) ==> pos < e <= b.len(),
{
    lemma_quote_scan_bounds(b, pos + 1, 0);
    lemma_brace_scan_bounds(b, pos + 1, 0);
    crate::parser::lexer::lemma_digits_end_bounds(b, crate::parser::lexer::after_sign(b, pos));
    crate::parser::lexer::lemma_ident_end_bounds(b, pos);
}

/// Parses one component of a value at `pos`.
pub fn parse_single_value<'a>(input: &'a str, pos: usize) -> (r: Option<(Value<'a>, usize)>)
    requires
        pos <= input.spec_bytes().len(),
        on_boundary(input.spec_bytes(), pos as int),
    ensures
        match r {
            Some((v, e)) => single_value(input.spec_bytes(), pos as int) == Some((v@, e as int))
                && good_end(input.spec_bytes(), pos as int, e as int) && value_borrowed(v) && !(v
                is Concat),
            None => single_value(input.spec_bytes(), pos as int) is None,
        },
{
    let bytes = input.as_bytes();
    let ghost b = input.spec_bytes();
    proof {
        lemma_str_bytes_valid(input);
        lemma_single_value_bounds(b, pos as int);
    }
    if pos < bytes.len() && bytes[pos] == 0x22 {
        match quote_close(bytes, pos + 1) {
            Some(e) => {
                proof {
                    lemma_quote_scan_bounds(b, pos + 1, 0);
                    lemma_after_ascii(b, pos as int);
                    lemma_after_ascii(b, e as int);
                }
                return Some((Value::Literal(Cow::Borrowed(sub_str(input, pos + 1, e))), e + 1));
            },
            None => {},
        }
    }
    if pos < bytes.len() && bytes[pos] == 0x7b {
        match brace_close(bytes, pos + 1) {
            Some(e) => {
                proof {
                    lemma_brace_scan_bounds(b, pos + 1, 0);
                    lemma_after_ascii(b, pos as int);
                    lemma_after_ascii(b, e as int);
                }
                return Some((Value::Literal(Cow::Borrowed(sub_str(input, pos + 1, e))), e + 1));
            },
            None => {},
        }
    }
    match read_number(bytes, pos) {
        Some((n, e)) => {
            proof {
                crate::parser::lexer::lemma_digits_end_bounds(
                    b,
                    crate::parser::lexer::after_sign(b, pos as int),
                );
                lemma_after_ascii(b, e - 1);
            }
            return Some((Value::Number(n), e));
        },
        None => {},
    }
    if pos < bytes.len() && !char_at(input, pos).is_numeric() {
        let e = ident_end_at(input, pos);
        if e > pos {
            return Some((Value::Variable(Cow::Borrowed(sub_str(input, pos, e))), e));
        }
    }
    None
}

/// Parses a value at `pos`: one component, or several joined by `#`.
pub fn parse_value_at<'a>(input: &'a str, pos: usize) -> (r: Option<(Value<'a>, usize)>)
    requires
        pos <= input.spec_bytes().len(),
        on_boundary(input.spec_bytes(), pos as int),
    ensures
        match r {
            Some((v, e)) => value_at(input.spec_bytes(), pos as int) == Some((v@, e as int))
                && good_end(input.spec_bytes(), pos as int, e as int) && value_borrowed(v),
            None => value_at(input.spec_bytes(), pos as int) is None,
        },
{
    let bytes = input.as_bytes();
    let ghost b = input.spec_bytes();
    let (first, first_end) = match parse_single_value(input, pos) {
        Some(found) => found,
        None => {
            return None;
        },
    };
    let ghost total = more_parts(b, first_end as int);
    let mut parts: Vec<Value<'a>> = Vec::new();
    let mut end = first_end;
    let mut going = true;
    while going
        invariant
            bytes@ == b,
            b == input.spec_bytes(),
            pos < first_end <= end <= b.len(),
            on_boundary(b, end as int),
            going ==> value_views(parts@) + more_parts(b, end as int).0 == total.0,
            going ==> more_parts(b, end as int).1 == total.1,
            !going ==> value_views(parts@) == total.0 && end == total.1,
            parts@.len() == 0 ==> end == first_end,
            forall|i: int| 0 <= i < parts@.len() ==> value_borrowed(#[trigger] parts@[i]),
        decreases
                b.len() - end + if going {
                    1int
                } else {
                    0int
                },
    {
        let hash = skip_spaces_at(bytes, end);
        if hash < bytes.len() && bytes[hash] == 0x23 {
            let start = skip_spaces_at(bytes, hash + 1);
            proof {
                lemma_str_bytes_valid(input);
                lemma_skip_spaces_bounds(b, hash + 1);
                if start > 0 {
                    lemma_after_ascii(b, start - 1);
                }
            }
            match parse_single_value(input, start) {
                Some((v, e)) => {
                    proof {
                        let before = value_views(parts@);
                        assert(value_views(parts@.push(v)) =~= before + seq![v@]);
                        assert(before + (seq![v@] + more_parts(b, e as int).0) =~= (before
                            + seq![v@]) + more_parts(b, e as int).0);
                    }
                    parts.push(v);
                    end = e;
                },
                None => {
                    proof {
                        assert(value_views(parts@) + Seq::<ValueModel>::empty() =~= value_views(
                            parts@,
                        ));
                    }
                    going = false;
                },
            }
        } else {
            proof {
                assert(value_views(parts@) + Seq::<ValueModel>::empty() =~= value_views(parts@));
            }
            going = false;
        }
    }
    if parts.len() == 0 {
        Some((first, end))
    } else {
        let ghost rest = value_views(parts@);
        let ghost first_view = first@;
        let ghost old_parts = parts@;
        parts.insert(0, first);
        proof {
            assert(value_views(parts@) =~= seq![first_view] + rest);
            lemma_concat_view(Box::new(parts));
            assert forall|i: int| 0 <= i < parts@.len() implies value_borrowed(
                #[trigger] parts@[i],
            ) by {
                if i > 0 {
                    assert(parts@[i] == old_parts[i - 1]);
                }
            }
        }
        Some((Value::Concat(Box::new(parts)), end))
    }
}

/// Parse a BibTeX value (string, number, variable, or concatenation) from the
/// front of the input. On failure the input is left as it is.
pub fn parse_value<'a>(input: &mut &'a str) -> (r: Option<Value<'a>>)
    ensures
        match r {
            Some(v) => {
                &&& value_at(old(input).spec_bytes(), 0) matches Some((model, e))
                &&& v@ == model
                &&& value_borrowed(v)
                &&& advanced(*old(input), *final(input), e)
            },
            None => value_at(old(input).spec_bytes(), 0) is None && *final(input) == *old(input),
        },
{
    let s: &'a str = *input;
    proof {
        lemma_str_bytes_valid(s);
        lemma_edges(s.spec_bytes());
    }
    match parse_value_at(s, 0) {
        Some((v, e)) => {
            *input = sub_str(s, e, byte_len(s));
            Some(v)
        },
        None => None,
    }
}

/// The first `n` characters of `s` with every run of white space between two
/// words made one space, and the white space before the first word dropped.
/// White space after the last word is not part of the result.
pub open spec fn squeezed(s: Seq<char>, n: nat) -> Seq<char>
    decreases n,
{
    if n == 0 || n > s.len() {
        Seq::empty()
    } else if whitespace(s[n - 1]) {
        squeezed(s, (n - 1) as nat)
    } else if n >= 2 && whitespace(s[n - 2]) && squeezed(s, (n - 1) as nat).len() > 0 {
        squeezed(s, (n - 1) as nat) + seq![' ', s[n - 1]]
    } else {
        squeezed(s, (n - 1) as nat).push(s[n - 1])
    }
}

/// Normalize a string value: words separated by single spaces, no white
/// space at either end.
pub fn normalize_value(s: &str) -> (r: String)
    ensures
        r@ == squeezed(s@, s@.len()),
{
    let mut out = String::new();
    let mut it = s.chars();
    let ghost mut n: nat = 0;
    let mut after_space = false;
    let mut started = false;
    loop
        invariant
            n <= s@.len(),
            it.remaining() == s@.subrange(n as int, s@.len() as int),
            out@ == squeezed(s@, n),
            after_space == (n >= 1 && whitespace(s@[n - 1])),
            started == (out@.len() > 0),
            it.obeys_prophetic_iter_laws(),
            it.decrease() is Some,
        decreases it.decrease()->0,
    {
        broadcast use {vstd::string::axiom_spec_iter, vstd::string::next_postcondition};

        match it.next() {
            Some(c) => {
                proof {
                    n = n + 1;
                }
                if c.is_whitespace() {
                    after_space = true;
                } else {
                    if after_space && started {
                        proof {
                            reveal_strlit(" ");
                        }
                        out.append(" ");
                    }
                    push_char(&mut out, c);
                    assert(out@ =~= squeezed(s@, n));
                    after_space = false;
                    started = true;
                }
            },
            None => {
                return out;
            },
        }
    }
}

} // verus!
