//! Text primitives shared by the grammar and the data model.
//!
//! Input is held as `&str`, but the grammar is stated over the UTF-8 bytes of
//! that text. This module connects the two: it slices a `&str` at byte
//! offsets that are proved to fall between scalars, reads the scalar that
//! starts at an offset, and gives the few character and string operations
//! the rest of the library needs an exact meaning.

use vstd::prelude::*;
use vstd::string::*;
use vstd::utf8::*;

verus! {

/// `pos` lies in `b` and does not point into the middle of a scalar.
pub open spec fn on_boundary(b: Seq<u8>, pos: int) -> bool {
    0 <= pos <= b.len() && (pos < b.len() ==> !is_continuation_byte(b[pos]))
}

/// The text encoded by the bytes `b[start..end]`.
pub open spec fn text_of(b: Seq<u8>, start: int, end: int) -> Seq<char> {
    decode_utf8(b.subrange(start, end))
}

/// The scalar whose encoding starts at `pos`.
pub open spec fn scalar_at(b: Seq<u8>, pos: int) -> char {
    decode_first_scalar(b.subrange(pos, b.len() as int)) as char
}

/// How many bytes a scalar occupies, judged by its first byte.
pub open spec fn width_of(first: u8) -> int {
    if first < 0x80 {
        1
    } else if first < 0xe0 {
        2
    } else if first < 0xf0 {
        3
    } else {
        4
    }
}

/// The bytes of any `&str` are well-formed UTF-8.
pub proof fn lemma_str_bytes_valid(s: &str)
    ensures
        valid_utf8(s.spec_bytes()),
{
    encode_utf8_valid_utf8(s@);
}

/// A position that satisfies `on_boundary` is a character boundary in vstd's sense.
pub proof fn lemma_boundary(b: Seq<u8>, pos: int)
    requires
        valid_utf8(b),
        on_boundary(b, pos),
    ensures
        is_char_boundary(b, pos),
{
    if pos == b.len() {
        is_char_boundary_start_end_of_seq(b);
    } else {
        is_char_boundary_iff_not_is_continuation_byte(b, pos);
    }
}

/// The two ends of a well-formed text are boundaries.
pub proof fn lemma_edges(b: Seq<u8>)
    requires
        valid_utf8(b),
    ensures
        on_boundary(b, 0),
        on_boundary(b, b.len() as int),
{
    if b.len() > 0 {
        is_char_boundary_start_end_of_seq(b);
        is_char_boundary_iff_not_is_continuation_byte(b, 0);
    }
}

/// Stepping over the scalar that starts at a boundary lands on a boundary.
pub proof fn lemma_scalar_step(b: Seq<u8>, pos: int)
    requires
        valid_utf8(b),
        on_boundary(b, pos),
        pos < b.len(),
    ensures
        valid_first_scalar(b.subrange(pos, b.len() as int)),
        length_of_first_scalar(b.subrange(pos, b.len() as int)) == width_of(b[pos]),
        pos + width_of(b[pos]) <= b.len(),
        on_boundary(b, pos + width_of(b[pos])),
        forall|j: int| pos < j < pos + width_of(b[pos]) ==> is_continuation_byte(#[trigger] b[j]),
{
    lemma_boundary(b, pos);
    valid_utf8_split(b, pos);
    let t = b.subrange(pos, b.len() as int);
    assert(t[0] == b[pos]);
    assert(valid_first_scalar(t) && valid_utf8(pop_first_scalar(t)));
    let w = length_of_first_scalar(t);
    assert(w == width_of(b[pos]));
    let u = pop_first_scalar(t);
    assert(u.len() == t.len() - w);
    assert forall|j: int| pos < j < pos + w implies is_continuation_byte(#[trigger] b[j]) by {
        assert(b[j] == t[j - pos]);
    }
    if pos + w < b.len() {
        assert(is_char_boundary(u, 0));
        is_char_boundary_iff_not_is_continuation_byte(u, 0);
        assert(u[0] == b[pos + w]);
    }
}

/// The byte after an ASCII byte starts a scalar (or is the end of the text).
pub proof fn lemma_after_ascii(b: Seq<u8>, pos: int)
    requires
        valid_utf8(b),
        0 <= pos < b.len(),
        b[pos] < 0x80,
    ensures
        on_boundary(b, pos),
        on_boundary(b, pos + 1),
{
    lemma_scalar_step(b, pos);
}

/// A slice whose bytes are `b[start..end]` holds the text `text_of(b, start, end)`.
pub proof fn lemma_slice_text(piece: &str, b: Seq<u8>, start: int, end: int)
    requires
        piece.spec_bytes() == b.subrange(start, end),
    ensures
        piece@ == text_of(b, start, end),
{
    encode_utf8_decode_utf8(piece@);
}

/// The length of `s` in bytes.
pub fn byte_len(s: &str) -> (n: usize)
    ensures
        n == s.spec_bytes().len(),
{
    s.as_bytes().len()
}

/// The part of `s` between two byte offsets, borrowed from `s`.
pub fn sub_str<'a>(s: &'a str, start: usize, end: usize) -> (piece: &'a str)
    requires
        start <= end <= s.spec_bytes().len(),
        on_boundary(s.spec_bytes(), start as int),
        on_boundary(s.spec_bytes(), end as int),
    ensures
        piece.spec_bytes() == s.spec_bytes().subrange(start as int, end as int),
        piece@ == text_of(s.spec_bytes(), start as int, end as int),
{
    let ghost b = s.spec_bytes();
    proof {
        lemma_str_bytes_valid(s);
        lemma_boundary(b, end as int);
    }
    let (head, _) = s.split_at(end);
    proof {
        lemma_str_bytes_valid(head);
        let h = head.spec_bytes();
        assert(h.len() == end);
        if start < end {
            assert(h[start as int] == b[start as int]);
        }
        lemma_boundary(h, start as int);
    }
    let (_, piece) = head.split_at(start);
    proof {
        assert(piece.spec_bytes() =~= b.subrange(start as int, end as int));
        lemma_slice_text(piece, b, start as int, end as int);
    }
    piece
}

/// The scalar of `s` that starts at byte offset `pos`.
pub fn char_at(s: &str, pos: usize) -> (c: char)
    requires
        pos < s.spec_bytes().len(),
        on_boundary(s.spec_bytes(), pos as int),
    ensures
        c == scalar_at(s.spec_bytes(), pos as int),
{
    broadcast use {axiom_spec_iter, next_postcondition};

    let ghost b = s.spec_bytes();
    proof {
        lemma_str_bytes_valid(s);
        lemma_boundary(b, pos as int);
    }
    let (_, tail) = s.split_at(pos);
    proof {
        let t = tail.spec_bytes();
        assert(t == b.subrange(pos as int, b.len() as int));
        assert(t.len() > 0);
        lemma_str_bytes_valid(tail);
        encode_utf8_decode_utf8(tail@);
        assert(decode_utf8(t) == tail@);
        assert(tail@.len() > 0);
        assert(tail@[0] == decode_first_scalar(t) as char);
    }
    let mut it = tail.chars();
    match it.next() {
        Some(c) => c,
        None => ' ',
    }
}

/// The width in bytes of the scalar that starts with byte `first`.
pub fn scalar_width(first: u8) -> (w: usize)
    ensures
        w == width_of(first),
{
    if first < 0x80 {
        1
    } else if first < 0xe0 {
        2
    } else if first < 0xf0 {
        3
    } else {
        4
    }
}

/// What `char::is_alphanumeric` answers for a scalar (Unicode `Alphabetic` or a numeric class).
pub uninterp spec fn alphanumeric(c: char) -> bool;

/// What `char::is_numeric` answers for a scalar (Unicode classes `Nd`, `Nl`, `No`).
pub uninterp spec fn numeric(c: char) -> bool;

/// What `char::is_whitespace` answers for a scalar (Unicode `White_Space`).
pub uninterp spec fn whitespace(c: char) -> bool;

/// What `str::to_lowercase` returns for a text (Unicode `Lowercase` mapping).
pub uninterp spec fn lowercase(s: Seq<char>) -> Seq<char>;

/// `char::is_alphanumeric` of std; its answer depends on the scalar alone and is named
/// `alphanumeric`.
pub assume_specification[ char::is_alphanumeric ](c: char) -> (r: bool)
    ensures
        r == alphanumeric(c),
;

/// `char::is_numeric` of std; its answer depends on the scalar alone and is named `numeric`.
pub assume_specification[ char::is_numeric ](c: char) -> (r: bool)
    ensures
        r == numeric(c),
;

/// `char::is_whitespace` of std; its answer depends on the scalar alone and is named `whitespace`.
pub assume_specification[ char::is_whitespace ](c: char) -> (r: bool)
    ensures
        r == whitespace(c),
;

/// `str::to_lowercase` of std; the result depends on the text alone and is named `lowercase`.
pub assume_specification[ str::to_lowercase ](s: &str) -> (r: String)
    ensures
        r@ == lowercase(s@),
;

/// `String::push` of std: appends one character.
#[verifier::external_body]
pub(crate) fn push_char(out: &mut String, c: char)
    ensures
        final(out)@ == old(out)@.push(c),
{
    out.push(c);
}

/// The lower-case form of an ASCII letter; every other byte is unchanged.
pub open spec fn ascii_lower(c: u8) -> u8 {
    if 0x41 <= c <= 0x5a {
        (c + 0x20) as u8
    } else {
        c
    }
}

/// Two byte strings are equal up to the case of ASCII letters.
pub open spec fn same_ignoring_ascii_case(a: Seq<u8>, b: Seq<u8>) -> bool {
    a.len() == b.len() && forall|i: int| 0 <= i < a.len() ==> ascii_lower(a[i]) == ascii_lower(b[i])
}

/// Lower-cases one ASCII letter.
pub fn to_ascii_lower(c: u8) -> (r: u8)
    ensures
        r == ascii_lower(c),
{
    if 0x41 <= c && c <= 0x5a {
        c + 0x20
    } else {
        c
    }
}

/// Compares two texts, ignoring the case of ASCII letters.
pub fn eq_ignore_ascii_case(a: &str, b: &str) -> (r: bool)
    ensures
        r == same_ignoring_ascii_case(a.spec_bytes(), b.spec_bytes()),
{
    let x = a.as_bytes();
    let y = b.as_bytes();
    if x.len() != y.len() {
        return false;
    }
    let mut i: usize = 0;
    while i < x.len()
        invariant
            i <= x.len(),
            x.len() == y.len(),
            x@ == a.spec_bytes(),
            y@ == b.spec_bytes(),
            forall|j: int| 0 <= j < i ==> ascii_lower(x@[j]) == ascii_lower(y@[j]),
        decreases x.len() - i,
    {
        if to_ascii_lower(x[i]) != to_ascii_lower(y[i]) {
            assert(ascii_lower(x@[i as int]) != ascii_lower(y@[i as int]));
            return false;
        }
        i += 1;
    }
    true
}

/// Whether `b[pos..]` starts with `tag`, ignoring the case of ASCII letters.
pub open spec fn tag_at(b: Seq<u8>, pos: int, tag: Seq<u8>) -> bool {
    0 <= pos && pos + tag.len() <= b.len() && same_ignoring_ascii_case(
        b.subrange(pos, pos + tag.len()),
        tag,
    )
}

/// Tests for a keyword at a byte offset, ignoring the case of ASCII letters.
pub fn has_tag_at(bytes: &[u8], pos: usize, tag: &str) -> (r: bool)
    requires
        pos <= bytes@.len(),
    ensures
        r == tag_at(bytes@, pos as int, tag.spec_bytes()),
{
    let t = tag.as_bytes();
    if t.len() > bytes.len() - pos {
        return false;
    }
    let ghost window = bytes@.subrange(pos as int, pos + t.len());
    let mut i: usize = 0;
    while i < t.len()
        invariant
            i <= t.len(),
            pos + t.len() <= bytes.len(),
            window == bytes@.subrange(pos as int, pos + t.len()),
            t@ == tag.spec_bytes(),
            forall|j: int| 0 <= j < i ==> ascii_lower(window[j]) == ascii_lower(t@[j]),
        decreases t.len() - i,
    {
        assert(window[i as int] == bytes@[pos + i]);
        if to_ascii_lower(bytes[pos + i]) != to_ascii_lower(t[i]) {
            assert(ascii_lower(window[i as int]) != ascii_lower(t@[i as int]));
            return false;
        }
        i += 1;
    }
    true
}

/// The character for one decimal digit.
pub open spec fn digit_char(d: nat) -> char {
    if d == 0 {
        '0'
    } else if d == 1 {
        '1'
    } else if d == 2 {
        '2'
    } else if d == 3 {
        '3'
    } else if d == 4 {
        '4'
    } else if d == 5 {
        '5'
    } else if d == 6 {
        '6'
    } else if d == 7 {
        '7'
    } else if d == 8 {
        '8'
    } else {
        '9'
    }
}

/// A natural number written in decimal, without leading zeros.
pub open spec fn decimal(n: nat) -> Seq<char>
    decreases n,
{
    if n < 10 {
        seq![digit_char(n)]
    } else {
        decimal(n / 10).push(digit_char(n % 10))
    }
}

/// An integer written in decimal, with a leading `-` when negative.
pub open spec fn signed_decimal(i: int) -> Seq<char> {
    if i < 0 {
        seq!['-'] + decimal((-i) as nat)
    } else {
        decimal(i as nat)
    }
}

fn digit_str(d: u128) -> (s: &'static str)
    requires
        d < 10,
    ensures
        s@ == seq![digit_char(d as nat)],
{
    proof {
        reveal_strlit("0");
        reveal_strlit("1");
        reveal_strlit("2");
        reveal_strlit("3");
        reveal_strlit("4");
        reveal_strlit("5");
        reveal_strlit("6");
        reveal_strlit("7");
        reveal_strlit("8");
        reveal_strlit("9");
    }
    let s = if d == 0 {
        "0"
    } else if d == 1 {
        "1"
    } else if d == 2 {
        "2"
    } else if d == 3 {
        "3"
    } else if d == 4 {
        "4"
    } else if d == 5 {
        "5"
    } else if d == 6 {
        "6"
    } else if d == 7 {
        "7"
    } else if d == 8 {
        "8"
    } else {
        "9"
    };
    assert(s@ =~= seq![digit_char(d as nat)]);
    s
}

/// Appends the decimal form of `n` to `out`.
pub fn push_decimal(out: &mut String, n: u128)
    ensures
        final(out)@ == old(out)@ + decimal(n as nat),
    decreases n,
{
    if n >= 10 {
        push_decimal(out, n / 10);
    }
    out.append(digit_str(n % 10));
    proof {
        if n >= 10 {
            assert(final(out)@ =~= old(out)@ + decimal(n as nat));
        } else {
            assert(final(out)@ =~= old(out)@ + decimal(n as nat));
        }
    }
}

/// Appends the decimal form of a signed number to `out`.
pub fn push_signed_decimal(out: &mut String, n: i64)
    ensures
        final(out)@ == old(out)@ + signed_decimal(n as int),
{
    if n < 0 {
        proof {
            reveal_strlit("-");
        }
        out.append("-");
        let m: u128 = if n == i64::MIN {
            9223372036854775808u128
        } else {
            (-n) as u128
        };
        push_decimal(out, m);
        assert(final(out)@ =~= old(out)@ + signed_decimal(n as int));
    } else {
        push_decimal(out, n as u128);
    }
}

/// The decimal form of a signed number.
pub fn render_number(n: i64) -> (s: String)
    ensures
        s@ == signed_decimal(n as int),
{
    let mut s = String::new();
    push_signed_decimal(&mut s, n);
    assert(s@ =~= signed_decimal(n as int));
    s
}

/// The decimal form of an unsigned size.
pub fn render_size(n: usize) -> (s: String)
    ensures
        s@ == decimal(n as nat),
{
    let mut s = String::new();
    push_decimal(&mut s, n as u128);
    assert(s@ =~= decimal(n as nat));
    s
}

} // verus!
