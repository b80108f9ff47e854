//! The writer: renders a database, an entry or a value as BibTeX text.
//!
//! The text is built in a `String`; writing it to a file or a socket is left
//! to the caller.

use vstd::prelude::*;
use vstd::std_specs::iter::IteratorSpec;
use vstd::string::*;
use vstd::utf8::encode_utf8;
use crate::database::{entry_views, Database, DatabaseModel};
use crate::error::{spaces, Error};
use crate::model::{
    field_views, kind_name, lemma_concat_view, text_ref, value_views, Entry, EntryModel, Field,
    FieldModel, Value, ValueModel,
};
use crate::table::{lists_table, pair_views, table_pairs};
use crate::text::{byte_len, push_char, push_signed_decimal, signed_decimal};

verus! {

/// Configuration for writing BibTeX.
#[derive(Debug)]
pub struct WriterConfig {
    /// Indentation string (default: two spaces)
    pub indent: String,
    /// Whether to align field values (default: false)
    pub align_values: bool,
    /// Maximum line length for wrapping (default: 80)
    pub max_line_length: usize,
    /// Whether to sort entries by key (default: false)
    pub sort_entries: bool,
    /// Whether to sort fields within entries (default: false)
    pub sort_fields: bool,
}

impl Default for WriterConfig {
    fn default() -> (r: Self)
        ensures
            r.indent@ == seq![' ', ' '],
            !r.align_values,
            r.max_line_length == 80,
            !r.sort_entries,
            !r.sort_fields,
    {
        proof {
            reveal_strlit("  ");
        }
        let indent = "  ".to_owned();
        assert(indent@ =~= seq![' ', ' ']);
        WriterConfig {
            indent,
            align_values: false,
            max_line_length: 80,
            sort_entries: false,
            sort_fields: false,
        }
    }
}

impl Clone for WriterConfig {
    fn clone(&self) -> (r: Self)
        ensures
            r == *self,
    {
        WriterConfig {
            indent: self.indent.clone(),
            align_values: self.align_values,
            max_line_length: self.max_line_length,
            sort_entries: self.sort_entries,
            sort_fields: self.sort_fields,
        }
    }
}

/// BibTeX writer: a text under construction and the configuration it is written with.
#[derive(Debug)]
pub struct Writer {
    pub writer: String,
    pub config: WriterConfig,
}

/// Does a literal have to be written in quotes rather than braces?
pub open spec fn special(c: char) -> bool {
    c == '{' || c == '}' || c == ',' || c == '='
}

/// Does the first `n` characters of `s` hold a brace, a comma or an equals sign?
pub open spec fn has_special(s: Seq<char>, n: nat) -> bool
    decreases n,
{
    n > 0 && n <= s.len() && (has_special(s, (n - 1) as nat) || special(s[n - 1]))
}

/// The first `n` characters of `s` with a backslash put before every quote.
pub open spec fn escaped(s: Seq<char>, n: nat) -> Seq<char>
    decreases n,
{
    if n == 0 || n > s.len() {
        Seq::empty()
    } else if s[n - 1] == '"' {
        escaped(s, (n - 1) as nat) + seq!['\\', '"']
    } else {
        escaped(s, (n - 1) as nat).push(s[n - 1])
    }
}

/// A value as it is written: a literal in braces, or in quotes when it holds
/// a brace, a comma or an equals sign; a number in decimal; a variable by its
/// name; a concatenation as its parts joined by ` # `.
pub open spec fn written_value(v: ValueModel) -> Seq<char>
    decreases v, 0nat,
{
    match v {
        ValueModel::Literal(text) => if has_special(text, text.len()) {
            seq!['"'] + escaped(text, text.len()) + seq!['"']
        } else {
            seq!['{'] + text + seq!['}']
        },
        ValueModel::Number(n) => signed_decimal(n),
        ValueModel::Variable(name) => name,
        ValueModel::Concat(parts) => written_parts(parts, parts.len()),
    }
}

/// The first `n` parts of a concatenation as they are written.
pub open spec fn written_parts(parts: Seq<ValueModel>, n: nat) -> Seq<char>
    decreases parts, n,
{
    if n == 0 || n > parts.len() {
        Seq::empty()
    } else if n == 1 {
        written_value(parts[0])
    } else {
        written_parts(parts, (n - 1) as nat) + seq![' ', '#', ' '] + written_value(parts[n - 1])
    }
}

/// Is `a` before or equal to `b` in the order of `str`: byte by byte, a prefix first?
pub open spec fn lex_le(a: Seq<u8>, b: Seq<u8>) -> bool
    decreases a.len(),
{
    a.len() == 0 || (b.len() > 0 && (a[0] < b[0] || (a[0] == b[0] && lex_le(
        a.drop_first(),
        b.drop_first(),
    ))))
}

/// The list `sorted` with the position `x` put after every position whose key is not greater.
pub open spec fn placed(keys: Seq<Seq<u8>>, sorted: Seq<int>, x: int) -> Seq<int>
    decreases sorted.len(),
{
    if sorted.len() == 0 {
        seq![x]
    } else if lex_le(keys[sorted.last()], keys[x]) {
        sorted.push(x)
    } else {
        placed(keys, sorted.drop_last(), x).push(sorted.last())
    }
}

/// The first `n` positions of `keys`, ordered by key; positions with equal
/// keys stay in their order.
pub open spec fn sorted_order(keys: Seq<Seq<u8>>, n: nat) -> Seq<int>
    decreases n,
{
    if n == 0 || n > keys.len() {
        Seq::empty()
    } else {
        placed(keys, sorted_order(keys, (n - 1) as nat), n - 1)
    }
}

/// The first `n` positions as they are.
pub open spec fn plain_order(n: nat) -> Seq<int> {
    Seq::new(n, |i: int| i)
}

/// The order in which `n` things with the keys `keys` are written.
pub open spec fn write_order(keys: Seq<Seq<u8>>, sort: bool) -> Seq<int> {
    if sort {
        sorted_order(keys, keys.len())
    } else {
        plain_order(keys.len())
    }
}

/// The names of the fields, as bytes.
pub open spec fn field_keys(fields: Seq<FieldModel>) -> Seq<Seq<u8>> {
    Seq::new(fields.len(), |i: int| encode_utf8(fields[i].name))
}

/// The keys of the entries, as bytes.
pub open spec fn entry_keys(entries: Seq<EntryModel>) -> Seq<Seq<u8>> {
    Seq::new(entries.len(), |i: int| encode_utf8(entries[i].key))
}

/// The names of the macros, as bytes.
pub open spec fn pair_keys(pairs: Seq<(Seq<char>, ValueModel)>) -> Seq<Seq<u8>> {
    Seq::new(pairs.len(), |i: int| encode_utf8(pairs[i].0))
}

/// The length in bytes of the longest name among the first `n` fields.
pub open spec fn longest_name(fields: Seq<FieldModel>, n: nat) -> nat
    decreases n,
{
    if n == 0 || n > fields.len() {
        0
    } else {
        let before = longest_name(fields, (n - 1) as nat);
        let here = encode_utf8(fields[n - 1].name).len();
        if here > before {
            here
        } else {
            before
        }
    }
}

/// The width to which names are padded.
pub open spec fn name_width(fields: Seq<FieldModel>, align: bool) -> nat {
    if align {
        longest_name(fields, fields.len())
    } else {
        0
    }
}

/// One field as it is written: indentation, name, padding, ` = `, the value,
/// a comma unless it is the last, and a line break.
pub open spec fn written_field(
    f: FieldModel,
    indent: Seq<char>,
    align: bool,
    width: nat,
    last: bool,
) -> Seq<char> {
    indent + f.name + (if align {
        spaces((width - encode_utf8(f.name).len()) as nat)
    } else {
        Seq::empty()
    }) + seq![' ', '=', ' '] + written_value(f.value) + (if last {
        seq!['\n']
    } else {
        seq![',', '\n']
    })
}

/// The first `n` fields of the order `order` as they are written.
pub open spec fn written_fields(
    fields: Seq<FieldModel>,
    order: Seq<int>,
    n: nat,
    indent: Seq<char>,
    align: bool,
    width: nat,
) -> Seq<char>
    decreases n,
{
    if n == 0 || n > order.len() {
        Seq::empty()
    } else {
        written_fields(fields, order, (n - 1) as nat, indent, align, width) + written_field(
            fields[order[n - 1]],
            indent,
            align,
            width,
            n == order.len(),
        )
    }
}

/// An entry as it is written with the given settings.
pub open spec fn written_entry(e: EntryModel, indent: Seq<char>, align: bool, sort: bool) -> Seq<
    char,
> {
    let order = write_order(field_keys(e.fields), sort);
    seq!['@'] + kind_name(e.ty) + seq!['{'] + e.key + seq![',', '\n'] + written_fields(
        e.fields,
        order,
        order.len(),
        indent,
        align,
        name_width(e.fields, align),
    ) + seq!['}', '\n']
}

/// A string macro as it is written.
pub open spec fn written_string(name: Seq<char>, value: ValueModel) -> Seq<char> {
    "@string{"@ + name + seq![' ', '=', ' '] + written_value(value) + seq!['}', '\n']
}

/// A preamble as it is written.
pub open spec fn written_preamble(value: ValueModel) -> Seq<char> {
    "@preamble{"@ + written_value(value) + seq!['}', '\n']
}

/// The first `n` preambles as they are written, an empty line after each.
pub open spec fn written_preambles(preambles: Seq<ValueModel>, n: nat) -> Seq<char>
    decreases n,
{
    if n == 0 || n > preambles.len() {
        Seq::empty()
    } else {
        written_preambles(preambles, (n - 1) as nat) + written_preamble(preambles[n - 1]) + seq![
            '\n',
        ]
    }
}

/// The first `n` macros of the order `order` as they are written, an empty line after each.
pub open spec fn written_strings(pairs: Seq<(Seq<char>, ValueModel)>, order: Seq<int>, n: nat)
    -> Seq<char>
    decreases n,
{
    if n == 0 || n > order.len() {
        Seq::empty()
    } else {
        written_strings(pairs, order, (n - 1) as nat) + written_string(
            pairs[order[n - 1]].0,
            pairs[order[n - 1]].1,
        ) + seq!['\n']
    }
}

/// The first `n` entries of the order `order` as they are written, an empty line between them.
pub open spec fn written_entries(
    entries: Seq<EntryModel>,
    order: Seq<int>,
    n: nat,
    indent: Seq<char>,
    align: bool,
    sort_fields: bool,
) -> Seq<char>
    decreases n,
{
    if n == 0 || n > order.len() {
        Seq::empty()
    } else {
        written_entries(entries, order, (n - 1) as nat, indent, align, sort_fields) + (if n > 1 {
            seq!['\n']
        } else {
            Seq::empty()
        }) + written_entry(entries[order[n - 1]], indent, align, sort_fields)
    }
}

/// A database as it is written, its macros being listed as `pairs`:
/// preambles, then macros, then entries.
pub open spec fn written_database(
    db: DatabaseModel,
    pairs: Seq<(Seq<char>, ValueModel)>,
    indent: Seq<char>,
    align: bool,
    sort_entries: bool,
    sort_fields: bool,
) -> Seq<char> {
    written_preambles(db.preambles, db.preambles.len()) + written_table(pairs, sort_entries)
        + written_all(db.entries, indent, align, sort_entries, sort_fields)
}

/// The view of an order held as `usize` positions.
pub open spec fn order_view(order: Seq<usize>) -> Seq<int> {
    Seq::new(order.len(), |i: int| order[i] as int)
}

/// The byte views of a list of keys.
pub open spec fn key_views(keys: Seq<&str>) -> Seq<Seq<u8>> {
    Seq::new(keys.len(), |i: int| keys[i].spec_bytes())
}

/// Does `order` hold only positions below `n`?
pub open spec fn below(order: Seq<int>, n: int) -> bool {
    forall|k: int| 0 <= k < order.len() ==> 0 <= #[trigger] order[k] < n
}

/// Do the keys at the positions of `order` ascend?
pub open spec fn ascending(keys: Seq<Seq<u8>>, order: Seq<int>) -> bool {
    forall|i: int, j: int|
        0 <= i < j < order.len() ==> lex_le(keys[#[trigger] order[i]], keys[#[trigger] order[j]])
}

/// Do positions with equal keys keep their first order in `order`?
pub open spec fn stable(keys: Seq<Seq<u8>>, order: Seq<int>) -> bool {
    forall|i: int, j: int|
        0 <= i < j < order.len() && lex_le(keys[#[trigger] order[j]], keys[#[trigger] order[i]])
            ==> order[i] < order[j]
}

/// Of two keys, one is before or equal to the other.
pub proof fn lemma_lex_total(a: Seq<u8>, b: Seq<u8>)
    ensures
        lex_le(a, b) || lex_le(b, a),
    decreases a.len(),
{
    if a.len() > 0 && b.len() > 0 && a[0] == b[0] {
        lemma_lex_total(a.drop_first(), b.drop_first());
    }
}

/// The order of keys is transitive.
pub proof fn lemma_lex_transitive(a: Seq<u8>, b: Seq<u8>, c: Seq<u8>)
    requires
        lex_le(a, b),
        lex_le(b, c),
    ensures
        lex_le(a, c),
    decreases a.len(),
{
    if a.len() > 0 && a[0] == b[0] && b[0] == c[0] {
        lemma_lex_transitive(a.drop_first(), b.drop_first(), c.drop_first());
    }
}

/// Placing a new position into an order that is ascending and stable keeps
/// it so, and keeps every position that it held.
proof fn lemma_placed(keys: Seq<Seq<u8>>, sorted: Seq<int>, x: int)
    requires
        below(sorted, x),
        0 <= x < keys.len(),
        ascending(keys, sorted),
        stable(keys, sorted),
    ensures
        placed(keys, sorted, x).len() == sorted.len() + 1,
        below(placed(keys, sorted, x), x + 1),
        ascending(keys, placed(keys, sorted, x)),
        stable(keys, placed(keys, sorted, x)),
        placed(keys, sorted, x).contains(x),
        forall|k: int| 0 <= k < sorted.len() ==> placed(keys, sorted, x).contains(#[trigger] sorted[k]),
        forall|k: int|
            0 <= k < placed(keys, sorted, x).len() ==> (#[trigger] placed(keys, sorted, x)[k]) == x
                || lex_le(keys[x], keys[placed(keys, sorted, x)[k]]) || exists|m: int|
                0 <= m < sorted.len() && sorted[m] == placed(keys, sorted, x)[k] && lex_le(
                    keys[sorted[m]],
                    keys[x],
                ),
    decreases sorted.len(),
{
    let out = placed(keys, sorted, x);
    if sorted.len() == 0 {
        assert(out[0] == x);
    } else if lex_le(keys[sorted.last()], keys[x]) {
        assert(out[sorted.len() as int] == x);
        assert forall|i: int, j: int| 0 <= i < j < out.len() implies lex_le(
            keys[#[trigger] out[i]],
            keys[#[trigger] out[j]],
        ) by {
            if j == sorted.len() {
                assert(out[i] == sorted[i]);
                if i < sorted.len() - 1 {
                    assert(lex_le(keys[sorted[i]], keys[sorted[sorted.len() - 1]]));
                    lemma_lex_transitive(keys[sorted[i]], keys[sorted.last()], keys[x]);
                }
            } else {
                assert(out[i] == sorted[i] && out[j] == sorted[j]);
            }
        }
        assert forall|i: int, j: int|
            0 <= i < j < out.len() && lex_le(
                keys[#[trigger] out[j]],
                keys[#[trigger] out[i]],
            ) implies out[i] < out[j] by {
            if j == sorted.len() {
                assert(out[i] == sorted[i]);
            } else {
                assert(out[i] == sorted[i] && out[j] == sorted[j]);
            }
        }
        assert forall|k: int| 0 <= k < sorted.len() implies out.contains(#[trigger] sorted[k]) by {
            assert(out[k] == sorted[k]);
        }
        assert forall|k: int| 0 <= k < out.len() implies (#[trigger] out[k]) == x || lex_le(
            keys[x],
            keys[out[k]],
        ) || exists|m: int|
            0 <= m < sorted.len() && sorted[m] == out[k] && lex_le(keys[sorted[m]], keys[x]) by {
            if k < sorted.len() {
                assert(out[k] == sorted[k]);
                if k < sorted.len() - 1 {
                    assert(lex_le(keys[sorted[k]], keys[sorted[sorted.len() - 1]]));
                    lemma_lex_transitive(keys[sorted[k]], keys[sorted.last()], keys[x]);
                }
                assert(sorted[k] == out[k] && lex_le(keys[sorted[k]], keys[x]));
            }
        }
    } else {
        let head = sorted.drop_last();
        let last = sorted.last();
        assert forall|k: int| 0 <= k < head.len() implies 0 <= #[trigger] head[k] < x by {
            assert(head[k] == sorted[k]);
        }
        assert forall|i: int, j: int| 0 <= i < j < head.len() implies lex_le(
            keys[#[trigger] head[i]],
            keys[#[trigger] head[j]],
        ) by {
            assert(head[i] == sorted[i] && head[j] == sorted[j]);
        }
        assert forall|i: int, j: int|
            0 <= i < j < head.len() && lex_le(
                keys[#[trigger] head[j]],
                keys[#[trigger] head[i]],
            ) implies head[i] < head[j] by {
            assert(head[i] == sorted[i] && head[j] == sorted[j]);
        }
        lemma_placed(keys, head, x);
        let inner = placed(keys, head, x);
        assert(out == inner.push(last));
        lemma_lex_total(keys[last], keys[x]);
        assert(lex_le(keys[x], keys[last]));
        assert forall|i: int, j: int| 0 <= i < j < out.len() implies lex_le(
            keys[#[trigger] out[i]],
            keys[#[trigger] out[j]],
        ) by {
            if j == inner.len() {
                assert(out[i] == inner[i]);
                if inner[i] == x {
                } else if lex_le(keys[x], keys[inner[i]]) && !(exists|m: int|
                    0 <= m < head.len() && head[m] == inner[i] && lex_le(keys[head[m]], keys[x])) {
                    // An element that was moved behind `x` comes from `head`.
                    lemma_from_head(keys, head, x, i);
                    let m = choose|m: int| 0 <= m < head.len() && head[m] == inner[i];
                    assert(head[m] == sorted[m]);
                    assert(lex_le(keys[sorted[m]], keys[sorted[sorted.len() - 1]]));
                } else {
                    let m = choose|m: int|
                        0 <= m < head.len() && head[m] == inner[i] && lex_le(
                            keys[head[m]],
                            keys[x],
                        );
                    assert(head[m] == sorted[m]);
                    assert(lex_le(keys[sorted[m]], keys[sorted[sorted.len() - 1]]));
                }
            } else {
                assert(out[i] == inner[i] && out[j] == inner[j]);
            }
        }
        assert forall|i: int, j: int|
            0 <= i < j < out.len() && lex_le(
                keys[#[trigger] out[j]],
                keys[#[trigger] out[i]],
            ) implies out[i] < out[j] by {
            if j == inner.len() {
                assert(out[i] == inner[i]);
                if inner[i] == x {
                    // `last` is strictly behind `x`, so it is not before or equal to it.
                } else {
                    lemma_from_head(keys, head, x, i);
                    let m = choose|m: int| 0 <= m < head.len() && head[m] == inner[i];
                    assert(head[m] == sorted[m]);
                    assert(sorted[sorted.len() - 1] == last);
                }
            } else {
                assert(out[i] == inner[i] && out[j] == inner[j]);
            }
        }
        assert(out[inner.len() as int] == last);
        assert forall|k: int| 0 <= k < sorted.len() implies out.contains(#[trigger] sorted[k]) by {
            if k < head.len() {
                assert(head[k] == sorted[k]);
                assert(inner.contains(head[k]));
                let at = choose|at: int| 0 <= at < inner.len() && inner[at] == head[k];
                assert(out[at] == sorted[k]);
            }
        }
        assert(out.contains(x)) by {
            let at = choose|at: int| 0 <= at < inner.len() && inner[at] == x;
            assert(out[at] == x);
        }
        assert forall|k: int| 0 <= k < out.len() implies (#[trigger] out[k]) == x || lex_le(
            keys[x],
            keys[out[k]],
        ) || exists|m: int|
            0 <= m < sorted.len() && sorted[m] == out[k] && lex_le(keys[sorted[m]], keys[x]) by {
            if k < inner.len() {
                assert(out[k] == inner[k]);
                if inner[k] != x && !lex_le(keys[x], keys[inner[k]]) {
                    let m = choose|m: int|
                        0 <= m < head.len() && head[m] == inner[k] && lex_le(
                            keys[head[m]],
                            keys[x],
                        );
                    assert(sorted[m] == head[m]);
                }
            }
        }
        assert forall|k: int| 0 <= k < out.len() implies 0 <= #[trigger] out[k] < x + 1 by {
            if k < inner.len() {
                assert(out[k] == inner[k]);
            }
        }
    }
}

/// Every element of `placed(keys, head, x)` but `x` itself is an element of `head`.
proof fn lemma_from_head(keys: Seq<Seq<u8>>, head: Seq<int>, x: int, i: int)
    requires
        0 <= i < placed(keys, head, x).len(),
        placed(keys, head, x)[i] != x,
    ensures
        exists|m: int| 0 <= m < head.len() && head[m] == placed(keys, head, x)[i],
    decreases head.len(),
{
    if head.len() == 0 {
    } else if lex_le(keys[head.last()], keys[x]) {
        assert(head[i] == placed(keys, head, x)[i]);
    } else {
        let inner = placed(keys, head.drop_last(), x);
        if i < inner.len() {
            lemma_from_head(keys, head.drop_last(), x, i);
            let m = choose|m: int| 0 <= m < head.drop_last().len() && head.drop_last()[m] == inner[i];
            assert(head[m] == inner[i]);
        } else {
            assert(head[head.len() - 1] == placed(keys, head, x)[i]);
        }
    }
}

/// What sorting means: the order in which sorted things are written holds
/// every position exactly as often as there are positions, its keys ascend
/// in the order of `str`, and things with equal keys keep their first order.
pub proof fn law_sorted_order(keys: Seq<Seq<u8>>, n: nat)
    requires
        n <= keys.len(),
    ensures
        sorted_order(keys, n).len() == n,
        below(sorted_order(keys, n), n as int),
        forall|k: int| 0 <= k < n ==> sorted_order(keys, n).contains(k),
        ascending(keys, sorted_order(keys, n)),
        stable(keys, sorted_order(keys, n)),
    decreases n,
{
    if n > 0 {
        let before = sorted_order(keys, (n - 1) as nat);
        law_sorted_order(keys, (n - 1) as nat);
        lemma_placed(keys, before, n - 1);
        let out = sorted_order(keys, n);
        assert forall|k: int| 0 <= k < n implies out.contains(k) by {
            if k < n - 1 {
                assert(before.contains(k));
                let at = choose|at: int| 0 <= at < before.len() && before[at] == k;
                assert(out.contains(before[at]));
            }
        }
    }
}

/// Compares two texts in the order of `str`.
pub fn text_le(a: &str, b: &str) -> (r: bool)
    ensures
        r == lex_le(a.spec_bytes(), b.spec_bytes()),
{
    let x = a.as_bytes();
    let y = b.as_bytes();
    let mut i: usize = 0;
    assert(x@.subrange(0, x@.len() as int) =~= x@);
    assert(y@.subrange(0, y@.len() as int) =~= y@);
    while i < x.len()
        invariant
            i <= x.len(),
            i <= y.len(),
            x@ == a.spec_bytes(),
            y@ == b.spec_bytes(),
            lex_le(x@, y@) == lex_le(x@.subrange(i as int, x@.len() as int), y@.subrange(
                i as int,
                y@.len() as int,
            )),
        decreases x.len() - i,
    {
        let ghost xs = x@.subrange(i as int, x@.len() as int);
        let ghost ys = y@.subrange(i as int, y@.len() as int);
        if i >= y.len() {
            return false;
        }
        assert(xs[0] == x@[i as int] && ys[0] == y@[i as int]);
        if x[i] < y[i] {
            return true;
        }
        if x[i] > y[i] {
            return false;
        }
        assert(xs.drop_first() =~= x@.subrange(i + 1, x@.len() as int));
        assert(ys.drop_first() =~= y@.subrange(i + 1, y@.len() as int));
        i += 1;
    }
    true
}

/// The order in which things with the keys `keys` are written: sorted by key
/// when `sort` is set, with equal keys in their first order; else as they come.
pub fn order_by(keys: &Vec<&str>, sort: bool) -> (order: Vec<usize>)
    ensures
        order_view(order@) == write_order(key_views(keys@), sort),
        order@.len() == keys@.len(),
        forall|k: int| 0 <= k < order@.len() ==> (#[trigger] order@[k]) < keys@.len(),
{
    let ghost kv = key_views(keys@);
    let mut order: Vec<usize> = Vec::new();
    let mut n: usize = 0;
    assert(order_view(order@) =~= Seq::<int>::empty());
    while n < keys.len()
        invariant
            n <= keys.len(),
            kv == key_views(keys@),
            order@.len() == n,
            forall|k: int| 0 <= k < order@.len() ==> (#[trigger] order@[k]) < keys@.len(),
            sort ==> order_view(order@) == sorted_order(kv, n as nat),
            !sort ==> order_view(order@) == plain_order(n as nat),
        decreases keys.len() - n,
    {
        if sort {
            let ghost done = order_view(order@);
            let mut at: usize = order.len();
            let ghost mut moved: Seq<int> = Seq::empty();
            proof {
                assert(done.subrange(0, at as int) =~= done);
                assert(moved =~= done.subrange(at as int, done.len() as int));
                assert(placed(kv, done, n as int) + moved =~= placed(kv, done, n as int));
            }
            while at > 0 && !text_le(keys[order[at - 1]], keys[n])
                invariant
                    at <= order@.len(),
                    n < keys.len(),
                    kv == key_views(keys@),
                    done == order_view(order@),
                    forall|k: int| 0 <= k < order@.len() ==> (#[trigger] order@[k]) < keys@.len(),
                    moved == done.subrange(at as int, done.len() as int),
                    placed(kv, done, n as int) == placed(kv, done.subrange(0, at as int), n as int)
                        + moved,
                decreases at,
            {
                proof {
                    let head = done.subrange(0, at as int);
                    assert(head.last() == order@[at - 1]);
                    assert(kv[head.last()] == keys@[order@[at - 1] as int].spec_bytes());
                    assert(kv[n as int] == keys@[n as int].spec_bytes());
                    assert(head.drop_last() =~= done.subrange(0, at - 1));
                    assert(placed(kv, head, n as int) == placed(kv, head.drop_last(), n as int).push(
                        head.last(),
                    ));
                    assert(done.subrange(at - 1, done.len() as int) =~= seq![head.last()] + moved);
                    assert(placed(kv, head.drop_last(), n as int).push(head.last()) + moved
                        =~= placed(kv, head.drop_last(), n as int) + (seq![head.last()] + moved));
                    moved = done.subrange(at - 1, done.len() as int);
                }
                at -= 1;
            }
            proof {
                let head = done.subrange(0, at as int);
                if at > 0 {
                    assert(head.last() == order@[at - 1]);
                    assert(kv[head.last()] == keys@[order@[at - 1] as int].spec_bytes());
                    assert(kv[n as int] == keys@[n as int].spec_bytes());
                }
                assert(placed(kv, head, n as int) == head.push(n as int));
            }
            order.insert(at, n);
            proof {
                assert(order_view(order@) =~= done.subrange(0, at as int).push(n as int) + moved);
            }
        } else {
            let ghost done = order_view(order@);
            order.push(n);
            proof {
                assert(order_view(order@) =~= done.push(n as int));
                assert(done.push(n as int) =~= plain_order((n + 1) as nat));
            }
        }
        n += 1;
    }
    order
}

/// Check if a string needs quoting: does it hold a brace, a comma or an equals sign?
pub fn needs_quoting(s: &str) -> (r: bool)
    ensures
        r == has_special(s@, s@.len()),
{
    let mut it = s.chars();
    let ghost mut n: nat = 0;
    let mut found = false;
    loop
        invariant
            n <= s@.len(),
            it.remaining() == s@.subrange(n as int, s@.len() as int),
            found == has_special(s@, n),
            it.obeys_prophetic_iter_laws(),
            it.decrease() is Some,
        decreases it.decrease()->0,
    {
        broadcast use {vstd::string::axiom_spec_iter, vstd::string::next_postcondition};

        match it.next() {
            Some(c) => {
                proof {
                    n = n + 1;
                }
                if c == '{' || c == '}' || c == ',' || c == '=' {
                    found = true;
                }
            },
            None => {
                return found;
            },
        }
    }
}

/// Escape quotes in a string: a backslash is put before every `"`.
pub fn escape_quotes(s: &str) -> (r: String)
    ensures
        r@ == escaped(s@, s@.len()),
{
    let mut out = String::new();
    let mut it = s.chars();
    let ghost mut n: nat = 0;
    loop
        invariant
            n <= s@.len(),
            it.remaining() == s@.subrange(n as int, s@.len() as int),
            out@ == escaped(s@, n),
            it.obeys_prophetic_iter_laws(),
            it.decrease() is Some,
        decreases it.decrease()->0,
    {
        broadcast use {vstd::string::axiom_spec_iter, vstd::string::next_postcondition};

        match it.next() {
            Some(c) => {
                proof {
                    n = n + 1;
                }
                if c == '"' {
                    proof {
                        reveal_strlit("\\\"");
                    }
                    out.append("\\\"");
                    assert(out@ =~= escaped(s@, n));
                } else {
                    push_char(&mut out, c);
                }
            },
            None => {
                return out;
            },
        }
    }
}


/// Appends a value as it is written.
pub fn push_value(out: &mut String, value: &Value<'_>)
    ensures
        final(out)@ == old(out)@ + written_value(value@),
    decreases value,
{
    match value {
        Value::Literal(text) => {
            let s = text_ref(text);
            if needs_quoting(s) {
                proof {
                    reveal_strlit("\"");
                }
                out.append("\"");
                let inner = escape_quotes(s);
                out.append(inner.as_str());
                out.append("\"");
                assert(final(out)@ =~= old(out)@ + written_value(value@));
            } else {
                proof {
                    reveal_strlit("{");
                    reveal_strlit("}");
                }
                out.append("{");
                out.append(s);
                out.append("}");
                assert(final(out)@ =~= old(out)@ + written_value(value@));
            }
        },
        Value::Number(n) => {
            push_signed_decimal(out, *n);
        },
        Value::Variable(name) => {
            out.append(text_ref(name));
        },
        Value::Concat(parts) => {
            proof {
                lemma_concat_view(*parts);
            }
            let ghost models = value_views(parts@);
            let mut i: usize = 0;
            assert(out@ + Seq::<char>::empty() =~= out@);
            while i < parts.len()
                invariant
                    i <= parts.len(),
                    models == value_views(parts@),
                    *value == Value::Concat(*parts),
                    out@ == old(out)@ + written_parts(models, i as nat),
                decreases parts.len() - i,
            {
                proof {
                    vstd::std_specs::vec::axiom_vec_index_decreases(**parts, i as int);
                    assert(decreases_to!(*value => value->Concat_0));
                    reveal_strlit(" # ");
                }
                if i > 0 {
                    out.append(" # ");
                }
                push_value(out, &parts[i]);
                proof {
                    assert(" # "@ =~= seq![' ', '#', ' ']);
                    assert(models[i as int] == parts@[i as int]@);
                    assert(out@ =~= old(out)@ + written_parts(models, (i + 1) as nat));
                }
                i += 1;
            }
        },
    }
}

/// Appends `n` spaces.
fn push_spaces(out: &mut String, n: usize)
    ensures
        final(out)@ == old(out)@ + spaces(n as nat),
{
    let mut i: usize = 0;
    assert(out@ + spaces(0) =~= out@);
    while i < n
        invariant
            i <= n,
            out@ == old(out)@ + spaces(i as nat),
        decreases n - i,
    {
        proof {
            reveal_strlit(" ");
        }
        out.append(" ");
        assert(out@ =~= old(out)@ + spaces((i + 1) as nat));
        i += 1;
    }
}

proof fn lemma_longest_name(fields: Seq<FieldModel>, n: nat, i: int)
    requires
        0 <= i < n <= fields.len(),
    ensures
        encode_utf8(fields[i].name).len() <= longest_name(fields, n),
    decreases n,
{
    if i < n - 1 {
        lemma_longest_name(fields, (n - 1) as nat, i);
    }
}

/// The length in bytes of the longest field name.
fn longest_field_name(fields: &[Field<'_>]) -> (r: usize)
    ensures
        r == longest_name(field_views(fields@), fields@.len()),
{
    let ghost models = field_views(fields@);
    let mut best: usize = 0;
    let mut i: usize = 0;
    while i < fields.len()
        invariant
            i <= fields.len(),
            models == field_views(fields@),
            best == longest_name(models, i as nat),
        decreases fields.len() - i,
    {
        let here = byte_len(text_ref(&fields[i].name));
        assert(models[i as int].name == fields@[i as int].name@);
        if here > best {
            best = here;
        }
        i += 1;
    }
    best
}

/// Appends an entry as it is written with the given settings.
pub fn push_entry(out: &mut String, entry: &Entry<'_>, config: &WriterConfig)
    ensures
        final(out)@ == old(out)@ + written_entry(
            entry@,
            config.indent@,
            config.align_values,
            config.sort_fields,
        ),
{
    let ghost models = field_views(entry.fields@);
    proof {
        reveal_strlit("@");
        reveal_strlit("{");
        reveal_strlit(",\n");
        reveal_strlit(" = ");
        reveal_strlit("\n");
        reveal_strlit("}\n");
    }
    out.append("@");
    let name = entry.ty.to_string();
    out.append(name.as_str());
    out.append("{");
    out.append(text_ref(&entry.key));
    out.append(",\n");
    let ghost head = out@;
    assert(head =~= old(out)@ + seq!['@'] + kind_name(entry@.ty) + seq!['{'] + entry@.key + seq![
        ',',
        '\n',
    ]);
    let mut keys: Vec<&str> = Vec::new();
    let mut k: usize = 0;
    while k < entry.fields.len()
        invariant
            k <= entry.fields.len(),
            keys@.len() == k,
            forall|j: int| 0 <= j < k ==> (#[trigger] keys@[j])@ == entry.fields@[j].name@,
        decreases entry.fields.len() - k,
    {
        keys.push(text_ref(&entry.fields[k].name));
        k += 1;
    }
    assert(key_views(keys@) =~= field_keys(models));
    let order = order_by(&keys, config.sort_fields);
    let width = if config.align_values {
        longest_field_name(entry.fields.as_slice())
    } else {
        0
    };
    let ghost ord = order_view(order@);
    let mut i: usize = 0;
    assert(out@ + Seq::<char>::empty() =~= out@);
    while i < order.len()
        invariant
            i <= order.len(),
            models == field_views(entry.fields@),
            ord == order_view(order@),
            order@.len() == entry.fields@.len(),
            forall|k: int| 0 <= k < order@.len() ==> (#[trigger] order@[k]) < entry.fields@.len(),
            width == name_width(models, config.align_values),
            out@ == head + written_fields(
                models,
                ord,
                i as nat,
                config.indent@,
                config.align_values,
                width as nat,
            ),
        decreases order.len() - i,
    {
        let at = order[i];
        let field = &entry.fields[at];
        let ghost before = out@;
        proof {
            assert(ord[i as int] == at);
            assert(models[at as int] == field@);
            if config.align_values {
                lemma_longest_name(models, models.len(), at as int);
            }
            reveal_strlit(" = ");
            reveal_strlit("\n");
            reveal_strlit(",\n");
        }
        out.append(config.indent.as_str());
        out.append(text_ref(&field.name));
        if config.align_values {
            push_spaces(out, width - byte_len(text_ref(&field.name)));
        }
        out.append(" = ");
        push_value(out, &field.value);
        if i + 1 < order.len() {
            out.append(",\n");
        } else {
            out.append("\n");
        }
        proof {
            assert(out@ =~= before + written_field(
                field@,
                config.indent@,
                config.align_values,
                width as nat,
                i + 1 == order@.len(),
            ));
            assert(out@ =~= head + written_fields(
                models,
                ord,
                (i + 1) as nat,
                config.indent@,
                config.align_values,
                width as nat,
            ));
        }
        i += 1;
    }
    out.append("}\n");
    assert(final(out)@ =~= old(out)@ + written_entry(
        entry@,
        config.indent@,
        config.align_values,
        config.sort_fields,
    ));
}

/// Appends a string macro as it is written.
pub fn push_string(out: &mut String, name: &str, value: &Value<'_>)
    ensures
        final(out)@ == old(out)@ + written_string(name@, value@),
{
    proof {
        reveal_strlit(" = ");
        reveal_strlit("}\n");
    }
    out.append("@string{");
    out.append(name);
    out.append(" = ");
    push_value(out, value);
    out.append("}\n");
    assert(final(out)@ =~= old(out)@ + written_string(name@, value@));
}

/// Appends a preamble as it is written.
pub fn push_preamble(out: &mut String, value: &Value<'_>)
    ensures
        final(out)@ == old(out)@ + written_preamble(value@),
{
    proof {
        reveal_strlit("}\n");
    }
    out.append("@preamble{");
    push_value(out, value);
    out.append("}\n");
    assert(final(out)@ =~= old(out)@ + written_preamble(value@));
}

/// Appends the preambles of a database as they are written.
fn push_preambles(out: &mut String, db: &Database<'_>)
    ensures
        final(out)@ == old(out)@ + written_preambles(db@.preambles, db@.preambles.len()),
{
    let ghost preambles = value_views(db.preambles@);
    let mut p: usize = 0;
    assert(out@ + Seq::<char>::empty() =~= out@);
    while p < db.preambles.len()
        invariant
            p <= db.preambles.len(),
            preambles == value_views(db.preambles@),
            out@ == old(out)@ + written_preambles(preambles, p as nat),
        decreases db.preambles.len() - p,
    {
        proof {
            reveal_strlit("\n");
            assert(preambles[p as int] == db.preambles@[p as int]@);
        }
        push_preamble(out, &db.preambles[p]);
        out.append("\n");
        assert(out@ =~= old(out)@ + written_preambles(preambles, (p + 1) as nat));
        p += 1;
    }
}

/// What the macros listed as `pairs` read like when written, sorted or not.
pub open spec fn written_table(pairs: Seq<(Seq<char>, ValueModel)>, sort: bool) -> Seq<char> {
    written_strings(
        pairs,
        write_order(pair_keys(pairs), sort),
        write_order(pair_keys(pairs), sort).len(),
    )
}

/// Appends the macros of a database as they are written, and tells in which
/// order the macro table listed them.
fn push_strings(out: &mut String, db: &Database<'_>, sort: bool) -> (listed: Ghost<
    Seq<(Seq<char>, ValueModel)>,
>)
    ensures
        lists_table(listed@, db@.strings),
        final(out)@ == old(out)@ + written_table(listed@, sort),
{
    let pairs = table_pairs(&db.strings);
    let ghost listed = pair_views(pairs@);
    let mut names: Vec<&str> = Vec::new();
    let mut k: usize = 0;
    while k < pairs.len()
        invariant
            k <= pairs.len(),
            names@.len() == k,
            forall|j: int| 0 <= j < k ==> (#[trigger] names@[j])@ == pairs@[j].0@,
        decreases pairs.len() - k,
    {
        let (name, _) = pairs[k];
        names.push(text_ref(name));
        k += 1;
    }
    assert(key_views(names@) =~= pair_keys(listed));
    let string_order = order_by(&names, sort);
    let ghost sord = order_view(string_order@);
    let mut s: usize = 0;
    assert(out@ + Seq::<char>::empty() =~= out@);
    while s < string_order.len()
        invariant
            s <= string_order.len(),
            listed == pair_views(pairs@),
            sord == order_view(string_order@),
            forall|k: int|
                0 <= k < string_order@.len() ==> (#[trigger] string_order@[k]) < pairs@.len(),
            out@ == old(out)@ + written_strings(listed, sord, s as nat),
        decreases string_order.len() - s,
    {
        let at = string_order[s];
        let (name, value) = pairs[at];
        proof {
            reveal_strlit("\n");
            assert(sord[s as int] == at);
            assert(listed[at as int] == (name@, value@));
        }
        push_string(out, text_ref(name), value);
        out.append("\n");
        assert(out@ =~= old(out)@ + written_strings(listed, sord, (s + 1) as nat));
        s += 1;
    }
    Ghost(listed)
}

/// What the entries read like when written with the given settings.
pub open spec fn written_all(
    entries: Seq<EntryModel>,
    indent: Seq<char>,
    align: bool,
    sort_entries: bool,
    sort_fields: bool,
) -> Seq<char> {
    written_entries(
        entries,
        write_order(entry_keys(entries), sort_entries),
        write_order(entry_keys(entries), sort_entries).len(),
        indent,
        align,
        sort_fields,
    )
}

/// Appends the entries of a database as they are written.
fn push_entries(out: &mut String, db: &Database<'_>, config: &WriterConfig)
    ensures
        final(out)@ == old(out)@ + written_all(
            db@.entries,
            config.indent@,
            config.align_values,
            config.sort_entries,
            config.sort_fields,
        ),
{
    let ghost entries = entry_views(db.entries@);
    let mut keys: Vec<&str> = Vec::new();
    let mut e: usize = 0;
    while e < db.entries.len()
        invariant
            e <= db.entries.len(),
            keys@.len() == e,
            forall|j: int| 0 <= j < e ==> (#[trigger] keys@[j])@ == db.entries@[j].key@,
        decreases db.entries.len() - e,
    {
        keys.push(text_ref(&db.entries[e].key));
        e += 1;
    }
    assert(key_views(keys@) =~= entry_keys(entries));
    let entry_order = order_by(&keys, config.sort_entries);
    let ghost eord = order_view(entry_order@);
    let mut i: usize = 0;
    assert(out@ + Seq::<char>::empty() =~= out@);
    while i < entry_order.len()
        invariant
            i <= entry_order.len(),
            entries == entry_views(db.entries@),
            eord == order_view(entry_order@),
            forall|k: int|
                0 <= k < entry_order@.len() ==> (#[trigger] entry_order@[k]) < db.entries@.len(),
            out@ == old(out)@ + written_entries(
                entries,
                eord,
                i as nat,
                config.indent@,
                config.align_values,
                config.sort_fields,
            ),
        decreases entry_order.len() - i,
    {
        let at = entry_order[i];
        proof {
            reveal_strlit("\n");
            assert(eord[i as int] == at);
            assert(entries[at as int] == db.entries@[at as int]@);
        }
        if i > 0 {
            out.append("\n");
        }
        push_entry(out, &db.entries[at], config);
        assert(out@ =~= old(out)@ + written_entries(
            entries,
            eord,
            (i + 1) as nat,
            config.indent@,
            config.align_values,
            config.sort_fields,
        ));
        i += 1;
    }
}

/// Appends a database as it is written with the given settings. The macros
/// are written in the order of their names when entries are sorted, else in
/// the order in which the macro table lists them, which is not specified.
pub fn push_database(out: &mut String, db: &Database<'_>, config: &WriterConfig)
    ensures
        exists|pairs: Seq<(Seq<char>, ValueModel)>|
            lists_table(pairs, db@.strings) && final(out)@ == old(out)@ + written_database(
                db@,
                pairs,
                config.indent@,
                config.align_values,
                config.sort_entries,
                config.sort_fields,
            ),
{
    push_preambles(out, db);
    let listed = push_strings(out, db, config.sort_entries);
    push_entries(out, db, config);
    proof {
        let a = written_preambles(db@.preambles, db@.preambles.len());
        let b = written_table(listed@, config.sort_entries);
        let c = written_all(
            db@.entries,
            config.indent@,
            config.align_values,
            config.sort_entries,
            config.sort_fields,
        );
        assert(old(out)@ + a + b + c =~= old(out)@ + (a + b + c));
        assert(lists_table(listed@, db@.strings) && out@ == old(out)@ + written_database(
            db@,
            listed@,
            config.indent@,
            config.align_values,
            config.sort_entries,
            config.sort_fields,
        ));
    }
}

impl Writer {
    /// Create a new writer with default configuration, which appends to `writer`.
    pub fn new(writer: String) -> (r: Self)
        ensures
            r.writer == writer,
            r.config.indent@ == seq![' ', ' '],
            !r.config.align_values,
            r.config.max_line_length == 80,
            !r.config.sort_entries,
            !r.config.sort_fields,
    {
        Writer { writer, config: WriterConfig::default() }
    }

    /// Create a new writer with custom configuration, which appends to `writer`.
    pub fn with_config(writer: String, config: WriterConfig) -> (r: Self)
        ensures
            r.writer == writer,
            r.config == config,
    {
        Writer { writer, config }
    }

    /// Write a complete database: preambles, macros, then entries.
    pub fn write_database(&mut self, db: &Database<'_>)
        ensures
            final(self).config == old(self).config,
            exists|pairs: Seq<(Seq<char>, ValueModel)>|
                lists_table(pairs, db@.strings) && final(self).writer@ == old(self).writer@
                    + written_database(
                    db@,
                    pairs,
                    old(self).config.indent@,
                    old(self).config.align_values,
                    old(self).config.sort_entries,
                    old(self).config.sort_fields,
                ),
    {
        push_database(&mut self.writer, db, &self.config);
    }

    /// Write a single entry.
    pub fn write_entry(&mut self, entry: &Entry<'_>)
        ensures
            final(self).config == old(self).config,
            final(self).writer@ == old(self).writer@ + written_entry(
                entry@,
                old(self).config.indent@,
                old(self).config.align_values,
                old(self).config.sort_fields,
            ),
    {
        push_entry(&mut self.writer, entry, &self.config);
    }

    /// Write a string definition.
    pub fn write_string(&mut self, name: &str, value: &Value<'_>)
        ensures
            final(self).config == old(self).config,
            final(self).writer@ == old(self).writer@ + written_string(name@, value@),
    {
        push_string(&mut self.writer, name, value);
    }

    /// Write a preamble.
    pub fn write_preamble(&mut self, value: &Value<'_>)
        ensures
            final(self).config == old(self).config,
            final(self).writer@ == old(self).writer@ + written_preamble(value@),
    {
        push_preamble(&mut self.writer, value);
    }

    /// Write a value.
    pub fn write_value(&mut self, value: &Value<'_>)
        ensures
            final(self).config == old(self).config,
            final(self).writer@ == old(self).writer@ + written_value(value@),
    {
        push_value(&mut self.writer, value);
    }

    /// Gives back the text written so far.
    pub fn finish(self) -> (r: String)
        ensures
            r == self.writer,
    {
        self.writer
    }
}

/// Convenience function to write a database to a string.
pub fn to_string(db: &Database<'_>) -> (r: std::result::Result<String, Error>)
    ensures
        r matches Ok(text) && exists|pairs: Seq<(Seq<char>, ValueModel)>|
            lists_table(pairs, db@.strings) && text@ == written_database(
                db@,
                pairs,
                seq![' ', ' '],
                false,
                false,
                false,
            ),
{
    let mut writer = Writer::new(String::new());
    writer.write_database(db);
    let text = writer.finish();
    proof {
        let pairs = choose|pairs: Seq<(Seq<char>, ValueModel)>|
            lists_table(pairs, db@.strings) && text@ == Seq::<char>::empty() + written_database(
                db@,
                pairs,
                seq![' ', ' '],
                false,
                false,
                false,
            );
        assert(text@ =~= written_database(db@, pairs, seq![' ', ' '], false, false, false));
    }
    Ok(text)
}

} // verus!
