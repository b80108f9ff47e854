//! The database: entries, string macros, preambles and comments, and the
//! two passes that build it from the items of a file.
//!
//! The first pass collects every string macro into the macro table. The
//! second resolves the value of every field and preamble against that
//! table, and keeps comments as they are.

use vstd::prelude::*;
use vstd::string::*;
use vstd::utf8::encode_utf8;
use ahash::AHashMap;
use std::borrow::Cow;
use crate::error::Error;
use crate::model::{
    copy_text, copy_value, detach_text, detach_value, entry_owned, field_views, flattened,
    kind_name, lemma_concat_view, same_text, text_ref, value_owned, value_views, Entry, EntryModel,
    Field, FieldModel, Value, ValueModel,
};
use crate::parser::entry::{entry_borrowed, field_borrowed};
use crate::parser::{
    is_parse_error, item_borrowed, item_views, items_at, parse_bibtex, ItemModel, ParsedItem,
};
use crate::resolve::{agrees, expand_with, resolve, simple, Resolved};
use crate::table::{
    counts_clone, counts_get, counts_insert, counts_new, counts_of, lists_table, pair_views,
    table_clone, table_extend, table_insert, table_len, table_new, table_of, table_pairs,
};
use crate::text::{eq_ignore_ascii_case, same_ignoring_ascii_case};

verus! {

/// The view of a [`Database`].
pub struct DatabaseModel {
    pub entries: Seq<EntryModel>,
    pub strings: Map<Seq<char>, ValueModel>,
    pub preambles: Seq<ValueModel>,
    pub comments: Seq<Seq<char>>,
}

/// A parsed BibTeX database.
#[derive(Debug)]
pub struct Database<'a> {
    /// Bibliography entries
    pub entries: Vec<Entry<'a>>,
    /// String definitions
    pub strings: AHashMap<Cow<'a, str>, Value<'a>>,
    /// Preambles
    pub preambles: Vec<Value<'a>>,
    /// Comments
    pub comments: Vec<Cow<'a, str>>,
}

/// The views of a run of entries.
pub open spec fn entry_views(entries: Seq<Entry<'_>>) -> Seq<EntryModel> {
    Seq::new(entries.len(), |i: int| entries[i]@)
}

/// The views of a run of texts.
pub open spec fn text_views(texts: Seq<Cow<'_, str>>) -> Seq<Seq<char>> {
    Seq::new(texts.len(), |i: int| texts[i]@)
}

impl<'a> View for Database<'a> {
    type V = DatabaseModel;

    open spec fn view(&self) -> DatabaseModel {
        DatabaseModel {
            entries: entry_views(self.entries@),
            strings: table_of(&self.strings),
            preambles: value_views(self.preambles@),
            comments: text_views(self.comments@),
        }
    }
}

/// The macro table after the first `n` items: each string macro is entered
/// under its name, a later one replacing an earlier one of the same name.
pub open spec fn macros_of(items: Seq<ItemModel>, n: nat) -> Map<Seq<char>, ValueModel>
    decreases n,
{
    if n == 0 || n > items.len() {
        Map::empty()
    } else {
        match items[n - 1] {
            ItemModel::String(name, value) => macros_of(items, (n - 1) as nat).insert(name, value),
            _ => macros_of(items, (n - 1) as nat),
        }
    }
}

/// The first `n` of `fields` with their values resolved, or the failure of
/// the first value that fails.
pub open spec fn resolve_fields(
    table: Map<Seq<char>, ValueModel>,
    fields: Seq<FieldModel>,
    n: nat,
    fuel: nat,
) -> std::result::Result<Seq<FieldModel>, Resolved>
    decreases n,
{
    if n == 0 || n > fields.len() {
        Ok(Seq::empty())
    } else {
        match resolve_fields(table, fields, (n - 1) as nat, fuel) {
            Ok(done) => match resolve(table, fields[n - 1].value, fuel) {
                Resolved::Value(r) => Ok(done.push(FieldModel { name: fields[n - 1].name, value: r })),
                failure => Err(failure),
            },
            Err(failure) => Err(failure),
        }
    }
}

/// The entry with the values of its fields resolved.
pub open spec fn resolve_entry(table: Map<Seq<char>, ValueModel>, entry: EntryModel, fuel: nat)
    -> std::result::Result<EntryModel, Resolved> {
    match resolve_fields(table, entry.fields, entry.fields.len(), fuel) {
        Ok(fields) => Ok(EntryModel { ty: entry.ty, key: entry.key, fields }),
        Err(failure) => Err(failure),
    }
}

/// The database after the second pass over the first `n` items: entries and
/// preambles resolved against `table`, comments as they are, each kind in
/// the order of the items. The first value that fails to resolve fails the
/// whole pass.
pub open spec fn second_pass(
    table: Map<Seq<char>, ValueModel>,
    items: Seq<ItemModel>,
    n: nat,
    fuel: nat,
) -> std::result::Result<DatabaseModel, Resolved>
    decreases n,
{
    if n == 0 || n > items.len() {
        Ok(
            DatabaseModel {
                entries: Seq::empty(),
                strings: table,
                preambles: Seq::empty(),
                comments: Seq::empty(),
            },
        )
    } else {
        match second_pass(table, items, (n - 1) as nat, fuel) {
            Ok(db) => match items[n - 1] {
                ItemModel::Entry(entry) => match resolve_entry(table, entry, fuel) {
                    Ok(done) => Ok(DatabaseModel { entries: db.entries.push(done), ..db }),
                    Err(failure) => Err(failure),
                },
                ItemModel::Preamble(value) => match resolve(table, value, fuel) {
                    Resolved::Value(done) => Ok(
                        DatabaseModel { preambles: db.preambles.push(done), ..db },
                    ),
                    failure => Err(failure),
                },
                ItemModel::Comment(text) => Ok(
                    DatabaseModel { comments: db.comments.push(text), ..db },
                ),
                ItemModel::String(_, _) => Ok(db),
            },
            Err(failure) => Err(failure),
        }
    }
}

/// The database that a list of items makes: the macro table of the first
/// pass, and what the second pass resolves against it, with as much fuel as
/// the table has macros.
pub open spec fn assemble(items: Seq<ItemModel>) -> std::result::Result<DatabaseModel, Resolved> {
    let table = macros_of(items, items.len());
    second_pass(table, items, items.len(), table.dom().len())
}

/// Does the error `e` report the failure `failure`?
pub open spec fn reports(e: Error, failure: Resolved) -> bool {
    match failure {
        Resolved::Value(_) => false,
        Resolved::Undefined(name) => e matches Error::UndefinedVariable(text) && text@ == name,
        Resolved::Circular(name) => e matches Error::CircularReference(text) && text@ == name,
    }
}

/// Does the result `r` hold the database, or report the failure, that `want` holds?
pub open spec fn built(
    r: std::result::Result<Database<'_>, Error>,
    want: std::result::Result<DatabaseModel, Resolved>,
) -> bool {
    match want {
        Ok(model) => r matches Ok(db) && db@ == model,
        Err(failure) => r matches Err(e) && reports(e, failure),
    }
}

/// The entries among the first `n` items, in order.
pub open spec fn source_entries<'a>(items: Seq<ParsedItem<'a>>, n: nat) -> Seq<Entry<'a>>
    decreases n,
{
    if n == 0 || n > items.len() {
        Seq::empty()
    } else {
        match items[n - 1] {
            ParsedItem::Entry(entry) => source_entries(items, (n - 1) as nat).push(entry),
            _ => source_entries(items, (n - 1) as nat),
        }
    }
}

/// Does `result` hold, for every field of `source` whose value is a literal
/// or a number, that very value, neither copied nor changed?
pub open spec fn passes_through(source: Entry<'_>, result: Entry<'_>) -> bool {
    &&& result.fields@.len() == source.fields@.len()
    &&& forall|j: int|
        0 <= j < source.fields@.len() && simple((#[trigger] source.fields@[j]).value@)
            ==> result.fields@[j].value == source.fields@[j].value
}

/// Do the entries `results` pass through the literals and numbers of `sources`?
pub open spec fn all_pass_through(sources: Seq<Entry<'_>>, results: Seq<Entry<'_>>) -> bool {
    &&& results.len() == sources.len()
    &&& forall|i: int| 0 <= i < sources.len() ==> passes_through(#[trigger] sources[i], results[i])
}

/// `Vec::shrink_to_fit` of std: gives back spare capacity; the elements stay as they are.
#[verifier::external_body]
fn shrink<T>(v: &mut Vec<T>)
    ensures
        final(v)@ == old(v)@,
{
    v.shrink_to_fit();
}

/// Resolves the values of the fields of an entry against `table`.
pub fn expand_entry<'a>(
    table: &AHashMap<Cow<'a, str>, Value<'a>>,
    entry: &Entry<'a>,
    fuel: usize,
) -> (r: std::result::Result<Entry<'a>, Error>)
    ensures
        match resolve_entry(table_of(table), entry@, fuel as nat) {
            Ok(model) => r matches Ok(done) && done@ == model && passes_through(*entry, done),
            Err(failure) => r matches Err(e) && reports(e, failure),
        },
{
    let ghost models = field_views(entry.fields@);
    let mut fields: Vec<Field<'a>> = Vec::new();
    let mut i: usize = 0;
    assert(field_views(fields@) =~= Seq::<FieldModel>::empty());
    while i < entry.fields.len()
        invariant
            i <= entry.fields.len(),
            models == field_views(entry.fields@),
            fields@.len() == i,
            resolve_fields(table_of(table), models, i as nat, fuel as nat) == Ok::<
                Seq<FieldModel>,
                Resolved,
            >(field_views(fields@)),
            forall|j: int|
                0 <= j < i && simple((#[trigger] entry.fields@[j]).value@) ==> fields@[j].value
                    == entry.fields@[j].value,
        decreases entry.fields.len() - i,
    {
        let field = &entry.fields[i];
        assert(models[i as int] == field@);
        match expand_with(table, &field.value, fuel) {
            Ok(value) => {
                let done = Field { name: copy_text(&field.name), value };
                proof {
                    assert(field_views(fields@.push(done)) =~= field_views(fields@).push(done@));
                }
                fields.push(done);
            },
            Err(e) => {
                proof {
                    assert(resolve_fields(table_of(table), models, (i + 1) as nat, fuel as nat)
                        is Err);
                    lemma_fields_failure(
                        table_of(table),
                        models,
                        (i + 1) as nat,
                        models.len(),
                        fuel as nat,
                    );
                }
                return Err(e);
            },
        }
        i += 1;
    }
    shrink(&mut fields);
    Ok(Entry { ty: entry.ty.clone(), key: copy_text(&entry.key), fields })
}

/// Once a field fails, the failure stands however many fields follow.
pub proof fn lemma_fields_failure(
    table: Map<Seq<char>, ValueModel>,
    fields: Seq<FieldModel>,
    n: nat,
    m: nat,
    fuel: nat,
)
    requires
        n <= m <= fields.len(),
        resolve_fields(table, fields, n, fuel) is Err,
    ensures
        resolve_fields(table, fields, m, fuel) == resolve_fields(table, fields, n, fuel),
    decreases m - n,
{
    if n < m {
        lemma_fields_failure(table, fields, n, (m - 1) as nat, fuel);
    }
}

/// Once an item fails, the failure stands however many items follow.
pub proof fn lemma_pass_failure(
    table: Map<Seq<char>, ValueModel>,
    items: Seq<ItemModel>,
    n: nat,
    m: nat,
    fuel: nat,
)
    requires
        n <= m <= items.len(),
        second_pass(table, items, n, fuel) is Err,
    ensures
        second_pass(table, items, m, fuel) == second_pass(table, items, n, fuel),
    decreases m - n,
{
    if n < m {
        lemma_pass_failure(table, items, n, (m - 1) as nat, fuel);
    }
}

impl<'a> Database<'a> {
    /// Create a new empty database.
    pub fn new() -> (r: Self)
        ensures
            r@ == (DatabaseModel {
                entries: Seq::empty(),
                strings: Map::empty(),
                preambles: Seq::empty(),
                comments: Seq::empty(),
            }),
    {
        let r = Database {
            entries: Vec::new(),
            strings: table_new(),
            preambles: Vec::new(),
            comments: Vec::new(),
        };
        assert(r@.entries =~= Seq::<EntryModel>::empty());
        assert(r@.preambles =~= Seq::<ValueModel>::empty());
        assert(r@.comments =~= Seq::<Seq<char>>::empty());
        r
    }

    /// Builds the database of a list of items, in two passes: the first
    /// collects the string macros, the second resolves entries and preambles
    /// against them. A value that is a literal or a number is kept as it is.
    pub fn from_items(items: Vec<ParsedItem<'a>>) -> (r: std::result::Result<Database<'a>, Error>)
        ensures
            built(r, assemble(item_views(items@))),
            r matches Ok(db) ==> all_pass_through(
                source_entries(items@, items@.len()),
                db.entries@,
            ),
    {
        let ghost models = item_views(items@);
        let mut strings = table_new();
        let mut i: usize = 0;
        while i < items.len()
            invariant
                i <= items.len(),
                models == item_views(items@),
                table_of(&strings) == macros_of(models, i as nat),
            decreases items.len() - i,
        {
            assert(models[i as int] == items@[i as int]@);
            match &items[i] {
                ParsedItem::String(name, value) => {
                    table_insert(&mut strings, Cow::Borrowed(*name), copy_value(value));
                },
                _ => {},
            }
            i += 1;
        }
        let fuel = table_len(&strings);
        let ghost table = table_of(&strings);
        let mut db = Database {
            entries: Vec::new(),
            strings,
            preambles: Vec::new(),
            comments: Vec::new(),
        };
        assert(db@.entries =~= Seq::<EntryModel>::empty());
        assert(db@.preambles =~= Seq::<ValueModel>::empty());
        assert(db@.comments =~= Seq::<Seq<char>>::empty());
        let mut k: usize = 0;
        while k < items.len()
            invariant
                k <= items.len(),
                models == item_views(items@),
                table == macros_of(models, models.len()),
                table == table_of(&db.strings),
                fuel == table.dom().len(),
                second_pass(table, models, k as nat, fuel as nat) == Ok::<DatabaseModel, Resolved>(
                    db@,
                ),
                all_pass_through(source_entries(items@, k as nat), db.entries@),
            decreases items.len() - k,
        {
            assert(models[k as int] == items@[k as int]@);
            let ghost before = db@;
            match &items[k] {
                ParsedItem::Entry(entry) => {
                    match expand_entry(&db.strings, entry, fuel) {
                        Ok(done) => {
                            proof {
                                assert(entry_views(db.entries@.push(done)) =~= before.entries.push(
                                    done@,
                                ));
                            }
                            db.entries.push(done);
                        },
                        Err(e) => {
                            proof {
                                assert(second_pass(table, models, (k + 1) as nat, fuel as nat)
                                    is Err);
                                lemma_pass_failure(
                                    table,
                                    models,
                                    (k + 1) as nat,
                                    models.len(),
                                    fuel as nat,
                                );
                            }
                            return Err(e);
                        },
                    }
                },
                ParsedItem::Preamble(value) => {
                    match expand_with(&db.strings, value, fuel) {
                        Ok(done) => {
                            proof {
                                assert(value_views(db.preambles@.push(done))
                                    =~= before.preambles.push(done@));
                            }
                            db.preambles.push(done);
                        },
                        Err(e) => {
                            proof {
                                assert(second_pass(table, models, (k + 1) as nat, fuel as nat)
                                    is Err);
                                lemma_pass_failure(
                                    table,
                                    models,
                                    (k + 1) as nat,
                                    models.len(),
                                    fuel as nat,
                                );
                            }
                            return Err(e);
                        },
                    }
                },
                ParsedItem::Comment(text) => {
                    proof {
                        assert(text_views(db.comments@.push(Cow::Borrowed(*text)))
                            =~= before.comments.push(text@));
                    }
                    db.comments.push(Cow::Borrowed(*text));
                },
                ParsedItem::String(_, _) => {},
            }
            k += 1;
        }
        shrink(&mut db.entries);
        shrink(&mut db.preambles);
        shrink(&mut db.comments);
        Ok(db)
    }
}

/// The views of the entries among the first `n` items, in order.
pub open spec fn entries_in(items: Seq<ItemModel>, n: nat) -> Seq<EntryModel>
    decreases n,
{
    if n == 0 || n > items.len() {
        Seq::empty()
    } else {
        match items[n - 1] {
            ItemModel::Entry(entry) => entries_in(items, (n - 1) as nat).push(entry),
            _ => entries_in(items, (n - 1) as nat),
        }
    }
}

/// Is every field of `entries` that was a literal in `raw` a literal that borrows its text?
pub open spec fn literals_borrowed(raw: Seq<EntryModel>, entries: Seq<Entry<'_>>) -> bool {
    &&& entries.len() == raw.len()
    &&& forall|i: int, j: int|
        0 <= i < raw.len() && 0 <= j < raw[i].fields.len() && (#[trigger] raw[i].fields[j]).value
            is Literal ==> 0 <= j < entries[i].fields@.len() && borrowed_literal(
            entries[i].fields@[j].value,
        )
}

/// Is `v` a literal whose text is borrowed?
pub open spec fn borrowed_literal(v: Value<'_>) -> bool {
    v matches Value::Literal(text) && text is Borrowed
}

/// What [`Database::parse`] owes for the text `b`: the database of its
/// items, or the failure of the first value that does not resolve, or the
/// place where the text stops being a sequence of items.
pub open spec fn parsed(r: std::result::Result<Database<'_>, Error>, b: Seq<u8>) -> bool {
    match items_at(b, 0) {
        Ok(items) => built(r, assemble(items)),
        Err(at) => r matches Err(e) && is_parse_error(e, b, at),
    }
}

/// The entries that are the source of a database line up with the entries of
/// the items' views, and borrow their texts when the items do.
pub proof fn lemma_sources(items: Seq<ParsedItem<'_>>, n: nat)
    requires
        n <= items.len(),
        forall|i: int| 0 <= i < items.len() ==> item_borrowed(#[trigger] items[i]),
    ensures
        entry_views(source_entries(items, n)) == entries_in(item_views(items), n),
        forall|i: int|
            0 <= i < source_entries(items, n).len() ==> entry_borrowed(
                #[trigger] source_entries(items, n)[i],
            ),
    decreases n,
{
    if n > 0 {
        lemma_sources(items, (n - 1) as nat);
        assert(item_views(items)[n - 1] == items[n - 1]@);
        assert(item_borrowed(items[n - 1]));
        assert(entry_views(source_entries(items, n)) =~= entries_in(item_views(items), n));
    } else {
        assert(entry_views(source_entries(items, n)) =~= entries_in(item_views(items), n));
    }
}

/// The first entry at or after `from` whose key is `key`.
pub open spec fn key_index(entries: Seq<EntryModel>, key: Seq<char>, from: int) -> Option<int>
    decreases entries.len() - from,
{
    if from < 0 || from >= entries.len() {
        None
    } else if entries[from].key == key {
        Some(from)
    } else {
        key_index(entries, key, from + 1)
    }
}

/// The positions among the first `n` at which `flags` is set, in ascending order.
pub open spec fn picked(flags: Seq<bool>, n: nat) -> Seq<int>
    decreases n,
{
    if n == 0 || n > flags.len() {
        Seq::empty()
    } else if flags[n - 1] {
        picked(flags, (n - 1) as nat).push(n - 1)
    } else {
        picked(flags, (n - 1) as nat)
    }
}

/// Does `r` hold references to exactly the entries at the positions `at`, in that order?
pub open spec fn selects(r: Seq<&Entry<'_>>, entries: Seq<Entry<'_>>, at: Seq<int>) -> bool {
    &&& r.len() == at.len()
    &&& forall|k: int|
        #![trigger at[k]]
        0 <= k < at.len() ==> 0 <= at[k] < entries.len() && *r[k] == entries[at[k]]
}

/// For each entry, whether its type is called `ty`.
pub open spec fn type_flags(entries: Seq<EntryModel>, ty: Seq<char>) -> Seq<bool> {
    Seq::new(entries.len(), |i: int| type_matches(entries[i], ty))
}

/// For each entry, whether its field `field` contains `value`.
pub open spec fn field_flags(entries: Seq<EntryModel>, field: Seq<char>, value: Seq<char>) -> Seq<
    bool,
> {
    Seq::new(entries.len(), |i: int| field_contains(entries[i], field, value))
}

/// The entries at which `flags` is set, in their order.
fn pick<'b, 'a>(entries: &'b [Entry<'a>], flags: &Vec<bool>) -> (r: Vec<&'b Entry<'a>>)
    requires
        flags@.len() == entries@.len(),
    ensures
        selects(r@, entries@, picked(flags@, entries@.len())),
{
    let mut found: Vec<&'b Entry<'a>> = Vec::new();
    let mut i: usize = 0;
    while i < entries.len()
        invariant
            i <= entries.len(),
            flags@.len() == entries@.len(),
            selects(found@, entries@, picked(flags@, i as nat)),
        decreases entries.len() - i,
    {
        let ghost before = picked(flags@, i as nat);
        if flags[i] {
            let ghost earlier = found@;
            found.push(&entries[i]);
            proof {
                let after = picked(flags@, (i + 1) as nat);
                assert(after == before.push(i as int));
                assert forall|k: int|
                    #![trigger after[k]]
                    0 <= k < after.len() implies 0 <= after[k] < entries@.len() && *found@[k]
                    == entries@[after[k]] by {
                    if k < before.len() {
                        assert(found@[k] == earlier[k]);
                        assert(after[k] == before[k]);
                    }
                }
            }
        } else {
            assert(picked(flags@, (i + 1) as nat) == before);
        }
        i += 1;
    }
    found
}

/// Is the name of the type of `entry` the text `ty`, up to the case of ASCII letters?
pub open spec fn type_matches(entry: EntryModel, ty: Seq<char>) -> bool {
    same_ignoring_ascii_case(encode_utf8(kind_name(entry.ty)), encode_utf8(ty))
}

/// Does `needle` occur in `hay` at position `i`?
pub open spec fn occurs_at(hay: Seq<u8>, needle: Seq<u8>, i: int) -> bool {
    0 <= i && i + needle.len() <= hay.len() && hay.subrange(i, i + needle.len()) == needle
}

/// Does `needle` occur somewhere in `hay`?
pub open spec fn occurs_in(hay: Seq<u8>, needle: Seq<u8>) -> bool {
    exists|i: int| occurs_at(hay, needle, i)
}

/// Does the text of the field `field` of `entry` contain the text `value`?
pub open spec fn field_contains(entry: EntryModel, field: Seq<char>, value: Seq<char>) -> bool {
    match entry.text(field) {
        Some(text) => occurs_in(encode_utf8(text), encode_utf8(value)),
        None => false,
    }
}

/// Does `needle` occur in `hay` at byte offset `i`?
fn matches_at(hay: &[u8], needle: &[u8], i: usize) -> (r: bool)
    requires
        i + needle@.len() <= hay@.len(),
    ensures
        r == occurs_at(hay@, needle@, i as int),
{
    let limit = hay.len();
    let mut k: usize = 0;
    while k < needle.len()
        invariant
            k <= needle.len(),
            limit == hay@.len(),
            i + needle@.len() <= hay@.len(),
            forall|j: int| 0 <= j < k ==> hay@[i + j] == needle@[j],
        decreases needle.len() - k,
    {
        if hay[i + k] != needle[k] {
            assert(hay@.subrange(i as int, i + needle@.len())[k as int] != needle@[k as int]);
            return false;
        }
        k += 1;
    }
    assert(hay@.subrange(i as int, i + needle@.len()) =~= needle@);
    true
}

/// Does the text `hay` contain the text `needle`?
pub fn contains_text(hay: &str, needle: &str) -> (r: bool)
    ensures
        r == occurs_in(hay.spec_bytes(), needle.spec_bytes()),
{
    let h = hay.as_bytes();
    let n = needle.as_bytes();
    if n.len() > h.len() {
        return false;
    }
    let last = h.len() - n.len();
    let mut i: usize = 0;
    loop
        invariant
            i <= last,
            last == h@.len() - n@.len(),
            h@ == hay.spec_bytes(),
            n@ == needle.spec_bytes(),
            forall|j: int| 0 <= j < i ==> !occurs_at(h@, n@, j),
        decreases last - i,
    {
        if matches_at(h, n, i) {
            return true;
        }
        if i == last {
            return false;
        }
        i += 1;
    }
}

/// The table that holds the first `n` of `pairs`, a later pair replacing an
/// earlier one of the same name.
pub open spec fn table_from(pairs: Seq<(Seq<char>, ValueModel)>, n: nat) -> Map<Seq<char>, ValueModel>
    decreases n,
{
    if n == 0 || n > pairs.len() {
        Map::empty()
    } else {
        table_from(pairs, (n - 1) as nat).insert(pairs[n - 1].0, pairs[n - 1].1)
    }
}

proof fn lemma_table_from(pairs: Seq<(Seq<char>, ValueModel)>, n: nat)
    requires
        n <= pairs.len(),
        forall|i: int, j: int|
            0 <= i < j < pairs.len() ==> #[trigger] pairs[i].0 != #[trigger] pairs[j].0,
    ensures
        forall|i: int|
            0 <= i < n ==> table_from(pairs, n).contains_key(#[trigger] pairs[i].0) && table_from(
                pairs,
                n,
            )[pairs[i].0] == pairs[i].1,
        forall|k: Seq<char>| #[trigger]
            table_from(pairs, n).contains_key(k) ==> exists|i: int|
                0 <= i < n && #[trigger] pairs[i].0 == k,
    decreases n,
{
    if n > 0 {
        lemma_table_from(pairs, (n - 1) as nat);
        assert forall|k: Seq<char>| #[trigger]
            table_from(pairs, n).contains_key(k) implies exists|i: int|
            0 <= i < n && #[trigger] pairs[i].0 == k by {
            if k == pairs[n - 1].0 {
            } else {
                assert(table_from(pairs, (n - 1) as nat).contains_key(k));
                let i = choose|i: int| 0 <= i < n - 1 && #[trigger] pairs[i].0 == k;
                assert(0 <= i < n && pairs[i].0 == k);
            }
        }
    }
}

/// A list of the pairs of a table, entered one by one, gives the table back.
proof fn lemma_table_rebuilt(pairs: Seq<(Seq<char>, ValueModel)>, t: Map<Seq<char>, ValueModel>)
    requires
        lists_table(pairs, t),
    ensures
        table_from(pairs, pairs.len()) == t,
{
    lemma_table_from(pairs, pairs.len());
    let rebuilt = table_from(pairs, pairs.len());
    assert forall|k: Seq<char>| rebuilt.contains_key(k) == t.contains_key(k) by {
        if rebuilt.contains_key(k) {
            let i = choose|i: int| 0 <= i < pairs.len() && #[trigger] pairs[i].0 == k;
            assert(t.contains_key(pairs[i].0));
        }
        if t.contains_key(k) {
            let i = choose|i: int| 0 <= i < pairs.len() && #[trigger] pairs[i].0 == k;
            assert(rebuilt.contains_key(pairs[i].0));
        }
    }
    assert forall|k: Seq<char>| rebuilt.contains_key(k) implies rebuilt[k] == t[k] by {
        let i = choose|i: int| 0 <= i < pairs.len() && #[trigger] pairs[i].0 == k;
        assert(rebuilt[pairs[i].0] == pairs[i].1);
        assert(t[pairs[i].0] == pairs[i].1);
    }
    assert(rebuilt =~= t);
}

/// How many of the first `n` entries have each type, by the name of the type.
pub open spec fn type_counts(entries: Seq<EntryModel>, n: nat) -> Map<Seq<char>, nat>
    decreases n,
{
    if n == 0 || n > entries.len() {
        Map::empty()
    } else {
        let before = type_counts(entries, (n - 1) as nat);
        let name = kind_name(entries[n - 1].ty);
        if before.contains_key(name) {
            before.insert(name, before[name] + 1)
        } else {
            before.insert(name, 1)
        }
    }
}

proof fn lemma_type_counts_bound(entries: Seq<EntryModel>, n: nat)
    requires
        n <= entries.len(),
    ensures
        forall|k: Seq<char>| #[trigger]
            type_counts(entries, n).contains_key(k) ==> type_counts(entries, n)[k] <= n,
    decreases n,
{
    if n > 0 {
        lemma_type_counts_bound(entries, (n - 1) as nat);
        let before = type_counts(entries, (n - 1) as nat);
        let name = kind_name(entries[n - 1].ty);
        assert forall|k: Seq<char>| #[trigger]
            type_counts(entries, n).contains_key(k) implies type_counts(entries, n)[k] <= n by {
            if k != name {
                assert(before.contains_key(k));
            }
        }
    }
}

/// Statistics about a database.
#[derive(Debug)]
pub struct DatabaseStats {
    /// Total number of entries
    pub total_entries: usize,
    /// Total number of string definitions
    pub total_strings: usize,
    /// Total number of preambles
    pub total_preambles: usize,
    /// Total number of comments
    pub total_comments: usize,
    /// Entry counts by type
    pub entries_by_type: AHashMap<String, usize>,
}

impl<'a> Database<'a> {
    /// Parse a BibTeX database from a string.
    ///
    /// Values that are literals in the text stay borrowed from it; only a
    /// concatenation is resolved into a text of its own.
    pub fn parse(input: &'a str) -> (r: std::result::Result<Database<'a>, Error>)
        ensures
            parsed(r, input.spec_bytes()),
            r matches Ok(db) ==> items_at(input.spec_bytes(), 0) matches Ok(items)
                && literals_borrowed(entries_in(items, items.len()), db.entries@),
    {
        Self::parse_sequential(input)
    }

    /// Create a parser with options.
    pub fn parser() -> (r: ParseOptions)
        ensures
            r.threads is None,
    {
        ParseOptions::new()
    }

    /// Parse a BibTeX database from a string: the items first, then the two passes over them.
    fn parse_sequential(input: &'a str) -> (r: std::result::Result<Database<'a>, Error>)
        ensures
            parsed(r, input.spec_bytes()),
            r matches Ok(db) ==> items_at(input.spec_bytes(), 0) matches Ok(items)
                && literals_borrowed(entries_in(items, items.len()), db.entries@),
    {
        let items = match parse_bibtex(input) {
            Ok(items) => items,
            Err(e) => {
                return Err(e);
            },
        };
        let ghost sources = source_entries(items@, items@.len());
        proof {
            lemma_sources(items@, items@.len());
        }
        let r = Self::from_items(items);
        proof {
            match &r {
                Ok(db) => {
                    let raw = entry_views(sources);
                    assert forall|i: int, j: int|
                        0 <= i < raw.len() && 0 <= j < raw[i].fields.len() && (
                        #[trigger] raw[i].fields[j]).value is Literal implies 0 <= j
                        < db.entries@[i].fields@.len() && borrowed_literal(
                        db.entries@[i].fields@[j].value,
                    ) by {
                        assert(passes_through(sources[i], db.entries@[i]));
                        assert(entry_borrowed(sources[i]));
                        assert(raw[i].fields[j] == sources[i].fields@[j]@);
                        assert(field_borrowed(sources[i].fields@[j]));
                    }
                },
                Err(_) => {},
            }
        }
        r
    }

    /// Merge another database into this one: its entries, preambles and
    /// comments follow those already here, and its macros are entered into
    /// the table, replacing macros of the same name.
    pub fn merge(&mut self, other: Database<'a>)
        ensures
            final(self)@.entries == old(self)@.entries + other@.entries,
            final(self)@.strings == old(self)@.strings.union_prefer_right(other@.strings),
            final(self)@.preambles == old(self)@.preambles + other@.preambles,
            final(self)@.comments == old(self)@.comments + other@.comments,
    {
        let ghost added = other@;
        let mut rest = other;
        self.entries.append(&mut rest.entries);
        table_extend(&mut self.strings, rest.strings);
        self.preambles.append(&mut rest.preambles);
        self.comments.append(&mut rest.comments);
        assert(final(self)@.entries =~= old(self)@.entries + added.entries);
        assert(final(self)@.preambles =~= old(self)@.preambles + added.preambles);
        assert(final(self)@.comments =~= old(self)@.comments + added.comments);
    }

    /// Get all entries.
    pub fn entries(&self) -> (r: &[Entry<'a>])
        ensures
            r@ == self.entries@,
    {
        self.entries.as_slice()
    }

    /// Get mutable access to all entries.
    pub fn entries_mut(&mut self) -> (r: &mut Vec<Entry<'a>>)
        ensures
            *r == old(self).entries,
            final(self).entries == *final(r),
            final(self).strings == old(self).strings,
            final(self).preambles == old(self).preambles,
            final(self).comments == old(self).comments,
    {
        &mut self.entries
    }

    /// Get all string definitions.
    pub fn strings(&self) -> (r: &AHashMap<Cow<'a, str>, Value<'a>>)
        ensures
            *r == self.strings,
    {
        &self.strings
    }

    /// Get mutable access to string definitions.
    pub fn strings_mut(&mut self) -> (r: &mut AHashMap<Cow<'a, str>, Value<'a>>)
        ensures
            *r == old(self).strings,
            final(self).strings == *final(r),
            final(self).entries == old(self).entries,
            final(self).preambles == old(self).preambles,
            final(self).comments == old(self).comments,
    {
        &mut self.strings
    }

    /// Get all preambles.
    pub fn preambles(&self) -> (r: &[Value<'a>])
        ensures
            r@ == self.preambles@,
    {
        self.preambles.as_slice()
    }

    /// Get mutable access to preambles.
    pub fn preambles_mut(&mut self) -> (r: &mut Vec<Value<'a>>)
        ensures
            *r == old(self).preambles,
            final(self).preambles == *final(r),
            final(self).entries == old(self).entries,
            final(self).strings == old(self).strings,
            final(self).comments == old(self).comments,
    {
        &mut self.preambles
    }

    /// Get all comments.
    pub fn comments(&self) -> (r: &[Cow<'a, str>])
        ensures
            r@ == self.comments@,
    {
        self.comments.as_slice()
    }

    /// Get mutable access to comments.
    pub fn comments_mut(&mut self) -> (r: &mut Vec<Cow<'a, str>>)
        ensures
            *r == old(self).comments,
            final(self).comments == *final(r),
            final(self).entries == old(self).entries,
            final(self).strings == old(self).strings,
            final(self).preambles == old(self).preambles,
    {
        &mut self.comments
    }

    /// Find the first entry with the citation key `key`.
    pub fn find_by_key(&self, key: &str) -> (r: Option<&Entry<'a>>)
        ensures
            match key_index(self@.entries, key@, 0) {
                Some(i) => r matches Some(e) && 0 <= i < self.entries@.len() && *e
                    == self.entries@[i],
                None => r is None,
            },
    {
        let mut i: usize = 0;
        while i < self.entries.len()
            invariant
                i <= self.entries.len(),
                key_index(self@.entries, key@, 0) == key_index(self@.entries, key@, i as int),
            decreases self.entries.len() - i,
        {
            if same_text(text_ref(&self.entries[i].key), key) {
                return Some(&self.entries[i]);
            }
            i += 1;
        }
        None
    }

    /// Find the entries whose type is called `ty`, whatever the case of its letters.
    pub fn find_by_type(&self, ty: &str) -> (r: Vec<&Entry<'a>>)
        ensures
            selects(
                r@,
                self.entries@,
                picked(type_flags(self@.entries, ty@), self@.entries.len()),
            ),
    {
        let mut flags: Vec<bool> = Vec::new();
        let mut i: usize = 0;
        while i < self.entries.len()
            invariant
                i <= self.entries.len(),
                flags@.len() == i,
                forall|k: int|
                    0 <= k < i ==> #[trigger] flags@[k] == type_matches(self.entries@[k]@, ty@),
            decreases self.entries.len() - i,
        {
            let name = self.entries[i].ty.to_string();
            flags.push(eq_ignore_ascii_case(name.as_str(), ty));
            i += 1;
        }
        assert(flags@ =~= type_flags(self@.entries, ty@));
        pick(self.entries.as_slice(), &flags)
    }

    /// Find the entries of which the field `field`, read as text, contains `value`.
    pub fn find_by_field(&self, field: &str, value: &str) -> (r: Vec<&Entry<'a>>)
        ensures
            selects(
                r@,
                self.entries@,
                picked(field_flags(self@.entries, field@, value@), self@.entries.len()),
            ),
    {
        let mut flags: Vec<bool> = Vec::new();
        let mut i: usize = 0;
        while i < self.entries.len()
            invariant
                i <= self.entries.len(),
                flags@.len() == i,
                forall|k: int|
                    0 <= k < i ==> #[trigger] flags@[k] == field_contains(
                        self.entries@[k]@,
                        field@,
                        value@,
                    ),
            decreases self.entries.len() - i,
        {
            let hit = match self.entries[i].get_as_string(field) {
                Some(text) => contains_text(text.as_str(), value),
                None => false,
            };
            flags.push(hit);
            i += 1;
        }
        assert(flags@ =~= field_flags(self@.entries, field@, value@));
        pick(self.entries.as_slice(), &flags)
    }

    /// Resolves a value against the macros of this database; a value that is
    /// a literal or a number is handed back as it is, without a copy.
    pub fn smart_expand_value(&self, value: Value<'a>) -> (r: std::result::Result<Value<'a>, Error>)
        ensures
            agrees(r, resolve(self@.strings, value@, self@.strings.dom().len())),
            simple(value@) ==> r == Ok::<Value<'a>, Error>(value),
    {
        match value {
            Value::Literal(_) => Ok(value),
            Value::Number(_) => Ok(value),
            _ => self.expand_value_ref(&value),
        }
    }

    /// Resolves a value against the macros of this database.
    pub fn expand_value_ref(&self, value: &Value<'a>) -> (r: std::result::Result<Value<'a>, Error>)
        ensures
            agrees(r, resolve(self@.strings, value@, self@.strings.dom().len())),
            simple(value@) ==> r == Ok::<Value<'a>, Error>(*value),
    {
        let fuel = table_len(&self.strings);
        expand_with(&self.strings, value, fuel)
    }

    /// Resolves the parts of a concatenation and puts them together.
    pub fn expand_concatenation(&self, parts: Vec<Value<'a>>) -> (r: std::result::Result<
        Value<'a>,
        Error,
    >)
        ensures
            agrees(
                r,
                resolve(
                    self@.strings,
                    ValueModel::Concat(value_views(parts@)),
                    self@.strings.dom().len(),
                ),
            ),
    {
        proof {
            lemma_concat_view(Box::new(parts));
        }
        self.expand_value_ref(&Value::Concat(Box::new(parts)))
    }

    /// Get a fully expanded string value: the text of what the value resolves to.
    pub fn get_expanded_string(&self, value: &Value<'a>) -> (r: std::result::Result<String, Error>)
        ensures
            match resolve(self@.strings, value@, self@.strings.dom().len()) {
                Resolved::Value(model) => r matches Ok(text) && text@ == flattened(
                    model,
                ),
                failure => r matches Err(e) && reports(e, failure),
            },
    {
        match self.expand_value_ref(value) {
            Ok(done) => {
                let mut out = String::new();
                done.write_flat(&mut out);
                assert(out@ =~= flattened(done@));
                Ok(out)
            },
            Err(e) => Err(e),
        }
    }

    /// Convert to owned version: the same database, with no text borrowed
    /// from an input.
    pub fn into_owned(self) -> (r: Database<'static>)
        ensures
            r@ == self@,
            forall|i: int| 0 <= i < r.entries@.len() ==> entry_owned(#[trigger] r.entries@[i]),
            forall|i: int| 0 <= i < r.preambles@.len() ==> value_owned(#[trigger] r.preambles@[i]),
            forall|i: int| 0 <= i < r.comments@.len() ==> (#[trigger] r.comments@[i]) is Owned,
    {
        let mut entries: Vec<Entry<'static>> = Vec::new();
        let mut i: usize = 0;
        while i < self.entries.len()
            invariant
                i <= self.entries.len(),
                entries@.len() == i,
                forall|j: int| 0 <= j < i ==> (#[trigger] entries@[j])@ == self.entries@[j]@,
                forall|j: int| 0 <= j < i ==> entry_owned(#[trigger] entries@[j]),
            decreases self.entries.len() - i,
        {
            entries.push(self.entries[i].clone().into_owned());
            i += 1;
        }
        let pairs = table_pairs(&self.strings);
        let ghost listed = pair_views(pairs@);
        let mut strings: AHashMap<Cow<'static, str>, Value<'static>> = table_new();
        let mut k: usize = 0;
        while k < pairs.len()
            invariant
                k <= pairs.len(),
                listed == pair_views(pairs@),
                table_of(&strings) == table_from(listed, k as nat),
            decreases pairs.len() - k,
        {
            let (name, value) = pairs[k];
            assert(listed[k as int] == (name@, value@));
            table_insert(&mut strings, detach_text(name), detach_value(value));
            k += 1;
        }
        proof {
            lemma_table_rebuilt(listed, table_of(&self.strings));
        }
        let mut preambles: Vec<Value<'static>> = Vec::new();
        let mut p: usize = 0;
        while p < self.preambles.len()
            invariant
                p <= self.preambles.len(),
                preambles@.len() == p,
                forall|j: int| 0 <= j < p ==> (#[trigger] preambles@[j])@ == self.preambles@[j]@,
                forall|j: int| 0 <= j < p ==> value_owned(#[trigger] preambles@[j]),
            decreases self.preambles.len() - p,
        {
            preambles.push(detach_value(&self.preambles[p]));
            p += 1;
        }
        let mut comments: Vec<Cow<'static, str>> = Vec::new();
        let mut c: usize = 0;
        while c < self.comments.len()
            invariant
                c <= self.comments.len(),
                comments@.len() == c,
                forall|j: int| 0 <= j < c ==> (#[trigger] comments@[j])@ == self.comments@[j]@,
                forall|j: int| 0 <= j < c ==> (#[trigger] comments@[j]) is Owned,
            decreases self.comments.len() - c,
        {
            comments.push(detach_text(&self.comments[c]));
            c += 1;
        }
        let r = Database { entries, strings, preambles, comments };
        assert(r@.entries =~= self@.entries);
        assert(r@.preambles =~= self@.preambles);
        assert(r@.comments =~= self@.comments);
        r
    }

    /// Add a string definition (useful for building databases programmatically).
    pub fn add_string(&mut self, name: &'a str, value: Value<'a>)
        ensures
            final(self)@ == (DatabaseModel {
                strings: old(self)@.strings.insert(name@, value@),
                ..old(self)@
            }),
    {
        table_insert(&mut self.strings, Cow::Borrowed(name), value);
    }

    /// Add an entry.
    pub fn add_entry(&mut self, entry: Entry<'a>)
        ensures
            final(self)@ == (DatabaseModel {
                entries: old(self)@.entries.push(entry@),
                ..old(self)@
            }),
            final(self).entries@ == old(self).entries@.push(entry),
    {
        self.entries.push(entry);
        assert(final(self)@.entries =~= old(self)@.entries.push(entry@));
    }

    /// Add a preamble.
    pub fn add_preamble(&mut self, value: Value<'a>)
        ensures
            final(self)@ == (DatabaseModel {
                preambles: old(self)@.preambles.push(value@),
                ..old(self)@
            }),
    {
        self.preambles.push(value);
        assert(final(self)@.preambles =~= old(self)@.preambles.push(value@));
    }

    /// Add a comment.
    pub fn add_comment(&mut self, comment: &'a str)
        ensures
            final(self)@ == (DatabaseModel {
                comments: old(self)@.comments.push(comment@),
                ..old(self)@
            }),
    {
        self.comments.push(Cow::Borrowed(comment));
        assert(final(self)@.comments =~= old(self)@.comments.push(comment@));
    }

    /// Get statistics about the database.
    pub fn stats(&self) -> (r: DatabaseStats)
        ensures
            r.total_entries == self@.entries.len(),
            r.total_strings == self@.strings.dom().len(),
            r.total_preambles == self@.preambles.len(),
            r.total_comments == self@.comments.len(),
            counts_of(&r.entries_by_type) == type_counts(self@.entries, self@.entries.len()),
    {
        let ghost models = entry_views(self.entries@);
        let mut counts = counts_new();
        let mut i: usize = 0;
        while i < self.entries.len()
            invariant
                i <= self.entries.len(),
                models == entry_views(self.entries@),
                counts_of(&counts) == type_counts(models, i as nat),
            decreases self.entries.len() - i,
        {
            proof {
                lemma_type_counts_bound(models, i as nat);
            }
            let name = self.entries[i].ty.to_string();
            assert(name@ == kind_name(models[i as int].ty));
            let count = match counts_get(&counts, name.as_str()) {
                Some(n) => n + 1,
                None => 1,
            };
            counts_insert(&mut counts, name, count);
            i += 1;
        }
        DatabaseStats {
            total_entries: self.entries.len(),
            total_strings: table_len(&self.strings),
            total_preambles: self.preambles.len(),
            total_comments: self.comments.len(),
            entries_by_type: counts,
        }
    }
}

/// Builder for creating databases programmatically.
#[derive(Debug)]
pub struct DatabaseBuilder<'a> {
    pub db: Database<'a>,
}

impl<'a> Clone for Database<'a> {
    fn clone(&self) -> (r: Self)
        ensures
            r@ == self@,
    {
        let mut entries: Vec<Entry<'a>> = Vec::new();
        let mut i: usize = 0;
        while i < self.entries.len()
            invariant
                i <= self.entries.len(),
                entries@.len() == i,
                forall|j: int| 0 <= j < i ==> (#[trigger] entries@[j])@ == self.entries@[j]@,
            decreases self.entries.len() - i,
        {
            entries.push(self.entries[i].clone());
            i += 1;
        }
        let mut preambles: Vec<Value<'a>> = Vec::new();
        let mut p: usize = 0;
        while p < self.preambles.len()
            invariant
                p <= self.preambles.len(),
                preambles@.len() == p,
                forall|j: int| 0 <= j < p ==> (#[trigger] preambles@[j])@ == self.preambles@[j]@,
            decreases self.preambles.len() - p,
        {
            preambles.push(copy_value(&self.preambles[p]));
            p += 1;
        }
        let mut comments: Vec<Cow<'a, str>> = Vec::new();
        let mut c: usize = 0;
        while c < self.comments.len()
            invariant
                c <= self.comments.len(),
                comments@.len() == c,
                forall|j: int| 0 <= j < c ==> (#[trigger] comments@[j])@ == self.comments@[j]@,
            decreases self.comments.len() - c,
        {
            comments.push(copy_text(&self.comments[c]));
            c += 1;
        }
        let r = Database { entries, strings: table_clone(&self.strings), preambles, comments };
        assert(r@.entries =~= self@.entries);
        assert(r@.preambles =~= self@.preambles);
        assert(r@.comments =~= self@.comments);
        r
    }
}

impl Clone for DatabaseStats {
    fn clone(&self) -> (r: Self)
        ensures
            r.total_entries == self.total_entries,
            r.total_strings == self.total_strings,
            r.total_preambles == self.total_preambles,
            r.total_comments == self.total_comments,
            counts_of(&r.entries_by_type) == counts_of(&self.entries_by_type),
    {
        DatabaseStats {
            total_entries: self.total_entries,
            total_strings: self.total_strings,
            total_preambles: self.total_preambles,
            total_comments: self.total_comments,
            entries_by_type: counts_clone(&self.entries_by_type),
        }
    }
}

impl<'a> Default for Database<'a> {
    fn default() -> (r: Self)
        ensures
            r@ == (DatabaseModel {
                entries: Seq::empty(),
                strings: Map::empty(),
                preambles: Seq::empty(),
                comments: Seq::empty(),
            }),
    {
        Database::new()
    }
}

impl<'a> Default for DatabaseBuilder<'a> {
    fn default() -> (r: Self)
        ensures
            r.db@ == (DatabaseModel {
                entries: Seq::empty(),
                strings: Map::empty(),
                preambles: Seq::empty(),
                comments: Seq::empty(),
            }),
    {
        DatabaseBuilder::new()
    }
}

impl Default for ParseOptions {
    fn default() -> (r: Self)
        ensures
            r.threads is None,
    {
        ParseOptions { threads: None }
    }
}

impl<'a> DatabaseBuilder<'a> {
    /// Create a new builder, with an empty database.
    pub fn new() -> (r: Self)
        ensures
            r.db@ == (DatabaseModel {
                entries: Seq::empty(),
                strings: Map::empty(),
                preambles: Seq::empty(),
                comments: Seq::empty(),
            }),
    {
        DatabaseBuilder { db: Database::new() }
    }

    /// Add an entry.
    pub fn entry(self, entry: Entry<'a>) -> (r: Self)
        ensures
            r.db@ == (DatabaseModel { entries: self.db@.entries.push(entry@), ..self.db@ }),
    {
        let mut this = self;
        this.db.add_entry(entry);
        this
    }

    /// Add a string definition.
    pub fn string(self, name: &'a str, value: Value<'a>) -> (r: Self)
        ensures
            r.db@ == (DatabaseModel {
                strings: self.db@.strings.insert(name@, value@),
                ..self.db@
            }),
    {
        let mut this = self;
        this.db.add_string(name, value);
        this
    }

    /// Add a preamble.
    pub fn preamble(self, value: Value<'a>) -> (r: Self)
        ensures
            r.db@ == (DatabaseModel { preambles: self.db@.preambles.push(value@), ..self.db@ }),
    {
        let mut this = self;
        this.db.add_preamble(value);
        this
    }

    /// Add a comment.
    pub fn comment(self, text: &'a str) -> (r: Self)
        ensures
            r.db@ == (DatabaseModel { comments: self.db@.comments.push(text@), ..self.db@ }),
    {
        let mut this = self;
        this.db.add_comment(text);
        this
    }

    /// Build the database.
    pub fn build(self) -> (r: Database<'a>)
        ensures
            r == self.db,
    {
        self.db
    }
}

/// Parser configuration with builder pattern.
#[derive(Debug)]
pub struct ParseOptions {
    pub threads: Option<usize>,
}

impl ParseOptions {
    /// Create new parse options, with no thread count set.
    pub fn new() -> (r: Self)
        ensures
            r.threads is None,
    {
        ParseOptions { threads: None }
    }

    /// Set number of threads (`None` lets the runtime choose).
    pub fn threads(self, threads: Option<usize>) -> (r: Self)
        ensures
            r.threads == threads,
    {
        ParseOptions { threads }
    }

    /// The number of workers to use for several files when the runtime offers
    /// `available`: the runtime's choice when no count is set, one worker
    /// (no pool) for a count of 0 or 1, otherwise the count that was set.
    pub fn worker_count(&self, available: usize) -> (r: usize)
        ensures
            r == match self.threads {
                None => available,
                Some(n) => if n <= 1 {
                    1
                } else {
                    n
                },
            },
    {
        match self.threads {
            None => available,
            Some(n) => if n <= 1 {
                1
            } else {
                n
            },
        }
    }

    /// Parse a single input string. A single input is always parsed
    /// sequentially, whatever the thread count.
    pub fn parse<'a>(&self, input: &'a str) -> (r: std::result::Result<Database<'a>, Error>)
        ensures
            parsed(r, input.spec_bytes()),
            r matches Ok(db) ==> items_at(input.spec_bytes(), 0) matches Ok(items)
                && literals_borrowed(entries_in(items, items.len()), db.entries@),
    {
        Database::parse(input)
    }
}

} // verus!
