//! The data model: values, fields, entries and entry types.
//!
//! Every type has a view, a mathematical value that forgets whether a piece
//! of text is borrowed from the input or owned. Contracts speak of views;
//! where borrowing itself matters, they speak of the value as it is.

use vstd::prelude::*;
use ahash::AHashMap;
use std::borrow::Cow;
use crate::table::{lookup_get, lookup_len, lookup_of};
use crate::text::{lowercase, push_signed_decimal, signed_decimal};

verus! {

/// The view of a [`Value`].
pub enum ValueModel {
    Literal(Seq<char>),
    Number(int),
    Concat(Seq<ValueModel>),
    Variable(Seq<char>),
}

/// The view of a [`Field`].
pub struct FieldModel {
    pub name: Seq<char>,
    pub value: ValueModel,
}

/// The view of an [`EntryType`].
pub enum EntryKind {
    Article,
    Book,
    InBook,
    InProceedings,
    Proceedings,
    MastersThesis,
    PhdThesis,
    TechReport,
    Unpublished,
    Misc,
    Custom(Seq<char>),
}

/// The view of an [`Entry`].
pub struct EntryModel {
    pub ty: EntryKind,
    pub key: Seq<char>,
    pub fields: Seq<FieldModel>,
}

/// A value in a BibTeX field.
#[derive(Debug, PartialEq)]
pub enum Value<'a> {
    /// String literal
    Literal(Cow<'a, str>),
    /// Number literal
    Number(i64),
    /// Concatenated values, boxed so that this variant stays one pointer wide
    Concat(Box<Vec<Value<'a>>>),
    /// Variable reference
    Variable(Cow<'a, str>),
}

/// A field in a BibTeX entry.
#[derive(Debug, PartialEq)]
pub struct Field<'a> {
    /// Field name
    pub name: Cow<'a, str>,
    /// Field value
    pub value: Value<'a>,
}

/// BibTeX entry type.
#[derive(Debug, PartialEq, Eq, Hash)]
pub enum EntryType<'a> {
    /// Article from a journal
    Article,
    /// Book with publisher
    Book,
    /// Part of a book
    InBook,
    /// Article in conference proceedings
    InProceedings,
    /// Conference proceedings
    Proceedings,
    /// Master's thesis
    MastersThesis,
    /// PhD thesis
    PhdThesis,
    /// Technical report
    TechReport,
    /// Unpublished work
    Unpublished,
    /// Miscellaneous
    Misc,
    /// Custom entry type
    Custom(Cow<'a, str>),
}

/// A BibTeX entry (article, book, etc.).
#[derive(Debug, PartialEq)]
pub struct Entry<'a> {
    /// Entry type (article, book, inproceedings, etc.)
    pub ty: EntryType<'a>,
    /// Citation key
    pub key: Cow<'a, str>,
    /// Fields (author, title, year, etc.)
    pub fields: Vec<Field<'a>>,
}

impl<'a> View for Value<'a> {
    type V = ValueModel;

    open spec fn view(&self) -> ValueModel
        decreases self,
    {
        match self {
            Value::Literal(text) => ValueModel::Literal(text@),
            Value::Number(n) => ValueModel::Number(*n as int),
            Value::Concat(parts) => ValueModel::Concat(
                Seq::new(
                    parts@.len(),
                    |i: int|
                        if 0 <= i < parts@.len() {
                            proof {
                                vstd::std_specs::vec::axiom_vec_index_decreases(**parts, i);
                            }
                            parts@[i]@
                        } else {
                            ValueModel::Number(0)
                        },
                ),
            ),
            Value::Variable(name) => ValueModel::Variable(name@),
        }
    }
}

impl<'a> View for Field<'a> {
    type V = FieldModel;

    open spec fn view(&self) -> FieldModel {
        FieldModel { name: self.name@, value: self.value@ }
    }
}

impl<'a> View for EntryType<'a> {
    type V = EntryKind;

    open spec fn view(&self) -> EntryKind {
        match self {
            EntryType::Article => EntryKind::Article,
            EntryType::Book => EntryKind::Book,
            EntryType::InBook => EntryKind::InBook,
            EntryType::InProceedings => EntryKind::InProceedings,
            EntryType::Proceedings => EntryKind::Proceedings,
            EntryType::MastersThesis => EntryKind::MastersThesis,
            EntryType::PhdThesis => EntryKind::PhdThesis,
            EntryType::TechReport => EntryKind::TechReport,
            EntryType::Unpublished => EntryKind::Unpublished,
            EntryType::Misc => EntryKind::Misc,
            EntryType::Custom(name) => EntryKind::Custom(name@),
        }
    }
}

/// The views of a run of values.
pub open spec fn value_views(values: Seq<Value<'_>>) -> Seq<ValueModel> {
    Seq::new(values.len(), |i: int| values[i]@)
}

/// The views of a run of fields.
pub open spec fn field_views(fields: Seq<Field<'_>>) -> Seq<FieldModel> {
    Seq::new(fields.len(), |i: int| fields[i]@)
}

impl<'a> View for Entry<'a> {
    type V = EntryModel;

    open spec fn view(&self) -> EntryModel {
        EntryModel { ty: self.ty@, key: self.key@, fields: field_views(self.fields@) }
    }
}

/// The view of a concatenation is the views of its parts.
pub proof fn lemma_concat_view(parts: Box<Vec<Value<'_>>>)
    ensures
        Value::Concat(parts)@ == ValueModel::Concat(value_views(parts@)),
{
    assert(Value::Concat(parts)@->Concat_0 =~= value_views(parts@));
}

/// Does no text in `v` borrow from an input?
pub open spec fn value_owned(v: Value<'_>) -> bool
    decreases v,
{
    match v {
        Value::Literal(text) => text is Owned,
        Value::Number(_) => true,
        Value::Concat(parts) => forall|i: int|
            0 <= i < parts@.len() ==> {
                proof {
                    vstd::std_specs::vec::axiom_vec_index_decreases(*parts, i);
                }
                value_owned(#[trigger] parts@[i])
            },
        Value::Variable(name) => name is Owned,
    }
}

/// Does no text in `f` borrow from an input?
pub open spec fn field_owned(f: Field<'_>) -> bool {
    f.name is Owned && value_owned(f.value)
}

/// Does no text in `t` borrow from an input?
pub open spec fn type_owned(t: EntryType<'_>) -> bool {
    t matches EntryType::Custom(name) ==> name is Owned
}

/// Does no text in `e` borrow from an input?
pub open spec fn entry_owned(e: Entry<'_>) -> bool {
    &&& type_owned(e.ty)
    &&& e.key is Owned
    &&& forall|i: int| 0 <= i < e.fields@.len() ==> field_owned(#[trigger] e.fields@[i])
}

/// How a value reads when printed: a literal as its text, a number in
/// decimal, a variable as `{name}`, a concatenation as its parts joined by
/// `" # "`.
pub open spec fn shown(v: ValueModel) -> Seq<char>
    decreases v, 0nat,
{
    match v {
        ValueModel::Literal(text) => text,
        ValueModel::Number(n) => signed_decimal(n),
        ValueModel::Variable(name) => seq!['{'] + name + seq!['}'],
        ValueModel::Concat(parts) => joined(parts, parts.len(), seq![' ', '#', ' ']),
    }
}

/// The first `n` of `parts` as they read when printed, with `sep` between them.
pub open spec fn joined(parts: Seq<ValueModel>, n: nat, sep: Seq<char>) -> Seq<char>
    decreases parts, n,
{
    if n == 0 || n > parts.len() {
        Seq::empty()
    } else if n == 1 {
        shown(parts[0])
    } else {
        joined(parts, (n - 1) as nat, sep) + sep + shown(parts[n - 1])
    }
}

/// The text of a value for a lookup: like [`shown`], but the parts of a
/// concatenation follow each other without a separator.
pub open spec fn flattened(v: ValueModel) -> Seq<char> {
    match v {
        ValueModel::Concat(parts) => joined(parts, parts.len(), Seq::empty()),
        _ => shown(v),
    }
}

/// A value with its variables replaced by the text of their macros, as far
/// as `table` holds them. A variable that the table does not hold is
/// written `{undefined:name}`; one whose macros lead back to it without end
/// is written `{circular:name}` once `fuel` macros were followed.
pub open spec fn expanded(table: Map<Seq<char>, ValueModel>, v: ValueModel, fuel: nat) -> Seq<char>
    decreases fuel, v, 0nat,
{
    match v {
        ValueModel::Literal(text) => text,
        ValueModel::Number(n) => signed_decimal(n),
        ValueModel::Variable(name) => if !table.contains_key(name) {
            "{undefined:"@ + name + seq!['}']
        } else if fuel == 0 {
            "{circular:"@ + name + seq!['}']
        } else {
            expanded(table, table[name], (fuel - 1) as nat)
        },
        ValueModel::Concat(parts) => expanded_parts(table, parts, parts.len(), fuel),
    }
}

/// The first `n` of `parts`, each expanded, one after the other.
pub open spec fn expanded_parts(
    table: Map<Seq<char>, ValueModel>,
    parts: Seq<ValueModel>,
    n: nat,
    fuel: nat,
) -> Seq<char>
    decreases fuel, parts, n,
{
    if n == 0 || n > parts.len() {
        Seq::empty()
    } else {
        expanded_parts(table, parts, (n - 1) as nat, fuel) + expanded(table, parts[n - 1], fuel)
    }
}

/// The first field at or after `from` whose name is `key` once lower-cased.
pub open spec fn field_index(fields: Seq<FieldModel>, key: Seq<char>, from: int) -> Option<int>
    decreases fields.len() - from,
{
    if from < 0 || from >= fields.len() {
        None
    } else if lowercase(fields[from].name) == key {
        Some(from)
    } else {
        field_index(fields, key, from + 1)
    }
}

impl EntryModel {
    /// The value of the first field called `name`, whatever the case of its letters.
    pub open spec fn lookup(self, name: Seq<char>) -> Option<ValueModel> {
        match field_index(self.fields, lowercase(name), 0) {
            Some(i) => Some(self.fields[i].value),
            None => None,
        }
    }

    /// The text of the field called `name`, when that field holds a literal.
    pub open spec fn literal(self, name: Seq<char>) -> Option<Seq<char>> {
        match self.lookup(name) {
            Some(ValueModel::Literal(text)) => Some(text),
            _ => None,
        }
    }

    /// The text of the field called `name`, whatever it holds.
    pub open spec fn text(self, name: Seq<char>) -> Option<Seq<char>> {
        match self.lookup(name) {
            Some(v) => Some(flattened(v)),
            None => None,
        }
    }

    /// Does the entry have every field that its type conventionally requires?
    pub open spec fn complete(self) -> bool {
        forall|i: int|
            0 <= i < required_names(self.ty).len() ==> self.lookup(
                #[trigger] required_names(self.ty)[i],
            ) is Some
    }
}

/// The name of an entry type as it is written in a file.
pub open spec fn kind_name(kind: EntryKind) -> Seq<char> {
    match kind {
        EntryKind::Article => "article"@,
        EntryKind::Book => "book"@,
        EntryKind::InBook => "inbook"@,
        EntryKind::InProceedings => "inproceedings"@,
        EntryKind::Proceedings => "proceedings"@,
        EntryKind::MastersThesis => "mastersthesis"@,
        EntryKind::PhdThesis => "phdthesis"@,
        EntryKind::TechReport => "techreport"@,
        EntryKind::Unpublished => "unpublished"@,
        EntryKind::Misc => "misc"@,
        EntryKind::Custom(name) => name,
    }
}

/// The entry type that a type name stands for. `lower` is the name in lower
/// case, `name` the name as written, which a custom type keeps.
pub open spec fn kind_from(lower: Seq<char>, name: Seq<char>) -> EntryKind {
    if lower == "article"@ {
        EntryKind::Article
    } else if lower == "book"@ {
        EntryKind::Book
    } else if lower == "inbook"@ {
        EntryKind::InBook
    } else if lower == "inproceedings"@ || lower == "conference"@ {
        EntryKind::InProceedings
    } else if lower == "proceedings"@ {
        EntryKind::Proceedings
    } else if lower == "mastersthesis"@ {
        EntryKind::MastersThesis
    } else if lower == "phdthesis"@ {
        EntryKind::PhdThesis
    } else if lower == "techreport"@ {
        EntryKind::TechReport
    } else if lower == "unpublished"@ {
        EntryKind::Unpublished
    } else if lower == "misc"@ {
        EntryKind::Misc
    } else {
        EntryKind::Custom(name)
    }
}

/// The entry type that the type name `name` stands for.
pub open spec fn kind_of(name: Seq<char>) -> EntryKind {
    kind_from(lowercase(name), name)
}

/// The fields that an entry of this type conventionally has.
pub open spec fn required_names(kind: EntryKind) -> Seq<Seq<char>> {
    match kind {
        EntryKind::Article => seq!["author"@, "title"@, "journal"@, "year"@],
        EntryKind::Book => seq!["author"@, "title"@, "publisher"@, "year"@],
        EntryKind::InBook => seq!["author"@, "title"@, "chapter"@, "publisher"@, "year"@],
        EntryKind::InProceedings => seq!["author"@, "title"@, "booktitle"@, "year"@],
        EntryKind::Proceedings => seq!["title"@, "year"@],
        EntryKind::MastersThesis => seq!["author"@, "title"@, "school"@, "year"@],
        EntryKind::PhdThesis => seq!["author"@, "title"@, "school"@, "year"@],
        EntryKind::TechReport => seq!["author"@, "title"@, "institution"@, "year"@],
        EntryKind::Unpublished => seq!["author"@, "title"@, "note"@],
        EntryKind::Misc => Seq::empty(),
        EntryKind::Custom(_) => Seq::empty(),
    }
}

/// The views of a list of names.
pub open spec fn name_views(names: Seq<&'static str>) -> Seq<Seq<char>> {
    Seq::new(names.len(), |i: int| names[i]@)
}

/// Borrows the text that a `Cow` holds.
pub fn text_ref<'b>(text: &'b Cow<'_, str>) -> (r: &'b str)
    ensures
        r@ == text@,
{
    match text {
        Cow::Borrowed(s) => s,
        Cow::Owned(s) => s.as_str(),
    }
}

/// Copies a `Cow`: a borrowed text stays the same borrow, an owned text is duplicated.
pub fn copy_text<'a>(text: &Cow<'a, str>) -> (r: Cow<'a, str>)
    ensures
        r == *text,
{
    match text {
        Cow::Borrowed(s) => Cow::Borrowed(*s),
        Cow::Owned(s) => Cow::Owned(s.clone()),
    }
}

/// Detaches a text from the input it may borrow from.
pub fn own_text(text: Cow<'_, str>) -> (r: Cow<'static, str>)
    ensures
        r@ == text@,
        r is Owned,
{
    match text {
        Cow::Borrowed(s) => Cow::Owned(s.to_owned()),
        Cow::Owned(s) => Cow::Owned(s),
    }
}

impl<'a> Clone for Value<'a> {
    /// A copy with the same view; a value that is not a concatenation is copied exactly,
    /// so a borrowed literal stays the same borrow.
    fn clone(&self) -> (r: Self)
        ensures
            r@ == self@,
            !(self is Concat) ==> r == *self,
    {
        copy_value(self)
    }
}

/// Copies a value. See [`Value::clone`].
pub fn copy_value<'a>(v: &Value<'a>) -> (r: Value<'a>)
    ensures
        r@ == v@,
        !(v is Concat) ==> r == *v,
    decreases v,
{
    match v {
        Value::Literal(text) => Value::Literal(copy_text(text)),
        Value::Number(n) => Value::Number(*n),
        Value::Variable(name) => Value::Variable(copy_text(name)),
        Value::Concat(parts) => {
            let mut out: Vec<Value<'a>> = Vec::new();
            let mut i: usize = 0;
            while i < parts.len()
                invariant
                    i <= parts.len(),
                    out@.len() == i,
                    forall|j: int| 0 <= j < i ==> (#[trigger] out@[j])@ == parts@[j]@,
                    *v == Value::Concat(*parts),
                decreases parts.len() - i,
            {
                proof {
                    vstd::std_specs::vec::axiom_vec_index_decreases(**parts, i as int);
                    assert(decreases_to!(*v => v->Concat_0));
                }
                let part = copy_value(&parts[i]);
                out.push(part);
                i += 1;
            }
            let r = Value::Concat(Box::new(out));
            assert(r@->Concat_0 =~= v@->Concat_0);
            r
        },
    }
}

impl Default for Value<'_> {
    fn default() -> (r: Self)
        ensures
            r == Value::Number(0),
    {
        Value::Number(0)
    }
}

impl<'a> Value<'a> {
    /// The text of a literal; `None` for every other kind of value.
    pub fn as_str(&self) -> (r: Option<&str>)
        ensures
            match r {
                Some(s) => self@ == ValueModel::Literal(s@),
                None => !(self is Literal),
            },
    {
        match self {
            Value::Literal(text) => Some(text_ref(text)),
            _ => None,
        }
    }

    /// Expand variables and concatenations to get the final string. A
    /// variable without a macro is written `{undefined:name}`, one whose
    /// macros form a cycle `{circular:name}`.
    pub fn expand(&self, strings: &AHashMap<&str, Value<'_>>) -> (r: String)
        ensures
            r@ == expanded(lookup_of(strings), self@, lookup_of(strings).dom().len()),
    {
        let mut out = String::new();
        let fuel = lookup_len(strings);
        expand_into(&mut out, self, strings, fuel);
        assert(out@ =~= expanded(lookup_of(strings), self@, fuel as nat));
        out
    }

    /// Appends the printed form of the value to `out`.
    pub fn write_to(&self, out: &mut String)
        ensures
            final(out)@ == old(out)@ + shown(self@),
        decreases self,
    {
        match self {
            Value::Literal(text) => {
                out.append(text_ref(text));
            },
            Value::Number(n) => {
                push_signed_decimal(out, *n);
            },
            Value::Variable(name) => {
                proof {
                    reveal_strlit("{");
                    reveal_strlit("}");
                }
                out.append("{");
                out.append(text_ref(name));
                out.append("}");
                assert(final(out)@ =~= old(out)@ + shown(self@));
            },
            Value::Concat(parts) => {
                proof {
                    lemma_concat_view(*parts);
                }
                let ghost models = value_views(parts@);
                let mut i: usize = 0;
                while i < parts.len()
                    invariant
                        i <= parts.len(),
                        models == value_views(parts@),
                        *self == Value::Concat(*parts),
                        out@ == old(out)@ + joined(models, i as nat, seq![' ', '#', ' ']),
                    decreases parts.len() - i,
                {
                    proof {
                        vstd::std_specs::vec::axiom_vec_index_decreases(**parts, i as int);
                        assert(decreases_to!(*self => self->Concat_0));
                        reveal_strlit(" # ");
                    }
                    if i > 0 {
                        out.append(" # ");
                    }
                    parts[i].write_to(out);
                    proof {
                        assert(" # "@ =~= seq![' ', '#', ' ']);
                        assert(out@ =~= old(out)@ + joined(
                            models,
                            (i + 1) as nat,
                            seq![' ', '#', ' '],
                        ));
                    }
                    i += 1;
                }
            },
        }
    }

    /// The printed form of the value.
    pub fn to_string(&self) -> (r: String)
        ensures
            r@ == shown(self@),
    {
        let mut out = String::new();
        self.write_to(&mut out);
        assert(out@ =~= shown(self@));
        out
    }

    /// Appends the text of the value for a lookup to `out`.
    pub fn write_flat(&self, out: &mut String)
        ensures
            final(out)@ == old(out)@ + flattened(self@),
    {
        match self {
            Value::Concat(parts) => {
                proof {
                    lemma_concat_view(*parts);
                }
                let ghost models = value_views(parts@);
                let mut i: usize = 0;
                while i < parts.len()
                    invariant
                        i <= parts.len(),
                        models == value_views(parts@),
                        out@ == old(out)@ + joined(models, i as nat, Seq::empty()),
                    decreases parts.len() - i,
                {
                    parts[i].write_to(out);
                    proof {
                        assert(out@ =~= old(out)@ + joined(models, (i + 1) as nat, Seq::empty()));
                    }
                    i += 1;
                }
            },
            _ => {
                self.write_to(out);
            },
        }
    }

    /// Convert to owned version: the same value, with no text borrowed.
    pub fn into_owned(self) -> (r: Value<'static>)
        ensures
            r@ == self@,
            value_owned(r),
    {
        detach_value(&self)
    }
}

/// Appends the expansion of `value` to `out`. See [`Value::expand`].
pub fn expand_into(
    out: &mut String,
    value: &Value<'_>,
    strings: &AHashMap<&str, Value<'_>>,
    fuel: usize,
)
    ensures
        final(out)@ == old(out)@ + expanded(lookup_of(strings), value@, fuel as nat),
    decreases fuel, value, 0nat,
{
    match value {
        Value::Literal(text) => {
            out.append(text_ref(text));
        },
        Value::Number(n) => {
            push_signed_decimal(out, *n);
        },
        Value::Variable(name) => {
            proof {
                reveal_strlit("}");
            }
            match lookup_get(strings, text_ref(name)) {
                None => {
                    out.append("{undefined:");
                    out.append(text_ref(name));
                    out.append("}");
                    assert(final(out)@ =~= old(out)@ + expanded(
                        lookup_of(strings),
                        value@,
                        fuel as nat,
                    ));
                },
                Some(definition) => {
                    if fuel == 0 {
                        out.append("{circular:");
                        out.append(text_ref(name));
                        out.append("}");
                        assert(final(out)@ =~= old(out)@ + expanded(
                            lookup_of(strings),
                            value@,
                            fuel as nat,
                        ));
                    } else {
                        expand_into(out, definition, strings, fuel - 1);
                    }
                },
            }
        },
        Value::Concat(parts) => {
            proof {
                lemma_concat_view(*parts);
            }
            let ghost models = value_views(parts@);
            let mut i: usize = 0;
            assert(out@ + Seq::<char>::empty() =~= out@);
            while i < parts.len()
                invariant
                    i <= parts.len(),
                    models == value_views(parts@),
                    *value == Value::Concat(*parts),
                    out@ == old(out)@ + expanded_parts(
                        lookup_of(strings),
                        models,
                        i as nat,
                        fuel as nat,
                    ),
                decreases parts.len() - i,
            {
                proof {
                    vstd::std_specs::vec::axiom_vec_index_decreases(**parts, i as int);
                    assert(decreases_to!(*value => value->Concat_0));
                    assert(models[i as int] == parts@[i as int]@);
                }
                expand_into(out, &parts[i], strings, fuel);
                assert(out@ =~= old(out)@ + expanded_parts(
                    lookup_of(strings),
                    models,
                    (i + 1) as nat,
                    fuel as nat,
                ));
                i += 1;
            }
        },
    }
}

/// An owned copy of a text.
pub fn detach_text(text: &Cow<'_, str>) -> (r: Cow<'static, str>)
    ensures
        r@ == text@,
        r is Owned,
{
    Cow::Owned(text_ref(text).to_owned())
}

/// A copy of a value in which no text is borrowed.
pub fn detach_value(v: &Value<'_>) -> (r: Value<'static>)
    ensures
        r@ == v@,
        value_owned(r),
    decreases v,
{
    match v {
        Value::Literal(text) => Value::Literal(detach_text(text)),
        Value::Number(n) => Value::Number(*n),
        Value::Variable(name) => Value::Variable(detach_text(name)),
        Value::Concat(parts) => {
            let mut out: Vec<Value<'static>> = Vec::new();
            let mut i: usize = 0;
            while i < parts.len()
                invariant
                    i <= parts.len(),
                    out@.len() == i,
                    forall|j: int| 0 <= j < i ==> (#[trigger] out@[j])@ == parts@[j]@,
                    forall|j: int| 0 <= j < i ==> value_owned(#[trigger] out@[j]),
                    *v == Value::Concat(*parts),
                decreases parts.len() - i,
            {
                proof {
                    vstd::std_specs::vec::axiom_vec_index_decreases(**parts, i as int);
                    assert(decreases_to!(*v => v->Concat_0));
                }
                let part = detach_value(&parts[i]);
                out.push(part);
                i += 1;
            }
            let r = Value::Concat(Box::new(out));
            assert(r@->Concat_0 =~= v@->Concat_0);
            r
        },
    }
}

impl<'a> Clone for Field<'a> {
    fn clone(&self) -> (r: Self)
        ensures
            r@ == self@,
    {
        Field { name: copy_text(&self.name), value: copy_value(&self.value) }
    }
}

impl<'a> Field<'a> {
    /// Create a new field.
    pub fn new(name: &'a str, value: Value<'a>) -> (r: Self)
        ensures
            r.name == Cow::<'a, str>::Borrowed(name),
            r.value == value,
    {
        Field { name: Cow::Borrowed(name), value }
    }

    /// Convert to owned version: the same field, with no text borrowed.
    pub fn into_owned(self) -> (r: Field<'static>)
        ensures
            r@ == self@,
            field_owned(r),
    {
        Field { name: own_text(self.name), value: self.value.into_owned() }
    }
}

impl<'a> Clone for EntryType<'a> {
    fn clone(&self) -> (r: Self)
        ensures
            r == *self,
    {
        match self {
            EntryType::Article => EntryType::Article,
            EntryType::Book => EntryType::Book,
            EntryType::InBook => EntryType::InBook,
            EntryType::InProceedings => EntryType::InProceedings,
            EntryType::Proceedings => EntryType::Proceedings,
            EntryType::MastersThesis => EntryType::MastersThesis,
            EntryType::PhdThesis => EntryType::PhdThesis,
            EntryType::TechReport => EntryType::TechReport,
            EntryType::Unpublished => EntryType::Unpublished,
            EntryType::Misc => EntryType::Misc,
            EntryType::Custom(name) => EntryType::Custom(copy_text(name)),
        }
    }
}

impl<'a> EntryType<'a> {
    /// Parse from string (case-insensitive). A name that is none of the
    /// conventional ones becomes a custom type that borrows the name.
    pub fn parse(s: &'a str) -> (r: Self)
        ensures
            r@ == kind_of(s@),
            r matches EntryType::Custom(name) ==> name == Cow::<'a, str>::Borrowed(s),
    {
        let lower = s.to_lowercase();
        let l = lower.as_str();
        if same_text(l, "article") {
            EntryType::Article
        } else if same_text(l, "book") {
            EntryType::Book
        } else if same_text(l, "inbook") {
            EntryType::InBook
        } else if same_text(l, "inproceedings") || same_text(l, "conference") {
            EntryType::InProceedings
        } else if same_text(l, "proceedings") {
            EntryType::Proceedings
        } else if same_text(l, "mastersthesis") {
            EntryType::MastersThesis
        } else if same_text(l, "phdthesis") {
            EntryType::PhdThesis
        } else if same_text(l, "techreport") {
            EntryType::TechReport
        } else if same_text(l, "unpublished") {
            EntryType::Unpublished
        } else if same_text(l, "misc") {
            EntryType::Misc
        } else {
            EntryType::Custom(Cow::Borrowed(s))
        }
    }

    /// Get required fields for this entry type.
    pub fn required_fields(&self) -> (r: Vec<&'static str>)
        ensures
            name_views(r@) == required_names(self@),
    {
        let r = match self {
            EntryType::Article => vec!["author", "title", "journal", "year"],
            EntryType::Book => vec!["author", "title", "publisher", "year"],
            EntryType::InBook => vec!["author", "title", "chapter", "publisher", "year"],
            EntryType::InProceedings => vec!["author", "title", "booktitle", "year"],
            EntryType::Proceedings => vec!["title", "year"],
            EntryType::MastersThesis | EntryType::PhdThesis => vec![
                "author",
                "title",
                "school",
                "year",
            ],
            EntryType::TechReport => vec!["author", "title", "institution", "year"],
            EntryType::Unpublished => vec!["author", "title", "note"],
            EntryType::Misc | EntryType::Custom(_) => Vec::new(),
        };
        assert(name_views(r@) =~= required_names(self@));
        r
    }

    /// Convert to owned version: the same type, with no text borrowed.
    pub fn into_owned(self) -> (r: EntryType<'static>)
        ensures
            r@ == self@,
            type_owned(r),
    {
        match self {
            EntryType::Custom(s) => EntryType::Custom(own_text(s)),
            EntryType::Article => EntryType::Article,
            EntryType::Book => EntryType::Book,
            EntryType::InBook => EntryType::InBook,
            EntryType::InProceedings => EntryType::InProceedings,
            EntryType::Proceedings => EntryType::Proceedings,
            EntryType::MastersThesis => EntryType::MastersThesis,
            EntryType::PhdThesis => EntryType::PhdThesis,
            EntryType::TechReport => EntryType::TechReport,
            EntryType::Unpublished => EntryType::Unpublished,
            EntryType::Misc => EntryType::Misc,
        }
    }

    /// The name of the type as it is written in a file.
    pub fn to_string(&self) -> (r: String)
        ensures
            r@ == kind_name(self@),
    {
        match self {
            EntryType::Article => "article".to_owned(),
            EntryType::Book => "book".to_owned(),
            EntryType::InBook => "inbook".to_owned(),
            EntryType::InProceedings => "inproceedings".to_owned(),
            EntryType::Proceedings => "proceedings".to_owned(),
            EntryType::MastersThesis => "mastersthesis".to_owned(),
            EntryType::PhdThesis => "phdthesis".to_owned(),
            EntryType::TechReport => "techreport".to_owned(),
            EntryType::Unpublished => "unpublished".to_owned(),
            EntryType::Misc => "misc".to_owned(),
            EntryType::Custom(s) => text_ref(s).to_owned(),
        }
    }
}

/// Are two texts the same, character by character?
pub fn same_text(a: &str, b: &str) -> (r: bool)
    ensures
        r == (a@ == b@),
{
    let x = a.as_bytes();
    let y = b.as_bytes();
    proof {
        vstd::utf8::encode_utf8_decode_utf8(a@);
        vstd::utf8::encode_utf8_decode_utf8(b@);
    }
    if x.len() != y.len() {
        return false;
    }
    let mut i: usize = 0;
    while i < x.len()
        invariant
            i <= x.len(),
            x.len() == y.len(),
            x@ == vstd::utf8::encode_utf8(a@),
            y@ == vstd::utf8::encode_utf8(b@),
            forall|j: int| 0 <= j < i ==> x@[j] == y@[j],
        decreases x.len() - i,
    {
        if x[i] != y[i] {
            return false;
        }
        i += 1;
    }
    proof {
        assert(x@ =~= y@);
    }
    true
}

impl<'a> Clone for Entry<'a> {
    fn clone(&self) -> (r: Self)
        ensures
            r@ == self@,
    {
        let mut fields: Vec<Field<'a>> = Vec::new();
        let mut i: usize = 0;
        while i < self.fields.len()
            invariant
                i <= self.fields.len(),
                fields@.len() == i,
                forall|j: int| 0 <= j < i ==> (#[trigger] fields@[j])@ == self.fields@[j]@,
            decreases self.fields.len() - i,
        {
            fields.push(self.fields[i].clone());
            i += 1;
        }
        let r = Entry { ty: self.ty.clone(), key: copy_text(&self.key), fields };
        assert(r@.fields =~= self@.fields);
        r
    }
}

impl<'a> Entry<'a> {
    /// Create a new entry with no fields.
    pub fn new(ty: EntryType<'a>, key: &'a str) -> (r: Self)
        ensures
            r.ty == ty,
            r.key == Cow::<'a, str>::Borrowed(key),
            r.fields@.len() == 0,
    {
        Entry { ty, key: Cow::Borrowed(key), fields: Vec::new() }
    }

    /// Get the entry type.
    pub fn entry_type(&self) -> (r: &EntryType<'a>)
        ensures
            *r == self.ty,
    {
        &self.ty
    }

    /// Get the citation key.
    pub fn key(&self) -> (r: &str)
        ensures
            r@ == self.key@,
    {
        text_ref(&self.key)
    }

    /// The position of the first field called `name`, whatever the case of its letters.
    fn find(&self, name: &str) -> (r: Option<usize>)
        ensures
            match r {
                Some(i) => field_index(self@.fields, lowercase(name@), 0) == Some(i as int) && i
                    < self.fields@.len(),
                None => field_index(self@.fields, lowercase(name@), 0) is None,
            },
    {
        let key = name.to_lowercase();
        let mut i: usize = 0;
        while i < self.fields.len()
            invariant
                i <= self.fields.len(),
                key@ == lowercase(name@),
                field_index(self@.fields, key@, 0) == field_index(self@.fields, key@, i as int),
            decreases self.fields.len() - i,
        {
            let lower = text_ref(&self.fields[i].name).to_lowercase();
            if same_text(lower.as_str(), key.as_str()) {
                return Some(i);
            }
            i += 1;
        }
        None
    }

    /// Get a field value by name (case-insensitive). Only a literal has a
    /// text to return; a number, a variable or a concatenation gives `None`.
    pub fn get(&self, name: &str) -> (r: Option<&str>)
        ensures
            match r {
                Some(s) => self@.literal(name@) == Some(s@),
                None => self@.literal(name@) is None,
            },
    {
        match self.find(name) {
            Some(i) => self.fields[i].value.as_str(),
            None => None,
        }
    }

    /// Get a field value as a string, converting numbers if necessary.
    pub fn get_as_string(&self, name: &str) -> (r: Option<String>)
        ensures
            match r {
                Some(s) => self@.text(name@) == Some(s@),
                None => self@.text(name@) is None,
            },
    {
        match self.find(name) {
            Some(i) => {
                let mut out = String::new();
                self.fields[i].value.write_flat(&mut out);
                assert(out@ =~= flattened(self.fields@[i as int].value@));
                Some(out)
            },
            None => None,
        }
    }

    /// Get all fields.
    pub fn fields(&self) -> (r: &[Field<'a>])
        ensures
            r@ == self.fields@,
    {
        self.fields.as_slice()
    }

    /// Add a field at the end.
    pub fn add_field(&mut self, field: Field<'a>)
        ensures
            final(self).ty == old(self).ty,
            final(self).key == old(self).key,
            final(self).fields@ == old(self).fields@.push(field),
    {
        self.fields.push(field);
    }

    /// Check if entry has all required fields for its type.
    pub fn is_valid(&self) -> (r: bool)
        ensures
            r == self@.complete(),
    {
        let required = self.ty.required_fields();
        let mut i: usize = 0;
        while i < required.len()
            invariant
                i <= required.len(),
                name_views(required@) == required_names(self@.ty),
                forall|j: int|
                    0 <= j < i ==> self@.lookup(#[trigger] required_names(self@.ty)[j]) is Some,
            decreases required.len() - i,
        {
            assert(name_views(required@)[i as int] == required@[i as int]@);
            if self.find(required[i]).is_none() {
                return false;
            }
            i += 1;
        }
        assert(name_views(required@).len() == required@.len());
        true
    }

    /// Convert to owned version: the same entry, with no text borrowed.
    pub fn into_owned(self) -> (r: Entry<'static>)
        ensures
            r@ == self@,
            entry_owned(r),
    {
        let mut fields: Vec<Field<'static>> = Vec::new();
        let mut i: usize = 0;
        while i < self.fields.len()
            invariant
                i <= self.fields.len(),
                fields@.len() == i,
                forall|j: int| 0 <= j < i ==> (#[trigger] fields@[j])@ == self.fields@[j]@,
                forall|j: int| 0 <= j < i ==> field_owned(#[trigger] fields@[j]),
            decreases self.fields.len() - i,
        {
            fields.push(self.fields[i].clone().into_owned());
            i += 1;
        }
        let r = Entry { ty: self.ty.into_owned(), key: own_text(self.key), fields };
        assert(r@.fields =~= self@.fields);
        r
    }
}

} // verus!
