//! Value resolution: what a value comes to once its variables are replaced
//! by their macros and its concatenations are put together.
//!
//! A literal or a number resolves to itself. A variable resolves to what the
//! value of its macro resolves to; it fails when the macro table does not
//! hold it. A concatenation resolves to one literal, the texts of its
//! resolved parts one after the other. Macros are followed at most as many
//! times, one from the other, as the table has macros: no chain without a
//! cycle is longer, so a resolution that runs out has met a cycle and
//! fails as a circular reference.

use vstd::prelude::*;
use vstd::string::*;
use ahash::AHashMap;
use std::borrow::Cow;
use crate::error::Error;
use crate::model::{copy_value, lemma_concat_view, text_ref, value_views, Value, ValueModel};
use crate::table::{table_get, table_of};
use crate::text::{push_signed_decimal, signed_decimal};

verus! {

/// What resolving a value comes to.
pub enum Resolved {
    /// The resolved value
    Value(ValueModel),
    /// A variable names a macro that the table does not hold
    Undefined(Seq<char>),
    /// Following macros from one to the next never ends
    Circular(Seq<char>),
}

/// Is `v` a literal or a number?
pub open spec fn simple(v: ValueModel) -> bool {
    v is Literal || v is Number
}

/// The text of a literal, or a number in decimal.
pub open spec fn plain_text(v: ValueModel) -> Seq<char> {
    match v {
        ValueModel::Literal(text) => text,
        ValueModel::Number(n) => signed_decimal(n),
        _ => Seq::empty(),
    }
}

/// The texts of the first `n` of `values`, one after the other.
pub open spec fn concat_text(values: Seq<ValueModel>, n: nat) -> Seq<char>
    decreases n,
{
    if n == 0 || n > values.len() {
        Seq::empty()
    } else {
        concat_text(values, (n - 1) as nat) + plain_text(values[n - 1])
    }
}

/// Is every one of `values` a literal or a number?
pub open spec fn all_simple(values: Seq<ValueModel>) -> bool {
    forall|i: int| 0 <= i < values.len() ==> simple(#[trigger] values[i])
}

/// The resolved parts of a concatenation, put together: one literal when all
/// of them are literals or numbers, otherwise a concatenation of the parts.
pub open spec fn combine(done: Seq<ValueModel>) -> ValueModel {
    if all_simple(done) {
        ValueModel::Literal(concat_text(done, done.len()))
    } else {
        ValueModel::Concat(done)
    }
}

/// The value that `v` resolves to against `table`. `fuel` bounds how many
/// macros may be followed one from the other; with as much fuel as the table
/// has macros, only a cycle can use it up.
pub open spec fn resolve(table: Map<Seq<char>, ValueModel>, v: ValueModel, fuel: nat) -> Resolved
    decreases fuel, v, 0nat,
{
    match v {
        ValueModel::Literal(_) => Resolved::Value(v),
        ValueModel::Number(_) => Resolved::Value(v),
        ValueModel::Variable(name) => if !table.contains_key(name) {
            Resolved::Undefined(name)
        } else if fuel == 0 {
            Resolved::Circular(name)
        } else {
            resolve(table, table[name], (fuel - 1) as nat)
        },
        ValueModel::Concat(parts) => match resolve_parts(table, parts, parts.len(), fuel) {
            Ok(done) => Resolved::Value(combine(done)),
            Err(failure) => failure,
        },
    }
}

/// The first `n` of `parts`, each resolved, or the failure of the first that fails.
pub open spec fn resolve_parts(
    table: Map<Seq<char>, ValueModel>,
    parts: Seq<ValueModel>,
    n: nat,
    fuel: nat,
) -> std::result::Result<Seq<ValueModel>, Resolved>
    decreases fuel, parts, n,
{
    if n == 0 || n > parts.len() {
        Ok(Seq::empty())
    } else {
        match resolve_parts(table, parts, (n - 1) as nat, fuel) {
            Ok(done) => match resolve(table, parts[n - 1], fuel) {
                Resolved::Value(r) => Ok(done.push(r)),
                failure => Err(failure),
            },
            Err(failure) => Err(failure),
        }
    }
}

/// Does the result `r` say what `want` says?
pub open spec fn agrees(r: std::result::Result<Value<'_>, Error>, want: Resolved) -> bool {
    match want {
        Resolved::Value(model) => r matches Ok(v) && v@ == model,
        Resolved::Undefined(name) => r matches Err(Error::UndefinedVariable(text)) && text@ == name,
        Resolved::Circular(name) => r matches Err(Error::CircularReference(text)) && text@ == name,
    }
}

/// Concatenate simple values (literals and numbers) into a single string.
pub fn concatenate_simple_values(values: &[Value<'_>]) -> (r: String)
    ensures
        r@ == concat_text(value_views(values@), values@.len()),
{
    let ghost models = value_views(values@);
    let mut out = String::new();
    let mut i: usize = 0;
    while i < values.len()
        invariant
            i <= values.len(),
            models == value_views(values@),
            out@ == concat_text(models, i as nat),
        decreases values.len() - i,
    {
        match &values[i] {
            Value::Literal(text) => {
                out.append(text_ref(text));
            },
            Value::Number(n) => {
                push_signed_decimal(&mut out, *n);
            },
            _ => {
                assert(out@ + Seq::<char>::empty() =~= out@);
            },
        }
        i += 1;
    }
    out
}

/// Is every one of `values` a literal or a number?
fn are_simple(values: &[Value<'_>]) -> (r: bool)
    ensures
        r == all_simple(value_views(values@)),
{
    let mut i: usize = 0;
    while i < values.len()
        invariant
            i <= values.len(),
            forall|j: int| 0 <= j < i ==> simple(#[trigger] value_views(values@)[j]),
        decreases values.len() - i,
    {
        match &values[i] {
            Value::Literal(_) => {},
            Value::Number(_) => {},
            _ => {
                assert(!simple(value_views(values@)[i as int]));
                return false;
            },
        }
        i += 1;
    }
    true
}

/// Resolves `value` against `table`, following at most `fuel` macros one from the other.
pub fn expand_with<'a>(
    table: &AHashMap<Cow<'a, str>, Value<'a>>,
    value: &Value<'a>,
    fuel: usize,
) -> (r: std::result::Result<Value<'a>, Error>)
    ensures
        agrees(r, resolve(table_of(table), value@, fuel as nat)),
        value is Literal || value is Number ==> r == Ok::<Value<'a>, Error>(*value),
    decreases fuel, value, 0nat,
{
    match value {
        Value::Literal(_) => Ok(copy_value(value)),
        Value::Number(_) => Ok(copy_value(value)),
        Value::Variable(name) => match table_get(table, text_ref(name)) {
            None => Err(Error::UndefinedVariable(text_ref(name).to_owned())),
            Some(definition) => if fuel == 0 {
                Err(Error::CircularReference(text_ref(name).to_owned()))
            } else {
                expand_with(table, definition, fuel - 1)
            },
        },
        Value::Concat(parts) => {
            proof {
                lemma_concat_view(*parts);
            }
            let ghost models = value_views(parts@);
            let mut done: Vec<Value<'a>> = Vec::new();
            let mut i: usize = 0;
            assert(value_views(done@) =~= Seq::<ValueModel>::empty());
            while i < parts.len()
                invariant
                    i <= parts.len(),
                    models == value_views(parts@),
                    *value == Value::Concat(*parts),
                    value@ == ValueModel::Concat(models),
                    resolve_parts(table_of(table), models, i as nat, fuel as nat) == Ok::<
                        Seq<ValueModel>,
                        Resolved,
                    >(value_views(done@)),
                decreases parts.len() - i,
            {
                proof {
                    vstd::std_specs::vec::axiom_vec_index_decreases(**parts, i as int);
                    assert(decreases_to!(*value => value->Concat_0));
                }
                match expand_with(table, &parts[i], fuel) {
                    Ok(v) => {
                        proof {
                            assert(models[i as int] == parts@[i as int]@);
                            assert(value_views(done@.push(v)) =~= value_views(done@).push(v@));
                        }
                        done.push(v);
                    },
                    Err(e) => {
                        proof {
                            assert(models[i as int] == parts@[i as int]@);
                            assert(resolve_parts(
                                table_of(table),
                                models,
                                (i + 1) as nat,
                                fuel as nat,
                            ) is Err);
                            lemma_parts_failure(
                                table_of(table),
                                models,
                                (i + 1) as nat,
                                models.len(),
                                fuel as nat,
                            );
                        }
                        return Err(e);
                    },
                }
                i += 1;
            }
            if are_simple(done.as_slice()) {
                Ok(Value::Literal(Cow::Owned(concatenate_simple_values(done.as_slice()))))
            } else {
                proof {
                    lemma_concat_view(Box::new(done));
                }
                Ok(Value::Concat(Box::new(done)))
            }
        },
    }
}

/// Once a part fails, the failure stands however many parts follow.
pub proof fn lemma_parts_failure(
    table: Map<Seq<char>, ValueModel>,
    parts: Seq<ValueModel>,
    n: nat,
    m: nat,
    fuel: nat,
)
    requires
        n <= m <= parts.len(),
        resolve_parts(table, parts, n, fuel) is Err,
    ensures
        resolve_parts(table, parts, m, fuel) == resolve_parts(table, parts, n, fuel),
    decreases m - n,
{
    if n < m {
        lemma_parts_failure(table, parts, n, (m - 1) as nat, fuel);
    }
}

} // verus!
