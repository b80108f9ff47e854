//! Laws of value resolution and of case-insensitive lookup, proved from the
//! definitions that the contracts of the library use.

use vstd::prelude::*;
use crate::resolve::{
    all_simple, combine, concat_text, resolve, resolve_parts, simple, Resolved,
};
use crate::model::{field_index, kind_of, EntryKind, EntryModel, ValueModel};
use crate::text::lowercase;

verus! {

/// A literal or a number resolves to itself, whatever the macro table holds.
pub proof fn law_simple_values_pass_through(
    table: Map<Seq<char>, ValueModel>,
    v: ValueModel,
    fuel: nat,
)
    requires
        simple(v),
    ensures
        resolve(table, v, fuel) == Resolved::Value(v),
{
}

/// The parts of a concatenation of literals and numbers resolve to themselves.
proof fn lemma_simple_parts(
    table: Map<Seq<char>, ValueModel>,
    parts: Seq<ValueModel>,
    n: nat,
    fuel: nat,
)
    requires
        n <= parts.len(),
        all_simple(parts),
    ensures
        resolve_parts(table, parts, n, fuel) == Ok::<Seq<ValueModel>, Resolved>(
            parts.subrange(0, n as int),
        ),
    decreases n,
{
    if n > 0 {
        lemma_simple_parts(table, parts, (n - 1) as nat, fuel);
        assert(simple(parts[n - 1]));
        assert(resolve(table, parts[n - 1], fuel) == Resolved::Value(parts[n - 1]));
        assert(parts.subrange(0, n - 1).push(parts[n - 1]) =~= parts.subrange(0, n as int));
    } else {
        assert(parts.subrange(0, 0) =~= Seq::<ValueModel>::empty());
    }
}

/// A concatenation of literals and numbers resolves to one literal: the
/// texts of its parts, numbers in decimal, one after the other in the order
/// of the parts.
pub proof fn law_concatenation_is_determined(
    table: Map<Seq<char>, ValueModel>,
    parts: Seq<ValueModel>,
    fuel: nat,
)
    requires
        all_simple(parts),
    ensures
        resolve(table, ValueModel::Concat(parts), fuel) == Resolved::Value(
            ValueModel::Literal(concat_text(parts, parts.len())),
        ),
{
    lemma_simple_parts(table, parts, parts.len(), fuel);
    assert(parts.subrange(0, parts.len() as int) =~= parts);
}

/// A variable resolves to what the value of its macro resolves to.
pub proof fn law_variable_follows_its_macro(
    table: Map<Seq<char>, ValueModel>,
    name: Seq<char>,
    fuel: nat,
)
    requires
        table.contains_key(name),
        fuel > 0,
    ensures
        resolve(table, ValueModel::Variable(name), fuel) == resolve(
            table,
            table[name],
            (fuel - 1) as nat,
        ),
{
}

/// A macro defined as another macro resolves to the value of that other
/// macro, and follows it when that value is changed.
pub proof fn law_macro_indirection(
    table: Map<Seq<char>, ValueModel>,
    outer: Seq<char>,
    inner: Seq<char>,
    changed: ValueModel,
    fuel: nat,
)
    requires
        table.contains_key(outer),
        table.contains_key(inner),
        table[outer] == ValueModel::Variable(inner),
        simple(table[inner]),
        simple(changed),
        fuel >= 2,
    ensures
        resolve(table, ValueModel::Variable(outer), fuel) == Resolved::Value(table[inner]),
        resolve(table.insert(inner, changed), ValueModel::Variable(outer), fuel)
            == Resolved::Value(changed),
{
    assert(resolve(table, table[inner], (fuel - 2) as nat) == Resolved::Value(table[inner]));
    assert(resolve(table, ValueModel::Variable(inner), (fuel - 1) as nat) == Resolved::Value(
        table[inner],
    ));
    let after = table.insert(inner, changed);
    assert(outer != inner);
    assert(after[outer] == ValueModel::Variable(inner));
    assert(resolve(after, after[inner], (fuel - 2) as nat) == Resolved::Value(changed));
    assert(resolve(after, ValueModel::Variable(inner), (fuel - 1) as nat) == Resolved::Value(
        changed,
    ));
}

/// A variable whose name the macro table does not hold fails to resolve,
/// and the failure names that variable.
pub proof fn law_undefined_variable(table: Map<Seq<char>, ValueModel>, name: Seq<char>, fuel: nat)
    requires
        !table.contains_key(name),
    ensures
        resolve(table, ValueModel::Variable(name), fuel) == Resolved::Undefined(name),
{
}

/// What a value resolves to is a literal or a number: no variable and no
/// concatenation is left after resolution.
pub proof fn law_resolved_is_simple(table: Map<Seq<char>, ValueModel>, v: ValueModel, fuel: nat)
    ensures
        resolve(table, v, fuel) matches Resolved::Value(r) ==> simple(r),
    decreases fuel, v, 0nat,
{
    match v {
        ValueModel::Literal(_) => {
            assert(resolve(table, v, fuel) == Resolved::Value(v));
        },
        ValueModel::Number(_) => {
            assert(resolve(table, v, fuel) == Resolved::Value(v));
        },
        ValueModel::Variable(name) => {
            if table.contains_key(name) && fuel > 0 {
                law_resolved_is_simple(table, table[name], (fuel - 1) as nat);
                assert(resolve(table, v, fuel) == resolve(table, table[name], (fuel - 1) as nat));
            } else if table.contains_key(name) {
                assert(resolve(table, v, fuel) is Circular);
            } else {
                assert(resolve(table, v, fuel) is Undefined);
            }
        },
        ValueModel::Concat(parts) => {
            lemma_resolved_parts_are_simple(table, parts, parts.len(), fuel);
            match resolve_parts(table, parts, parts.len(), fuel) {
                Ok(done) => {
                    assert(combine(done) is Literal);
                    assert(resolve(table, v, fuel) == Resolved::Value(combine(done)));
                },
                Err(failure) => {
                    lemma_parts_fail_without_value(table, parts, parts.len(), fuel);
                    assert(resolve(table, v, fuel) == failure);
                },
            }
        },
    }
}

proof fn lemma_parts_fail_without_value(
    table: Map<Seq<char>, ValueModel>,
    parts: Seq<ValueModel>,
    n: nat,
    fuel: nat,
)
    ensures
        resolve_parts(table, parts, n, fuel) matches Err(failure) ==> !(failure is Value),
    decreases n,
{
    if n > 0 && n <= parts.len() {
        lemma_parts_fail_without_value(table, parts, (n - 1) as nat, fuel);
    }
}

proof fn lemma_resolved_parts_are_simple(
    table: Map<Seq<char>, ValueModel>,
    parts: Seq<ValueModel>,
    n: nat,
    fuel: nat,
)
    requires
        n <= parts.len(),
    ensures
        resolve_parts(table, parts, n, fuel) matches Ok(done) ==> all_simple(done) && done.len()
            == n,
    decreases fuel, parts, n,
{
    if n > 0 {
        lemma_resolved_parts_are_simple(table, parts, (n - 1) as nat, fuel);
        law_resolved_is_simple(table, parts[n - 1], fuel);
    }
}

/// Fuel that was enough stays enough: a resolution that did not run out of
/// fuel gives the same result with more.
pub proof fn law_more_fuel_changes_nothing(
    table: Map<Seq<char>, ValueModel>,
    v: ValueModel,
    fuel: nat,
)
    requires
        !(resolve(table, v, fuel) is Circular),
    ensures
        resolve(table, v, fuel + 1) == resolve(table, v, fuel),
    decreases fuel, v, 0nat,
{
    match v {
        ValueModel::Literal(_) => {},
        ValueModel::Number(_) => {},
        ValueModel::Variable(name) => {
            if table.contains_key(name) {
                assert(fuel > 0);
                law_more_fuel_changes_nothing(table, table[name], (fuel - 1) as nat);
            }
        },
        ValueModel::Concat(parts) => {
            lemma_more_fuel_for_parts(table, parts, parts.len(), fuel);
        },
    }
}

proof fn lemma_more_fuel_for_parts(
    table: Map<Seq<char>, ValueModel>,
    parts: Seq<ValueModel>,
    n: nat,
    fuel: nat,
)
    requires
        n <= parts.len(),
        !(resolve_parts(table, parts, n, fuel) matches Err(Resolved::Circular(_))),
    ensures
        resolve_parts(table, parts, n, fuel + 1) == resolve_parts(table, parts, n, fuel),
    decreases fuel, parts, n,
{
    if n > 0 {
        lemma_more_fuel_for_parts(table, parts, (n - 1) as nat, fuel);
        if resolve_parts(table, parts, (n - 1) as nat, fuel) is Ok {
            law_more_fuel_changes_nothing(table, parts[n - 1], fuel);
        }
    }
}

/// Two type names that differ only in case stand for the same entry type,
/// unless both are custom types, which keep their names as written.
pub proof fn law_type_ignores_case(a: Seq<char>, b: Seq<char>)
    requires
        lowercase(a) == lowercase(b),
    ensures
        kind_of(a) == kind_of(b) || (kind_of(a) == EntryKind::Custom(a) && kind_of(b)
            == EntryKind::Custom(b)),
{
}

/// Looking a field up by name ignores case: two names that are equal once
/// lower-cased find the same field.
pub proof fn law_lookup_ignores_case(entry: EntryModel, a: Seq<char>, b: Seq<char>)
    requires
        lowercase(a) == lowercase(b),
    ensures
        entry.lookup(a) == entry.lookup(b),
        entry.literal(a) == entry.literal(b),
        entry.text(a) == entry.text(b),
{
}

/// A field is found under any spelling of its own name: the lookup
/// compares names in lower case, so the first field whose name is equal to
/// the given one up to case is the one found.
pub proof fn law_lookup_finds_first(entry: EntryModel, name: Seq<char>, i: int)
    requires
        0 <= i < entry.fields.len(),
        lowercase(entry.fields[i].name) == lowercase(name),
        forall|j: int| 0 <= j < i ==> lowercase(entry.fields[j].name) != lowercase(name),
    ensures
        entry.lookup(name) == Some(entry.fields[i].value),
{
    lemma_index_skips(entry, lowercase(name), 0, i);
}

proof fn lemma_index_skips(entry: EntryModel, key: Seq<char>, from: int, i: int)
    requires
        0 <= from <= i < entry.fields.len(),
        lowercase(entry.fields[i].name) == key,
        forall|j: int| from <= j < i ==> lowercase(entry.fields[j].name) != key,
    ensures
        field_index(entry.fields, key, from) == Some(i),
    decreases i - from,
{
    if from < i {
        lemma_index_skips(entry, key, from + 1, i);
    }
}

/// Does the value `v` hold the variable `name`, at any depth?
pub open spec fn mentions(v: ValueModel, name: Seq<char>) -> bool
    decreases v,
{
    match v {
        ValueModel::Variable(n) => n == name,
        ValueModel::Concat(parts) => exists|i: int|
            0 <= i < parts.len() && mentions(#[trigger] parts[i], name),
        _ => false,
    }
}

/// Is `path` a chain of macros that starts in the value `v`: the first is a
/// variable of `v`, each of the others a variable of the macro before it,
/// and the table holds them all?
pub open spec fn is_chain(table: Map<Seq<char>, ValueModel>, v: ValueModel, path: Seq<Seq<char>>)
    -> bool {
    &&& path.len() > 0
    &&& mentions(v, path[0])
    &&& forall|i: int| 0 <= i < path.len() ==> table.contains_key(#[trigger] path[i])
    &&& forall|i: int|
        0 <= i < path.len() - 1 ==> mentions(table[#[trigger] path[i]], path[i + 1])
}

/// Does the macro `name` lead back to itself through the variables of its value?
pub open spec fn leads_to_itself(table: Map<Seq<char>, ValueModel>, name: Seq<char>) -> bool {
    table.contains_key(name) && exists|path: Seq<Seq<char>>|
        is_chain(table, table[name], path) && path.last() == name
}

/// A resolution that runs out of fuel has followed a chain of one macro more
/// than it had fuel, ending in the macro that it reports.
proof fn lemma_out_of_fuel_chain(table: Map<Seq<char>, ValueModel>, v: ValueModel, fuel: nat) -> (path:
    Seq<Seq<char>>)
    requires
        resolve(table, v, fuel) is Circular,
    ensures
        is_chain(table, v, path),
        path.len() == fuel + 1,
        resolve(table, v, fuel) == Resolved::Circular(path.last()),
    decreases fuel, v, 0nat,
{
    match v {
        ValueModel::Variable(name) => {
            if fuel == 0 {
                seq![name]
            } else {
                let rest = lemma_out_of_fuel_chain(table, table[name], (fuel - 1) as nat);
                let path = seq![name] + rest;
                assert forall|i: int| 0 <= i < path.len() - 1 implies mentions(
                    table[#[trigger] path[i]],
                    path[i + 1],
                ) by {
                    if i > 0 {
                        assert(path[i] == rest[i - 1]);
                        assert(path[i + 1] == rest[i]);
                    }
                }
                assert forall|i: int| 0 <= i < path.len() implies table.contains_key(
                    #[trigger] path[i],
                ) by {
                    if i > 0 {
                        assert(path[i] == rest[i - 1]);
                    }
                }
                path
            }
        },
        ValueModel::Concat(parts) => {
            let i = lemma_out_of_fuel_part(table, parts, parts.len(), fuel);
            let path = lemma_out_of_fuel_chain(table, parts[i], fuel);
            assert(mentions(parts[i], path[0]));
            path
        },
        _ => Seq::empty(),
    }
}

/// When the parts of a concatenation run out of fuel, one of them does.
proof fn lemma_out_of_fuel_part(
    table: Map<Seq<char>, ValueModel>,
    parts: Seq<ValueModel>,
    n: nat,
    fuel: nat,
) -> (i: int)
    requires
        n <= parts.len(),
        resolve_parts(table, parts, n, fuel) matches Err(Resolved::Circular(_)),
    ensures
        0 <= i < n,
        resolve_parts(table, parts, n, fuel) == Err::<Seq<ValueModel>, Resolved>(
            resolve(table, parts[i], fuel),
        ),
    decreases n,
{
    if resolve_parts(table, parts, (n - 1) as nat, fuel) is Err {
        lemma_out_of_fuel_part(table, parts, (n - 1) as nat, fuel)
    } else {
        n - 1
    }
}

/// A chain longer than the table has macros passes through some macro twice.
proof fn lemma_chain_repeats(table: Map<Seq<char>, ValueModel>, path: Seq<Seq<char>>) -> (at: (
    int,
    int,
))
    requires
        table.dom().finite(),
        path.len() > table.dom().len(),
        forall|i: int| 0 <= i < path.len() ==> table.contains_key(#[trigger] path[i]),
    ensures
        0 <= at.0 < at.1 < path.len(),
        path[at.0] == path[at.1],
{
    if path.no_duplicates() {
        path.unique_seq_to_set();
        assert(path.to_set().subset_of(table.dom())) by {
            assert forall|name: Seq<char>| path.to_set().contains(name) implies table.dom().contains(
                name,
            ) by {
                let i = choose|i: int| 0 <= i < path.len() && path[i] == name;
                assert(table.contains_key(path[i]));
            }
        }
        vstd::set_lib::lemma_len_subset(path.to_set(), table.dom());
        (0, 0)
    } else {
        let (i, j) = choose|i: int, j: int|
            0 <= i < path.len() && 0 <= j < path.len() && i != j && path[i] == path[j];
        if i < j {
            (i, j)
        } else {
            (j, i)
        }
    }
}

/// A circular reference is reported only where there is one: when a value
/// runs out of fuel against a table with as much fuel as it has macros, some
/// macro of the table leads back to itself. A table without such a macro
/// never gives this failure, however long its chains of macros are.
pub proof fn law_circular_only_with_a_cycle(table: Map<Seq<char>, ValueModel>, v: ValueModel)
    requires
        table.dom().finite(),
        resolve(table, v, table.dom().len()) is Circular,
    ensures
        exists|name: Seq<char>| leads_to_itself(table, name),
{
    let path = lemma_out_of_fuel_chain(table, v, table.dom().len());
    let (i, j) = lemma_chain_repeats(table, path);
    let name = path[i];
    let cycle = path.subrange(i + 1, j + 1);
    assert(cycle.len() == j - i);
    assert(cycle[0] == path[i + 1]);
    assert(cycle.last() == path[j]);
    assert forall|k: int| 0 <= k < cycle.len() implies table.contains_key(#[trigger] cycle[k]) by {
        assert(cycle[k] == path[i + 1 + k]);
    }
    assert forall|k: int| 0 <= k < cycle.len() - 1 implies mentions(
        table[#[trigger] cycle[k]],
        cycle[k + 1],
    ) by {
        assert(cycle[k] == path[i + 1 + k]);
        assert(cycle[k + 1] == path[i + 1 + k + 1]);
    }
    assert(mentions(table[path[i]], path[i + 1]));
    assert(is_chain(table, table[name], cycle));
    assert(leads_to_itself(table, name));
}

} // verus!
