//! The macro table: a hash map from macro names to their values, kept in an
//! `ahash::AHashMap`. Verus does not look inside the map; what it holds is
//! named by [`table_of`], and every operation the library performs on it is
//! stated over that name.

use vstd::prelude::*;
use ahash::AHashMap;
use std::borrow::Cow;
use crate::model::{Value, ValueModel};

verus! {

/// `ahash::RandomState`, the hasher state of an `AHashMap`.
#[verifier::external_type_specification]
#[verifier::external_body]
pub struct ExRandomState(ahash::RandomState);

/// `ahash::AHashMap`, a `HashMap` with the `ahash` hasher.
#[verifier::external_type_specification]
#[verifier::external_body]
#[verifier::reject_recursive_types(K)]
#[verifier::reject_recursive_types(V)]
#[verifier::reject_recursive_types(S)]
pub struct ExAHashMap<K, V, S>(AHashMap<K, V, S>);

/// What a macro table holds: for each name, the view of its value.
pub uninterp spec fn table_of(m: &AHashMap<Cow<'_, str>, Value<'_>>) -> Map<Seq<char>, ValueModel>;

/// What a table of counters holds: for each name, its count.
pub uninterp spec fn counts_of(m: &AHashMap<String, usize>) -> Map<Seq<char>, nat>;

/// The table that holds nothing.
pub open spec fn no_macros() -> Map<Seq<char>, ValueModel> {
    Map::empty()
}

/// The table of counters that holds nothing.
pub open spec fn no_counts() -> Map<Seq<char>, nat> {
    Map::empty()
}

/// Does the table hold exactly `n` names?
pub open spec fn has_size(t: Map<Seq<char>, ValueModel>, n: nat) -> bool {
    t.dom().finite() && t.dom().len() == n
}

/// `AHashMap::new`: a map that holds nothing.
#[verifier::external_body]
pub(crate) fn table_new<'a>() -> (table: AHashMap<Cow<'a, str>, Value<'a>>)
    ensures
        table_of(&table) == no_macros(),
{
    AHashMap::new()
}

/// `AHashMap::insert`: afterwards the map holds `value` under `name`, in place of
/// what it may have held under an equal name, and everything else as before.
#[verifier::external_body]
pub(crate) fn table_insert<'a>(
    m: &mut AHashMap<Cow<'a, str>, Value<'a>>,
    name: Cow<'a, str>,
    value: Value<'a>,
)
    ensures
        table_of(final(m)) == table_of(old(m)).insert(name@, value@),
{
    m.insert(name, value);
}

/// `AHashMap::get`: the value held under `name`, if there is one.
#[verifier::external_body]
pub(crate) fn table_get<'m, 'a>(m: &'m AHashMap<Cow<'a, str>, Value<'a>>, name: &str) -> (r:
    Option<&'m Value<'a>>)
    ensures
        r is Some <==> table_of(m).contains_key(name@),
        r matches Some(v) ==> v@ == table_of(m)[name@],
{
    m.get(name)
}

/// `HashMap::len`, reached through `AHashMap`'s `Deref`: the number of names held,
/// which is finite.
#[verifier::external_body]
pub(crate) fn table_len(m: &AHashMap<Cow<'_, str>, Value<'_>>) -> (n: usize)
    ensures
        has_size(table_of(m), n as nat),
{
    m.len()
}

/// `AHashMap::extend` with another map: every pair of `other` is inserted, so
/// a name that both hold ends with the value from `other`.
#[verifier::external_body]
pub(crate) fn table_extend<'a>(
    m: &mut AHashMap<Cow<'a, str>, Value<'a>>,
    other: AHashMap<Cow<'a, str>, Value<'a>>,
)
    ensures
        table_of(final(m)) == table_of(old(m)).union_prefer_right(table_of(&other)),
{
    m.extend(other);
}

/// `AHashMap`'s `Clone`: a map that holds what `m` holds.
#[verifier::external_body]
pub(crate) fn table_clone<'a>(m: &AHashMap<Cow<'a, str>, Value<'a>>) -> (copy: AHashMap<
    Cow<'a, str>,
    Value<'a>,
>)
    ensures
        table_of(&copy) == table_of(m),
{
    m.clone()
}

/// `AHashMap`'s `Clone` on a table of counters: a map that holds what `m` holds.
#[verifier::external_body]
pub(crate) fn counts_clone(m: &AHashMap<String, usize>) -> (copy: AHashMap<String, usize>)
    ensures
        counts_of(&copy) == counts_of(m),
{
    m.clone()
}

/// Do the pairs list what the map `t` holds, each name once, in some order?
pub open spec fn lists_table(pairs: Seq<(Seq<char>, ValueModel)>, t: Map<Seq<char>, ValueModel>)
    -> bool {
    &&& forall|i: int|
        0 <= i < pairs.len() ==> t.contains_key(#[trigger] pairs[i].0) && t[pairs[i].0]
            == pairs[i].1
    &&& forall|i: int, j: int|
        0 <= i < j < pairs.len() ==> #[trigger] pairs[i].0 != #[trigger] pairs[j].0
    &&& forall|k: Seq<char>|
        t.contains_key(k) ==> exists|i: int| 0 <= i < pairs.len() && #[trigger] pairs[i].0 == k
}

/// The views of a list of pairs.
pub open spec fn pair_views(pairs: Seq<(&Cow<'_, str>, &Value<'_>)>) -> Seq<
    (Seq<char>, ValueModel),
> {
    Seq::new(pairs.len(), |i: int| (pairs[i].0@, pairs[i].1@))
}

/// `AHashMap`'s iterator, collected: every pair the map holds, once each. The
/// order is that of the hash map and is not specified.
#[verifier::external_body]
pub(crate) fn table_pairs<'m, 'a>(m: &'m AHashMap<Cow<'a, str>, Value<'a>>) -> (pairs: Vec<
    (&'m Cow<'a, str>, &'m Value<'a>),
>)
    ensures
        lists_table(pair_views(pairs@), table_of(m)),
{
    m.iter().collect()
}

/// What a table of values keyed by borrowed names holds.
pub uninterp spec fn lookup_of(m: &AHashMap<&str, Value<'_>>) -> Map<Seq<char>, ValueModel>;

/// `AHashMap::get` on a table keyed by borrowed names: the value held under `name`, if
/// there is one.
#[verifier::external_body]
pub(crate) fn lookup_get<'m, 'k, 'a>(m: &'m AHashMap<&'k str, Value<'a>>, name: &str) -> (r:
    Option<&'m Value<'a>>)
    ensures
        r is Some <==> lookup_of(m).contains_key(name@),
        r matches Some(v) ==> v@ == lookup_of(m)[name@],
{
    m.get(name)
}

/// `HashMap::len`, reached through `AHashMap`'s `Deref`, on a table keyed by borrowed
/// names: the number of names held, which is finite.
#[verifier::external_body]
pub(crate) fn lookup_len(m: &AHashMap<&str, Value<'_>>) -> (n: usize)
    ensures
        has_size(lookup_of(m), n as nat),
{
    m.len()
}

/// `AHashMap::new`: a table of counters that holds nothing.
#[verifier::external_body]
pub(crate) fn counts_new() -> (counts: AHashMap<String, usize>)
    ensures
        counts_of(&counts) == no_counts(),
{
    AHashMap::new()
}

/// `AHashMap::get` on a table of counters: the count held under `name`, if there is one.
#[verifier::external_body]
pub(crate) fn counts_get(m: &AHashMap<String, usize>, name: &str) -> (r: Option<usize>)
    ensures
        r is Some <==> counts_of(m).contains_key(name@),
        r matches Some(n) ==> n == counts_of(m)[name@],
{
    m.get(name).copied()
}

/// `AHashMap::insert` on a table of counters: afterwards the map holds `count` under `name`.
#[verifier::external_body]
pub(crate) fn counts_insert(m: &mut AHashMap<String, usize>, name: String, count: usize)
    ensures
        counts_of(final(m)) == counts_of(old(m)).insert(name@, count as nat),
{
    m.insert(name, count);
}

} // verus!
