//! The ordered map and set of the `indexmap` crate, as the analysis uses them:
//! rules keyed by name in declaration order, and sets of names or terminals.

use crate::analysis::{find_rule, lookup};
use crate::grammar::Expr;
use indexmap::{IndexMap, IndexSet};
use vstd::prelude::*;

verus! {

#[verifier::external_type_specification]
#[verifier::external_body]
#[verifier::reject_recursive_types(K)]
#[verifier::reject_recursive_types(V)]
#[verifier::reject_recursive_types(S)]
pub struct ExIndexMap<K, V, S>(IndexMap<K, V, S>);

#[verifier::external_type_specification]
#[verifier::external_body]
#[verifier::reject_recursive_types(T)]
#[verifier::reject_recursive_types(S)]
pub struct ExIndexSet<T, S>(IndexSet<T, S>);

/// The entries of a rule map in their order: each key's text with its value.
pub uninterp spec fn rule_entries(m: IndexMap<String, Expr>) -> Seq<(Seq<char>, Expr)>;

/// The values of a name set in their order, by their text.
pub uninterp spec fn set_items(s: IndexSet<String>) -> Seq<Seq<char>>;

/// Relies on `IndexMap::new`: a map with no entries.
#[verifier::external_body]
pub(crate) fn rules_new() -> (r: IndexMap<String, Expr>)
    ensures
        rule_entries(r) == Seq::<(Seq<char>, Expr)>::empty(),
{
    IndexMap::new()
}

/// Relies on `IndexMap::insert`: a key already present keeps its place and
/// takes the new value; a new key is added last.
#[verifier::external_body]
pub(crate) fn rules_insert(m: &mut IndexMap<String, Expr>, key: String, value: Expr)
    ensures
        find_rule(rule_entries(*old(m)), key@, 0) >= 0 ==> rule_entries(*final(m)) == rule_entries(
            *old(m),
        ).update(find_rule(rule_entries(*old(m)), key@, 0), (key@, value)),
        find_rule(rule_entries(*old(m)), key@, 0) < 0 ==> rule_entries(*final(m)) == rule_entries(
            *old(m),
        ).push((key@, value)),
{
    m.insert(key, value);
}

/// Relies on `IndexMap::get`: the value stored under `key`, if any.
#[verifier::external_body]
pub(crate) fn rules_get<'a>(m: &'a IndexMap<String, Expr>, key: &str) -> (r: Option<
    &'a Expr,
>)
    ensures
        r matches Some(e) ==> lookup(rule_entries(*m), key@) == Some(*e),
        r is None <==> lookup(rule_entries(*m), key@) is None,
{
    m.get(key)
}

/// Relies on `IndexMap::get_index`: the entry at position `i`, if any.
#[verifier::external_body]
pub(crate) fn rules_get_index<'a>(m: &'a IndexMap<String, Expr>, i: usize) -> (r: Option<
    (&'a String, &'a Expr),
>)
    ensures
        r is Some <==> i < rule_entries(*m).len(),
        r matches Some((k, e)) ==> k@ == rule_entries(*m)[i as int].0 && *e == rule_entries(
            *m,
        )[i as int].1,
{
    m.get_index(i)
}

/// Relies on `IndexMap::len`: the number of entries.
#[verifier::external_body]
pub(crate) fn rules_len(m: &IndexMap<String, Expr>) -> (r: usize)
    ensures
        r == rule_entries(*m).len(),
{
    m.len()
}

/// Relies on `IndexSet::new`: a set with no values.
#[verifier::external_body]
pub(crate) fn names_new() -> (r: IndexSet<String>)
    ensures
        set_items(r) == Seq::<Seq<char>>::empty(),
{
    IndexSet::new()
}

/// Relies on `IndexSet::insert`: a value already present leaves the set as it
/// is and gives `false`; a new one is added last and gives `true`.
#[verifier::external_body]
pub(crate) fn names_insert(s: &mut IndexSet<String>, value: String) -> (r: bool)
    ensures
        r == !set_items(*old(s)).contains(value@),
        r ==> set_items(*final(s)) == set_items(*old(s)).push(value@),
        !r ==> set_items(*final(s)) == set_items(*old(s)),
{
    s.insert(value)
}

/// Relies on `IndexSet::contains`.
#[verifier::external_body]
pub(crate) fn names_contains(s: &IndexSet<String>, value: &str) -> (r: bool)
    ensures
        r == set_items(*s).contains(value@),
{
    s.contains(value)
}

/// Relies on `IndexSet::swap_remove`: the value is no longer in the set, and
/// the result says whether it was.
#[verifier::external_body]
pub(crate) fn names_swap_remove(s: &mut IndexSet<String>, value: &str) -> (r: bool)
    ensures
        r == set_items(*old(s)).contains(value@),
        set_items(*final(s)).to_set() == set_items(*old(s)).to_set().remove(value@),
{
    s.swap_remove(value)
}

/// Relies on `IndexSet::get_index`: the value at position `i`, if any.
#[verifier::external_body]
pub(crate) fn names_get_index(s: &IndexSet<String>, i: usize) -> (r: Option<
    &String,
>)
    ensures
        r is Some <==> i < set_items(*s).len(),
        r matches Some(v) ==> v@ == set_items(*s)[i as int],
{
    s.get_index(i)
}

/// Relies on `IndexSet::len`: the number of values.
#[verifier::external_body]
pub(crate) fn names_len(s: &IndexSet<String>) -> (r: usize)
    ensures
        r == set_items(*s).len(),
{
    s.len()
}

/// Relies on `IndexSet`'s `Clone`: the same values in the same order.
#[verifier::external_body]
pub(crate) fn names_clone(s: &IndexSet<String>) -> (r: IndexSet<String>)
    ensures
        set_items(r) == set_items(*s),
{
    s.clone()
}

} // verus!
