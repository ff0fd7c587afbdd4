use indexmap::IndexMap;
use vstd::prelude::*;

verus! {

#[verifier::external_type_specification]
#[verifier::external_body]
#[verifier::reject_recursive_types(K)]
#[verifier::reject_recursive_types(V)]
#[verifier::reject_recursive_types(S)]
pub struct ExIndexMap<K, V, S>(IndexMap<K, V, S>);

/// The keys of a map from rules to nothing, in insertion order.
pub uninterp spec fn rule_keys(m: IndexMap<(usize, Vec<usize>), ()>) -> Seq<(usize, Seq<usize>)>;

/// Relies on indexmap's `IndexMap::new`: a new map has no key.
#[verifier::external_body]
pub(crate) fn new_rule_map() -> (m: IndexMap<(usize, Vec<usize>), ()>)
    ensures
        rule_keys(m) == Seq::<(usize, Seq<usize>)>::empty(),
{
    IndexMap::new()
}

/// Relies on indexmap's `IndexMap::insert_full`: a key already there keeps
/// its place and index; a new key goes last.
#[verifier::external_body]
pub(crate) fn insert_rule(m: &mut IndexMap<(usize, Vec<usize>), ()>, lhs: usize, rhs: Vec<usize>) -> (r: usize)
    ensures
        rule_keys(*old(m)).contains((lhs, rhs@)) ==> rule_keys(*final(m)) == rule_keys(*old(m)) && r < rule_keys(*old(m)).len()
            && rule_keys(*old(m))[r as int] == (lhs, rhs@),
        !rule_keys(*old(m)).contains((lhs, rhs@)) ==> rule_keys(*final(m)) == rule_keys(*old(m)).push((lhs, rhs@))
            && r == rule_keys(*old(m)).len(),
{
    m.insert_full((lhs, rhs), ()).0
}

/// Relies on indexmap's `IndexMap::get_index_of`: the index of the key, if
/// it is there.
#[verifier::external_body]
pub(crate) fn rule_position(m: &IndexMap<(usize, Vec<usize>), ()>, lhs: usize, rhs: &Vec<usize>) -> (r: Option<usize>)
    ensures
        match r {
            Some(i) => i < rule_keys(*m).len() && rule_keys(*m)[i as int] == (lhs, rhs@),
            None => !rule_keys(*m).contains((lhs, rhs@)),
        },
{
    m.get_index_of(&(lhs, rhs.clone()))
}

} // verus!
