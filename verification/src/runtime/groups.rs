//! The multimap that groups descriptor positions by identity.
//!
//! The collection is `multimap::MultiMap`. Nothing here is proved of it: the
//! contracts below say what its methods do, and the graph builder is
//! verified against them.

use multimap::MultiMap;
use vstd::prelude::*;

verus! {

/// `multimap::MultiMap`, declared so that it can stand in signatures. Nothing
/// inside a value of it is visible to the verifier.
#[verifier::external_type_specification]
#[verifier::external_body]
#[verifier::reject_recursive_types(K)]
#[verifier::reject_recursive_types(V)]
#[verifier::reject_recursive_types(S)]
pub struct ExMultiMap<K, V, S>(MultiMap<K, V, S>);

/// What a multimap holds: for each key that is present, the vector of the
/// values inserted under it, in the order of their insertion. The wrappers
/// below speak of a multimap through this name only.
pub uninterp spec fn groups(map: MultiMap<u64, usize>) -> Map<u64, Seq<usize>>;

/// The contents of a multimap without keys.
pub open spec fn no_groups() -> Map<u64, Seq<usize>> {
    Map::empty()
}

/// The contents after inserting `value` under `key`: the value joins the end
/// of the key's list, or starts that list.
pub open spec fn with_member(contents: Map<u64, Seq<usize>>, key: u64, value: usize) -> Map<
    u64,
    Seq<usize>,
> {
    if contents.contains_key(key) {
        contents.insert(key, contents[key].push(value))
    } else {
        contents.insert(key, seq![value])
    }
}

/// `MultiMap::new`: a multimap without keys.
#[verifier::external_body]
pub(crate) fn new_groups() -> (fresh: MultiMap<u64, usize>)
    ensures
        groups(fresh) == no_groups(),
{
    MultiMap::new()
}

/// `MultiMap::insert`: pushes the value onto the key's vector, or inserts a
/// new vector holding it when the key is absent. Other keys are untouched.
#[verifier::external_body]
pub(crate) fn add_member(map: &mut MultiMap<u64, usize>, key: u64, value: usize)
    ensures
        groups(*final(map)) == with_member(groups(*old(map)), key, value),
{
    map.insert(key, value)
}

/// `MultiMap::remove`: takes the key out and returns its vector, or returns
/// `None` and changes nothing when the key is absent.
#[verifier::external_body]
pub(crate) fn take_group(map: &mut MultiMap<u64, usize>, key: u64) -> (group: Option<Vec<usize>>)
    ensures
        groups(*final(map)) == groups(*old(map)).remove(key),
        match group {
            Some(members) => groups(*old(map)).contains_key(key) && members@ == groups(
                *old(map),
            )[key],
            None => !groups(*old(map)).contains_key(key),
        },
{
    map.remove(&key)
}

/// `MultiMap::keys`, asked for its first item: some key of the multimap, in
/// no order that can be relied on, or `None` when the multimap has no key.
#[verifier::external_body]
pub(crate) fn any_key(map: &MultiMap<u64, usize>) -> (key: Option<u64>)
    ensures
        match key {
            Some(k) => groups(*map).contains_key(k),
            None => forall|k: u64| !groups(*map).contains_key(k),
        },
{
    map.keys().next().copied()
}

} // verus!
