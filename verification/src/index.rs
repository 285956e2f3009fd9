//! The index of an object under construction: a linked hash map from the
//! keys that the object holds to the places of their members.

use vstd::prelude::*;

verus! {

/// The linked hash map of `hashlink`, of which nothing but its name is known here.
#[verifier::external_type_specification]
#[verifier::external_body]
#[verifier::reject_recursive_types(K)]
#[verifier::reject_recursive_types(V)]
#[verifier::reject_recursive_types(S)]
pub struct ExLinkedHashMap<K, V, S>(hashlink::LinkedHashMap<K, V, S>);

/// The hash builder that a linked hash map of `hashlink` has where none is chosen.
#[verifier::external_type_specification]
#[verifier::external_body]
pub struct ExDefaultHashBuilder(hashlink::DefaultHashBuilder);

/// What an index holds: the keys that were put into it, each with the
/// place that was put there last.
pub uninterp spec fn index_places(index: hashlink::LinkedHashMap<std::string::String, usize>) -> Map<
    Seq<char>,
    usize,
>;

/// `hashlink::LinkedHashMap::new` makes a map that holds nothing.
#[verifier::external_body]
pub(crate) fn new_index() -> (r: hashlink::LinkedHashMap<std::string::String, usize>)
    ensures
        forall|key: Seq<char>| !index_places(r).contains_key(key),
{
    hashlink::LinkedHashMap::new()
}

/// `hashlink::LinkedHashMap::get` finds the value that the map holds for a
/// key that equals `key`, and nothing where it holds none.
#[verifier::external_body]
pub(crate) fn place_of(
    index: &hashlink::LinkedHashMap<std::string::String, usize>,
    key: &std::string::String,
) -> (place: Option<usize>)
    ensures
        place == if index_places(*index).contains_key(key@) {
            Some(index_places(*index)[key@])
        } else {
            None
        },
{
    index.get(key).copied()
}

/// `hashlink::LinkedHashMap::insert` puts `place` under `key`, in the stead
/// of the value that the map held for the key if it held one, and leaves
/// what the map holds for other keys as it is.
#[verifier::external_body]
pub(crate) fn set_place(
    index: &mut hashlink::LinkedHashMap<std::string::String, usize>,
    key: std::string::String,
    place: usize,
)
    ensures
        index_places(*final(index)) == index_places(*old(index)).insert(key@, place),
{
    index.insert(key, place);
}

} // verus!
