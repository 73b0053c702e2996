//! The key index: which page holds the record of which key.
//!
//! The index is a `DashMap`. The verifier does not look inside it: what the
//! map holds has a name, `index_entries`, and each operation on it states
//! what it does to the entries. Whoever mutates the map holds it exclusively.

use vstd::prelude::*;
use dashmap::DashMap;

verus! {

#[verifier::external_type_specification]
#[verifier::external_body]
#[verifier::reject_recursive_types(K)]
#[verifier::reject_recursive_types(V)]
#[verifier::reject_recursive_types(S)]
pub struct ExDashMap<K, V, S>(DashMap<K, V, S>);

/// The entries of an index: the page id of each key that is in it.
pub uninterp spec fn index_entries(index: &DashMap<String, u64>) -> Map<Seq<char>, u64>;

/// A list of keys without repetitions that holds exactly the keys of `entries`.
pub open spec fn lists_keys(keys: Seq<Seq<char>>, entries: Map<Seq<char>, u64>) -> bool {
    &&& keys.no_duplicates()
    &&& forall|k: Seq<char>| keys.contains(k) <==> entries.contains_key(k)
}

/// Creates an empty index.
///
/// Trusted: calls `DashMap::new`, which returns a map without entries.
#[verifier::external_body]
pub(crate) fn index_new() -> (fresh: DashMap<String, u64>)
    ensures
        forall|k: Seq<char>| !index_entries(&fresh).contains_key(k),
{
    DashMap::new()
}

/// Looks a key up.
///
/// Trusted: calls `DashMap::get`, which returns a reference to the entry of
/// the key if the map holds one; the value is copied out of it.
#[verifier::external_body]
pub(crate) fn index_get(index: &DashMap<String, u64>, key: &str) -> (page_id: Option<u64>)
    ensures
        page_id == if index_entries(index).contains_key(key@) {
            Some(index_entries(index)[key@])
        } else {
            None
        },
{
    index.get(key).map(|entry| *entry.value())
}

/// Maps a key to a page, replacing the page it was mapped to before.
///
/// Trusted: calls `DashMap::insert`, which inserts the key and the value
/// and replaces the old value of a key that is present.
#[verifier::external_body]
pub(crate) fn index_insert(index: &mut DashMap<String, u64>, key: String, page_id: u64)
    ensures
        index_entries(final(index)) == index_entries(old(index)).insert(key@, page_id),
{
    index.insert(key, page_id);
}

/// Removes a key. Returns the page it was mapped to.
///
/// Trusted: calls `DashMap::remove`, which removes the entry of the key and
/// returns it if the map held one.
#[verifier::external_body]
pub(crate) fn index_remove(index: &mut DashMap<String, u64>, key: &str) -> (page_id: Option<u64>)
    ensures
        index_entries(final(index)) == index_entries(old(index)).remove(key@),
        page_id == if index_entries(old(index)).contains_key(key@) {
            Some(index_entries(old(index))[key@])
        } else {
            None
        },
{
    index.remove(key).map(|entry| entry.1)
}

/// Counts the keys.
///
/// Trusted: calls `DashMap::len`, which returns the number of entries.
#[verifier::external_body]
pub(crate) fn index_len(index: &DashMap<String, u64>) -> (n: usize)
    ensures
        n == index_entries(index).dom().len(),
{
    index.len()
}

/// Lists the keys, each once, in the order in which the map yields them.
///
/// Trusted: calls `DashMap::iter`, which visits every entry once; nothing
/// is claimed about the order.
#[verifier::external_body]
pub(crate) fn index_keys(index: &DashMap<String, u64>) -> (keys: Vec<String>)
    ensures
        lists_keys(keys.deep_view(), index_entries(index)),
{
    index.iter().map(|entry| entry.key().clone()).collect()
}

} // verus!
