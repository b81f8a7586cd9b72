//! The shared keyspace: a `sled::Tree`, seen as a finite map from byte
//! strings to byte strings whose keys it keeps in byte-lexicographic order.
//!
//! A tree handle shares its contents with every clone of it. The library
//! never clones one: a writer owns the one handle it is given and writes
//! through `&mut`, and readers borrow it, so while a writer lives the borrow
//! checker keeps every other use of that handle out. The model holds as long
//! as the code that hands over the handle keeps no clone of it in use.
use vstd::prelude::*;

use crate::order;

verus! {

#[verifier::external_type_specification]
#[verifier::external_body]
pub struct ExTree(sled::Tree);

#[verifier::external_type_specification]
#[verifier::external_body]
pub struct ExSledError(sled::Error);

/// The entries that a tree holds, read through this handle.
pub uninterp spec fn tree_entries(tree: sled::Tree) -> Map<Seq<u8>, Seq<u8>>;

/// `k` is the least key of `entries` at or after `start`.
pub open spec fn is_first_from(entries: Map<Seq<u8>, Seq<u8>>, start: Seq<u8>, k: Seq<u8>) -> bool {
    &&& entries.contains_key(k)
    &&& order::lex_le(start, k)
    &&& forall|j: Seq<u8>|
        entries.contains_key(j) && order::lex_le(start, j) ==> order::lex_le(k, j)
}

/// No key of `entries` lies at or after `start`.
pub open spec fn none_from(entries: Map<Seq<u8>, Seq<u8>>, start: Seq<u8>) -> bool {
    forall|j: Seq<u8>| entries.contains_key(j) ==> !order::lex_le(start, j)
}

/// Relies on sled::Tree::get: the value stored under `key`, if any.
#[verifier::external_body]
pub(crate) fn tree_get(tree: &sled::Tree, key: &[u8]) -> (r: Result<Option<Vec<u8>>, sled::Error>)
    ensures
        r matches Ok(found) ==> (found is Some <==> tree_entries(*tree).contains_key(key@)),
        r matches Ok(Some(v)) ==> v@ == tree_entries(*tree)[key@],
{
    match tree.get(key) {
        Ok(Some(v)) => Ok(Some(v.to_vec())),
        Ok(None) => Ok(None),
        Err(e) => Err(e),
    }
}

/// Relies on sled::Tree::insert: `key` maps to `value` afterwards, other
/// entries are kept.
#[verifier::external_body]
pub(crate) fn tree_insert(tree: &mut sled::Tree, key: Vec<u8>, value: Vec<u8>) -> (r: Result<(), sled::Error>)
    ensures
        r is Ok ==> tree_entries(*final(tree)) == tree_entries(*old(tree)).insert(key@, value@),
{
    match tree.insert(key, value) {
        Ok(_) => Ok(()),
        Err(e) => Err(e),
    }
}

/// Relies on sled::Tree::remove: `key` is gone afterwards, other entries are
/// kept, and the value it held comes back.
#[verifier::external_body]
pub(crate) fn tree_remove(tree: &mut sled::Tree, key: &[u8]) -> (r: Result<Option<Vec<u8>>, sled::Error>)
    ensures
        r is Ok ==> tree_entries(*final(tree)) == tree_entries(*old(tree)).remove(key@),
        r matches Ok(found) ==> (found is Some <==> tree_entries(*old(tree)).contains_key(key@)),
        r matches Ok(Some(v)) ==> v@ == tree_entries(*old(tree))[key@],
{
    match tree.remove(key) {
        Ok(Some(v)) => Ok(Some(v.to_vec())),
        Ok(None) => Ok(None),
        Err(e) => Err(e),
    }
}

/// Relies on sled::Tree::range with an open upper end: its first item is
/// the entry with the least key at or after `start`, keys ordered as byte
/// slices.
#[verifier::external_body]
pub(crate) fn tree_first_from(tree: &sled::Tree, start: &[u8]) -> (r: Result<Option<(Vec<u8>, Vec<u8>)>, sled::Error>)
    ensures
        r matches Ok(Some(kv)) ==> is_first_from(tree_entries(*tree), start@, kv.0@) && kv.1@
            == tree_entries(*tree)[kv.0@],
        r matches Ok(None) ==> none_from(tree_entries(*tree), start@),
{
    match tree.range(start.to_vec()..).next() {
        Some(Ok((k, v))) => Ok(Some((k.to_vec(), v.to_vec()))),
        None => Ok(None),
        Some(Err(e)) => Err(e),
    }
}

} // verus!
