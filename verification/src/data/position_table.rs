//! The hash table from stable keys to dense positions.
//!
//! The table is `parry`'s `utils::hashmap::HashMap`, which is the hash map of
//! `hashbrown` with a hasher of fixed seed. Verus cannot look into it: what it
//! holds is named [`positions`], and each operation on it is assumed to do to
//! that content what the documentation of the hash map says. Keys are pairs of
//! integers, so that equality and hashing are those of the standard library.

use vstd::prelude::*;

verus! {

/// A hash map of `parry` from the raw parts of a key to a position.
#[verifier::external_body]
#[derive(Debug)]
pub struct PositionTable {
    table: parry3d::utils::hashmap::HashMap<(u32, u32), u32>,
}

/// The entries that a table holds.
pub uninterp spec fn positions(table: PositionTable) -> Map<(u32, u32), u32>;

/// Calls `HashMap::default`, which creates an empty map: the table that comes
/// back is assumed to hold no entry.
#[verifier::external_body]
pub(crate) fn table_new() -> (table: PositionTable)
    ensures
        positions(table) == (Map::<(u32, u32), u32>::empty()),
{
    PositionTable { table: parry3d::utils::hashmap::HashMap::default() }
}

/// Calls `HashMap::clone`: the copy is assumed to hold the entries of the
/// table.
#[verifier::external_body]
pub(crate) fn table_clone(table: &PositionTable) -> (copy: PositionTable)
    ensures
        positions(copy) == positions(*table),
{
    PositionTable { table: table.table.clone() }
}

/// Calls `HashMap::clear`, which removes all key-value pairs: the table is
/// assumed to hold no entry afterwards.
#[verifier::external_body]
pub(crate) fn table_clear(table: &mut PositionTable)
    ensures
        positions(*final(table)) == (Map::<(u32, u32), u32>::empty()),
{
    table.table.clear();
}

/// Calls `HashMap::insert`, which inserts a key-value pair and updates the
/// value where the key is present: the table is assumed to hold `position`
/// under `key` afterwards, and its other entries as before.
#[verifier::external_body]
pub(crate) fn table_insert(table: &mut PositionTable, key: (u32, u32), position: u32)
    ensures
        positions(*final(table)) == positions(*old(table)).insert(key, position),
{
    table.table.insert(key, position);
}

/// Indexes the `HashMap` by `key`, which panics if the key is not present:
/// for a key that has an entry, the result is assumed to be the position that
/// the entry holds.
#[verifier::external_body]
pub(crate) fn table_index(table: &PositionTable, key: (u32, u32)) -> (position: u32)
    requires
        positions(*table).contains_key(key),
    ensures
        position == positions(*table)[key],
{
    table.table[&key]
}

} // verus!
