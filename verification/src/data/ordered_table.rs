//! Mutable access to the values of the ordered table of the standard
//! library, for which Verus has no contract of its own.

use vstd::prelude::*;
use std::collections::BTreeMap;
use crate::data::key_order::key_at;

verus! {

/// Calls `BTreeMap::get_mut`: assumed to give a reference to the value stored
/// under `key` if there is one, so that what its holder leaves behind it is
/// the value stored under `key` afterwards, and to change nothing else.
#[verifier::external_body]
pub(crate) fn tree_get_mut<'a, T>(
    tree: &'a mut BTreeMap<(u32, u32), T>,
    key: (u32, u32),
) -> (found: Option<&'a mut T>)
    ensures
        match found {
            Some(value) => old(tree)@.contains_key(key) && *value == old(tree)@[key]
                && final(tree)@ == old(tree)@.insert(key, *final(value)),
            None => !old(tree)@.contains_key(key) && final(tree)@ == old(tree)@,
        },
{
    tree.get_mut(&key)
}

/// Calls `BTreeMap::values_mut` and collects the references that it hands
/// out: assumed to give one reference per entry, in ascending order of key,
/// each showing the value of its entry, so that what their holder leaves
/// behind them are the values of the entries afterwards, under the same keys.
#[verifier::external_body]
pub(crate) fn tree_values_mut<'a, T>(
    tree: &'a mut BTreeMap<(u32, u32), T>,
) -> (values: Vec<&'a mut T>)
    ensures
        values@.len() == old(tree)@.len(),
        forall|p: int|
            0 <= p < values@.len() ==> *(#[trigger] values@[p])
                == old(tree)@[key_at(old(tree)@.dom(), p)],
        final(tree)@.dom() == old(tree)@.dom(),
        forall|p: int|
            0 <= p < values@.len() ==> *final(#[trigger] values@[p])
                == final(tree)@[key_at(old(tree)@.dom(), p)],
{
    tree.values_mut().collect()
}

} // verus!
