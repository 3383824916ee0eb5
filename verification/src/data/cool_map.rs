//! An ordered map that gives each entry a stable key and a dense position.
//!
//! A [`CoolMap`] keeps its entries in an ordered table and, beside it, two
//! tables that lead from keys to dense positions and back. The two are made
//! anew from the ordered table after every change of the key set, so that
//! they never depend on the order in which the entries came. The map also
//! remembers, for each base label, the first disambiguator that no key of the
//! label has had: the keys that it gives out are numbered from there upwards,
//! so that no key is given out twice.

use vstd::prelude::*;
use std::cmp::Ordering;
use std::collections::BTreeMap;
use vstd::std_specs::cmp::PartialOrdSpecImpl;
use vstd::std_specs::btree::spec_keys_iter;
use vstd::std_specs::iter::IteratorSpec;
use crate::INVALID_U32;
use crate::data::key_order::{
    ascending_no_duplicates, below_free, dense_order, dense_order_is, increasing_is_ascending,
    key_at, law_key_then_position, law_position_is_rank, law_position_then_key, listed_len, lists,
    position_of, precedes, rank,
};
use crate::data::ordered_table::{tree_get_mut, tree_values_mut};
use crate::data::position_table::{
    positions, table_clear, table_clone, table_index, table_insert, table_new, PositionTable,
};

verus! {

broadcast use {vstd::laws_cmp::group_laws_cmp, vstd::std_specs::btree::group_btree_axioms};

/// The stable identifier of an entry of a [`CoolMap`].
///
/// Its view is the pair of its raw parts, the base label first.
#[derive(Clone, Copy, Debug, PartialEq, Eq, Structural, Ord, Hash)]
pub struct CoolKey {
    base: u32,
    disambiguator: u32,
}

impl View for CoolKey {
    type V = (u32, u32);

    closed spec fn view(&self) -> (u32, u32) {
        (self.base, self.disambiguator)
    }
}

impl PartialOrd for CoolKey {
    /// Compares by base label first and by disambiguator second.
    fn partial_cmp(&self, other: &Self) -> (order: Option<Ordering>) {
        if self.base < other.base {
            Some(Ordering::Less)
        } else if self.base > other.base {
            Some(Ordering::Greater)
        } else if self.disambiguator < other.disambiguator {
            Some(Ordering::Less)
        } else if self.disambiguator > other.disambiguator {
            Some(Ordering::Greater)
        } else {
            Some(Ordering::Equal)
        }
    }
}

impl PartialOrdSpecImpl for CoolKey {
    open spec fn obeys_partial_cmp_spec() -> bool {
        true
    }

    open spec fn partial_cmp_spec(&self, other: &Self) -> Option<Ordering> {
        if precedes(self@, other@) {
            Some(Ordering::Less)
        } else if precedes(other@, self@) {
            Some(Ordering::Greater)
        } else {
            Some(Ordering::Equal)
        }
    }
}

impl Default for CoolKey {
    /// The key that stands for no entry.
    fn default() -> (key: Self)
        ensures
            key@ == (INVALID_U32, INVALID_U32),
    {
        Self::from_raw_parts(INVALID_U32, INVALID_U32)
    }
}

impl CoolKey {
    /// Builds the key with the given base label and disambiguator.
    pub fn from_raw_parts(base: u32, disambiguator: u32) -> (key: CoolKey)
        ensures
            key@ == (base, disambiguator),
    {
        CoolKey { base, disambiguator }
    }

    /// Gives back the base label and the disambiguator.
    pub fn into_raw_parts(self) -> (parts: (u32, u32))
        ensures
            parts == self@,
    {
        (self.base, self.disambiguator)
    }
}

/// A key is nothing but its raw parts: two keys with the same base label and
/// the same disambiguator are the same key.
pub proof fn law_key_is_its_parts(a: CoolKey, b: CoolKey)
    ensures
        a@ == b@ ==> a == b,
{
}

/// The value that `map` holds under key `k`, if any.
pub open spec fn entry<T>(map: Map<(u32, u32), T>, k: (u32, u32)) -> Option<T> {
    if map.contains_key(k) {
        Some(map[k])
    } else {
        None
    }
}

/// `entries` names each entry of `map` once, with its key and its value, in
/// ascending order of key.
pub open spec fn lists_entries<T>(entries: Seq<(&CoolKey, &T)>, map: Map<(u32, u32), T>) -> bool {
    &&& entries.len() == map.len()
    &&& forall|p: int|
        0 <= p < entries.len() ==> (#[trigger] entries[p]).0@ == key_at(map.dom(), p)
            && entry(map, entries[p].0@) == Some(*entries[p].1)
}

/// `values` holds the value of each entry of `map`, in ascending order of key.
pub open spec fn lists_values<T>(values: Seq<&T>, map: Map<(u32, u32), T>) -> bool {
    &&& values.len() == map.len()
    &&& forall|p: int|
        0 <= p < values.len() ==> entry(map, key_at(map.dom(), p)) == Some(*#[trigger] values[p])
}

/// Once a key is removed, it is no key of the map any more.
pub proof fn law_removed_key_absent<T>(map: Map<(u32, u32), T>, k: (u32, u32))
    ensures
        !map.remove(k).contains_key(k),
        entry(map.remove(k), k) is None,
{
}

/// `free` holds, for the base label of every key of `keys`, a disambiguator
/// above that of the key, and none that lies more than one above those of 32
/// bits.
spec fn numbered(keys: Set<(u32, u32)>, free: Map<u32, u64>) -> bool {
    &&& forall|k: (u32, u32)| #[trigger]
        keys.contains(k) ==> free.contains_key(k.0) && k.1 < free[k.0]
    &&& forall|base: u32| #[trigger] free.contains_key(base) ==> free[base] <= 0x1_0000_0000
}

/// The raw parts of each key of `keys`, in the same order.
spec fn key_views(keys: Seq<CoolKey>) -> Seq<(u32, u32)> {
    keys.map_values(|k: CoolKey| k@)
}

/// An ordered map from stable keys to values that also keeps, for each key,
/// its dense position: its rank among the keys of the map.
///
/// Its view is the map from the raw parts of each key to the value stored
/// under it. Beside the view stands [`CoolMap::next_free`], the first
/// disambiguator of each base label that no key of the map has had.
#[derive(Debug)]
pub struct CoolMap<T> {
    tree: BTreeMap<(u32, u32), T>,
    index_to_key: Vec<CoolKey>,
    key_to_index: PositionTable,
    free: BTreeMap<u32, u64>,
}

impl<T> View for CoolMap<T> {
    type V = Map<(u32, u32), T>;

    closed spec fn view(&self) -> Map<(u32, u32), T> {
        self.tree@
    }
}

impl<T> Default for CoolMap<T> {
    /// A map with no entry.
    fn default() -> (map: Self)
        ensures
            map@ == Map::<(u32, u32), T>::empty(),
            forall|base: u32| #[trigger] map.next_free(base) == 0,
            map.wf(),
    {
        Self::new()
    }
}

impl<T: Clone> Clone for CoolMap<T> {
    /// A map with the same entries at the same positions.
    fn clone(&self) -> (copy: Self)
        ensures
            copy@ == self@,
            forall|base: u32| #[trigger] copy.next_free(base) == self.next_free(base),
            self.wf() ==> copy.wf(),
    {
        let copy = CoolMap {
            tree: self.tree.clone(),
            index_to_key: self.index_to_key.clone(),
            key_to_index: table_clone(&self.key_to_index),
            free: self.free.clone(),
        };
        assert(copy.index_to_key@ =~= self.index_to_key@);
        copy
    }
}

impl<T> CoolMap<T> {
    /// The first disambiguator that no key with the base label `base` has had,
    /// present or removed. It never goes down.
    pub closed spec fn next_free(&self, base: u32) -> nat {
        if self.free@.contains_key(base) {
            self.free@[base] as nat
        } else {
            0
        }
    }

    /// The two position tables agree with the ordered table: the first lists
    /// its keys in ascending order, the second maps each key to its place in
    /// that listing, and places fit in 32 bits. The disambiguator of every key
    /// lies below the first free one of its base label.
    pub closed spec fn wf(&self) -> bool {
        let order = key_views(self.index_to_key@);
        &&& numbered(self.tree@.dom(), self.free@)
        &&& order.len() <= u32::MAX
        &&& lists(order, self.tree@.dom())
        &&& forall|k: (u32, u32)|
            positions(self.key_to_index).contains_key(k) <==> self.tree@.contains_key(k)
        &&& forall|p: int|
            0 <= p < order.len() ==> positions(self.key_to_index)[#[trigger] order[p]] == p
    }

    /// The disambiguator of every key of a map lies below the first free one
    /// of its base label, which is at most one above those of 32 bits.
    pub proof fn law_keys_below_free(&self, base: u32)
        requires
            self.wf(),
        ensures
            below_free(self@.dom(), base, self.next_free(base)),
            self.next_free(base) <= 0x1_0000_0000,
    {
    }

    /// The dense position of a key of a map is the number of keys of the map
    /// that come before it.
    pub proof fn law_position_is_rank(&self, k: (u32, u32))
        requires
            self@.contains_key(k),
        ensures
            position_of(self@.dom(), k) == rank(self@.dom(), k),
    {
        law_position_is_rank(self@.dom(), k);
    }

    /// The keys of a map are finitely many.
    pub proof fn law_keys_finite(&self)
        ensures
            self@.dom().finite(),
    {
    }

    /// Keys and dense positions lead to each other and back without loss, in
    /// every state of the map: the position of the key at position `p` is `p`,
    /// and the key at the position of key `k` is `k`.
    pub proof fn law_round_trip(&self, p: int, k: (u32, u32))
        ensures
            0 <= p < self@.len() ==> self@.contains_key(key_at(self@.dom(), p))
                && position_of(self@.dom(), key_at(self@.dom(), p)) == p,
            self@.contains_key(k) ==> 0 <= position_of(self@.dom(), k) < self@.len()
                && key_at(self@.dom(), position_of(self@.dom(), k)) == k,
    {
        if 0 <= p < self@.len() {
            law_key_then_position(self@.dom(), p);
        }
        if self@.contains_key(k) {
            law_position_then_key(self@.dom(), k);
        }
    }

    /// A map with no entry, which has given out no key.
    pub fn new() -> (map: Self)
        ensures
            map@ == Map::<(u32, u32), T>::empty(),
            forall|base: u32| #[trigger] map.next_free(base) == 0,
            map.wf(),
    {
        CoolMap {
            tree: BTreeMap::new(),
            index_to_key: Vec::new(),
            key_to_index: table_new(),
            free: BTreeMap::new(),
        }
    }

    /// Empties the map. The keys that it has given out stay used up.
    pub fn clear(&mut self)
        requires
            old(self).wf(),
        ensures
            final(self)@ == Map::<(u32, u32), T>::empty(),
            forall|base: u32| #[trigger] final(self).next_free(base) == old(self).next_free(base),
            final(self).wf(),
    {
        self.tree.clear();
        self.index_to_key.clear();
        table_clear(&mut self.key_to_index);
    }

    /// The first disambiguator that no key with the base label `base` has had.
    pub fn next_disambiguator(&self, base: u32) -> (free: u64)
        ensures
            free == self.next_free(base),
    {
        match self.free.get(&base) {
            Some(free) => *free,
            None => 0,
        }
    }

    /// Stores `value` under a new key made from `key_base` and gives the key
    /// back. The key's disambiguator is the first one that no key of the base
    /// label has had, so that the key is neither a key of the map nor one that
    /// the map has given out before, and never the invalid key. The map must
    /// have room for one more position and the base label for one more
    /// disambiguator, of 32 bits each.
    pub fn insert(&mut self, key_base: u32, value: T) -> (key: CoolKey)
        requires
            old(self).wf(),
            old(self)@.len() < u32::MAX,
            old(self).next_free(key_base) < u32::MAX,
        ensures
            key@ == (key_base, old(self).next_free(key_base) as u32),
            !old(self)@.contains_key(key@),
            key@ != (INVALID_U32, INVALID_U32),
            final(self).next_free(key_base) == old(self).next_free(key_base) + 1,
            forall|b: u32|
                b != key_base ==> #[trigger] final(self).next_free(b) == old(self).next_free(b),
            final(self)@ == old(self)@.insert(key@, value),
            final(self)@.len() == old(self)@.len() + 1,
            final(self).wf(),
    {
        proof {
            listed_len(key_views(self.index_to_key@), self.tree@.dom());
        }
        let free = self.next_disambiguator(key_base);
        let key = CoolKey { base: key_base, disambiguator: free as u32 };
        self.free.insert(key_base, free + 1);
        self.tree.insert((key_base, free as u32), value);
        self.remake_index_maps();
        key
    }

    /// Takes the entry of key `k` out of the map, if there is one. The keys
    /// after `k` move one position down. The key stays used up: the map does
    /// not give it out again.
    pub fn remove(&mut self, k: &CoolKey) -> (removed: Option<T>)
        requires
            old(self).wf(),
        ensures
            removed == entry(old(self)@, k@),
            final(self)@ == old(self)@.remove(k@),
            forall|base: u32| #[trigger] final(self).next_free(base) == old(self).next_free(base),
            final(self).wf(),
    {
        proof {
            listed_len(key_views(self.index_to_key@), self.tree@.dom());
        }
        let element = self.tree.remove(&(k.base, k.disambiguator));
        self.remake_index_maps();
        element
    }

    /// Whether the map holds an entry under key `k`.
    pub fn contains_key(&self, k: &CoolKey) -> (present: bool)
        ensures
            present == self@.contains_key(k@),
    {
        self.tree.contains_key(&(k.base, k.disambiguator))
    }

    /// The value stored under key `k`, if there is one.
    pub fn get(&self, k: &CoolKey) -> (found: Option<&T>)
        ensures
            match found {
                Some(value) => entry(self@, k@) == Some(*value),
                None => entry(self@, k@) is None,
            },
    {
        self.tree.get(&(k.base, k.disambiguator))
    }

    /// A mutable reference to the value stored under key `k`, if there is one.
    /// What its holder leaves behind it is the value stored under `k`
    /// afterwards.
    pub fn get_mut(&mut self, k: &CoolKey) -> (found: Option<&mut T>)
        ensures
            match found {
                Some(value) => entry(old(self)@, k@) == Some(*value)
                    && final(self)@ == old(self)@.insert(k@, *final(value)),
                None => entry(old(self)@, k@) is None && final(self)@ == old(self)@,
            },
            forall|base: u32| #[trigger] final(self).next_free(base) == old(self).next_free(base),
            old(self).wf() ==> final(self).wf(),
    {
        tree_get_mut(&mut self.tree, (k.base, k.disambiguator))
    }

    /// The number of entries.
    pub fn len(&self) -> (count: usize)
        ensures
            count == self@.len(),
    {
        self.tree.len()
    }

    /// Whether the map has no entry.
    pub fn is_empty(&self) -> (empty: bool)
        ensures
            empty == (self@.len() == 0),
    {
        self.tree.is_empty()
    }

    /// Lists the entries, each with its key and its value, in ascending order
    /// of key.
    pub fn iter(&self) -> (entries: Vec<(&CoolKey, &T)>)
        requires
            self.wf(),
        ensures
            lists_entries(entries@, self@),
    {
        proof {
            listed_len(key_views(self.index_to_key@), self.tree@.dom());
            dense_order_is(key_views(self.index_to_key@), self.tree@.dom());
        }
        let mut entries: Vec<(&CoolKey, &T)> = Vec::new();
        let mut p: usize = 0;
        while p < self.index_to_key.len()
            invariant
                self.wf(),
                self@.len() == self.index_to_key@.len(),
                key_views(self.index_to_key@) == dense_order(self@.dom()),
                p <= self.index_to_key@.len(),
                entries@.len() == p,
                forall|q: int|
                    0 <= q < p ==> (#[trigger] entries@[q]).0@ == key_at(self@.dom(), q)
                        && entry(self@, entries@[q].0@) == Some(*entries@[q].1),
            decreases self.index_to_key@.len() - p,
        {
            let key = &self.index_to_key[p];
            proof {
                let order = key_views(self.index_to_key@);
                assert(order[p as int] == key@);
                assert(order.contains(key@));
            }
            let value = self.tree.get(&(key.base, key.disambiguator)).unwrap();
            entries.push((key, value));
            p = p + 1;
        }
        entries
    }

    /// Lists the values in ascending order of their keys.
    pub fn values(&self) -> (values: Vec<&T>)
        requires
            self.wf(),
        ensures
            lists_values(values@, self@),
    {
        let entries = self.iter();
        let mut values: Vec<&T> = Vec::new();
        let mut p: usize = 0;
        while p < entries.len()
            invariant
                lists_entries(entries@, self@),
                p <= entries@.len(),
                values@.len() == p,
                forall|q: int| 0 <= q < p ==> *(#[trigger] values@[q]) == *entries@[q].1,
            decreases entries@.len() - p,
        {
            values.push(entries[p].1);
            p = p + 1;
        }
        values
    }

    /// Lends out the values in ascending order of their keys.
    pub fn values_mut(&mut self) -> (values: Vec<&mut T>)
        requires
            old(self).wf(),
        ensures
            values@.len() == old(self)@.len(),
            final(self)@.dom() == old(self)@.dom(),
            forall|p: int|
                0 <= p < values@.len() ==> *(#[trigger] values@[p])
                    == old(self)@[key_at(old(self)@.dom(), p)],
            forall|p: int|
                0 <= p < values@.len() ==> *final(#[trigger] values@[p])
                    == final(self)@[key_at(old(self)@.dom(), p)],
            forall|base: u32| #[trigger] final(self).next_free(base) == old(self).next_free(base),
            final(self).wf(),
    {
        tree_values_mut(&mut self.tree)
    }

    /// Lends out the values, each with the key of its entry, in ascending
    /// order of key.
    pub fn iter_mut(&mut self) -> (entries: Vec<(&CoolKey, &mut T)>)
        requires
            old(self).wf(),
        ensures
            entries@.len() == old(self)@.len(),
            final(self)@.dom() == old(self)@.dom(),
            forall|p: int|
                0 <= p < entries@.len() ==> (#[trigger] entries@[p]).0@
                    == key_at(old(self)@.dom(), p) && *entries@[p].1 == old(self)@[entries@[p].0@],
            forall|p: int|
                0 <= p < entries@.len() ==> *final((#[trigger] entries@[p]).1)
                    == final(self)@[entries@[p].0@],
            forall|base: u32| #[trigger] final(self).next_free(base) == old(self).next_free(base),
            final(self).wf(),
    {
        proof {
            listed_len(key_views(self.index_to_key@), self.tree@.dom());
            dense_order_is(key_views(self.index_to_key@), self.tree@.dom());
        }
        let ghost order = dense_order(self.tree@.dom());
        let values = tree_values_mut(&mut self.tree);
        let ghost lent = values@;
        let count = values.len();
        let mut entries: Vec<(&CoolKey, &mut T)> = Vec::new();
        let mut p: usize = 0;
        for value in it: values
            invariant
                it.seq() == lent,
                lent.len() == count,
                lent.len() == self.index_to_key@.len(),
                key_views(self.index_to_key@) == order,
                p == it.index(),
                entries@.len() == p,
                forall|q: int|
                    0 <= q < p ==> (#[trigger] entries@[q]).0@ == order[q] && *entries@[q].1
                        == *lent[q] && *final(entries@[q].1) == *final(lent[q]),
        {
            let key = &self.index_to_key[p];
            assert(key_views(self.index_to_key@)[p as int] == key@);
            entries.push((key, value));
            p = p + 1;
        }
        entries
    }

    /// Makes sure that there is an entry under `key`, storing `default` if
    /// there was none, and gives a mutable reference to its value. The key is
    /// taken as it is. Where it is new, it counts as given out from then on,
    /// and the map must have room for one more position of 32 bits.
    pub fn ensure_exists(&mut self, key: &CoolKey, default: T) -> (value: &mut T)
        requires
            old(self).wf(),
            old(self)@.contains_key(key@) || old(self)@.len() < u32::MAX,
        ensures
            *value == match entry(old(self)@, key@) {
                Some(present) => present,
                None => default,
            },
            final(self)@ == old(self)@.insert(key@, *final(value)),
            final(self).next_free(key@.0) == if old(self).next_free(key@.0) <= key@.1 {
                (key@.1 + 1) as nat
            } else {
                old(self).next_free(key@.0)
            },
            forall|b: u32|
                b != key@.0 ==> #[trigger] final(self).next_free(b) == old(self).next_free(b),
            final(self).wf(),
    {
        if !self.contains_key(key) {
            proof {
                listed_len(key_views(self.index_to_key@), self.tree@.dom());
            }
            if self.next_disambiguator(key.base) <= key.disambiguator as u64 {
                self.free.insert(key.base, key.disambiguator as u64 + 1);
            }
            self.tree.insert((key.base, key.disambiguator), default);
            self.remake_index_maps();
        }
        tree_get_mut(&mut self.tree, (key.base, key.disambiguator)).unwrap()
    }

    /// The key at dense position `index`, which must be less than the number
    /// of entries.
    pub fn index_to_key(&self, index: u32) -> (key: CoolKey)
        requires
            self.wf(),
            index < self@.len(),
        ensures
            key@ == key_at(self@.dom(), index as int),
    {
        proof {
            listed_len(key_views(self.index_to_key@), self.tree@.dom());
            dense_order_is(key_views(self.index_to_key@), self.tree@.dom());
        }
        self.index_to_key[index as usize]
    }

    /// The dense position of `key`, which must be a key of the map.
    pub fn key_to_index(&self, key: &CoolKey) -> (position: u32)
        requires
            self.wf(),
            self@.contains_key(key@),
        ensures
            position == position_of(self@.dom(), key@),
    {
        proof {
            let order = key_views(self.index_to_key@);
            dense_order_is(order, self.tree@.dom());
            ascending_no_duplicates(order);
            assert(order.contains(key@));
            let p = order.index_of(key@);
            assert(positions(self.key_to_index)[order[p]] == p);
        }
        table_index(&self.key_to_index, (key.base, key.disambiguator))
    }

    /// Makes the two position tables anew from the ordered table: walks its
    /// keys in ascending order and gives them the positions 0, 1, 2 and so on.
    fn remake_index_maps(&mut self)
        requires
            old(self).tree@.len() <= u32::MAX,
            numbered(old(self).tree@.dom(), old(self).free@),
        ensures
            final(self).tree == old(self).tree,
            final(self).free == old(self).free,
            final(self).wf(),
    {
        self.index_to_key.clear();
        table_clear(&mut self.key_to_index);
        let ghost ks = spec_keys_iter(&self.tree).remaining();
        let mut idx: u32 = 0;
        for key in it: self.tree.keys()
            invariant
                self.tree == old(self).tree,
                self.free == old(self).free,
                it.seq() == ks,
                ks.len() <= u32::MAX,
                ks.no_duplicates(),
                idx == it.index(),
                self.index_to_key@.len() == it.index(),
                forall|p: int|
                    0 <= p < it.index() ==> (#[trigger] self.index_to_key@[p])@ == *ks[p],
                forall|k: (u32, u32)|
                    positions(self.key_to_index).contains_key(k) <==> exists|p: int|
                        0 <= p < it.index() && *#[trigger] ks[p] == k,
                forall|p: int|
                    0 <= p < it.index() ==> positions(self.key_to_index)[*#[trigger] ks[p]] == p,
        {
            let ghost before = positions(self.key_to_index);
            self.index_to_key.push(CoolKey { base: key.0, disambiguator: key.1 });
            table_insert(&mut self.key_to_index, *key, idx);
            proof {
                assert(*key == *ks[idx as int]);
                assert forall|k: (u32, u32)|
                    positions(self.key_to_index).contains_key(k) <==> exists|p: int|
                        0 <= p < idx + 1 && *#[trigger] ks[p] == k by {
                    if before.contains_key(k) {
                        let p = choose|p: int| 0 <= p < idx && *#[trigger] ks[p] == k;
                        assert(0 <= p < idx + 1 && *ks[p] == k);
                    }
                }
            }
            idx = idx + 1;
        }
        proof {
            let order = key_views(self.index_to_key@);
            assert(order =~= ks.unref());
            increasing_is_ascending(ks);
            assert(ks.unref().to_set() == self.tree@.dom());
            assert forall|k: (u32, u32)| self.tree@.dom().contains(k) <==> order.contains(k) by {
                assert(ks.unref().to_set().contains(k) <==> ks.unref().contains(k));
            }
            assert forall|k: (u32, u32)|
                positions(self.key_to_index).contains_key(k) <==> self.tree@.contains_key(k) by {
                if positions(self.key_to_index).contains_key(k) {
                    let p = choose|p: int| 0 <= p < ks.len() && *#[trigger] ks[p] == k;
                    assert(order[p] == k);
                }
                if order.contains(k) {
                    let p = choose|p: int| 0 <= p < order.len() && order[p] == k;
                    assert(*ks[p] == k);
                }
            }
        }
    }
}

} // verus!
