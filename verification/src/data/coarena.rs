//! Values attached to the slots of an arena that lives elsewhere.
//!
//! A [`Coarena`] is addressed by the raw position of an arena [`Index`]. It
//! never allocates or frees positions itself: it grows to reach whatever
//! position it is handed and marks a slot vacant when its value is removed,
//! so that the positions of the other slots never move.

use vstd::prelude::*;
use crate::data::arena::Index;

verus! {

/// What an observer finds at position `i`: the stored value if the slot exists
/// and is occupied, nothing otherwise.
pub open spec fn lookup<T>(slots: Seq<(bool, T)>, i: int) -> Option<T> {
    if 0 <= i < slots.len() && slots[i].0 {
        Some(slots[i].1)
    } else {
        None
    }
}

/// The number of slots once a sequence of `len` slots has been made to reach
/// position `top`.
pub open spec fn reach(len: nat, top: int) -> nat {
    if top < len {
        len
    } else {
        (top + 1) as nat
    }
}

/// Every slot of `before`, but those at `first` and `second`, is the same in
/// `after`.
pub open spec fn kept_outside<T>(
    before: Seq<(bool, T)>,
    after: Seq<(bool, T)>,
    first: int,
    second: int,
) -> bool {
    forall|j: int|
        0 <= j < before.len() && j != first && j != second ==> #[trigger] after[j] == before[j]
}

/// Every slot of `after` from position `from` on, but those at `first` and
/// `second`, is vacant and holds a clone of `fill`.
pub open spec fn vacant_from<T: Clone>(
    from: nat,
    after: Seq<(bool, T)>,
    fill: T,
    first: int,
    second: int,
) -> bool {
    forall|j: int|
        from <= j < after.len() && j != first && j != second ==> !(#[trigger] after[j]).0
            && cloned(fill, after[j].1)
}

/// `after` is `before` with `value` stored at position `i`: the sequence
/// reaches `i`, slot `i` is occupied by `value`, the other old slots are
/// untouched, and the slots added below `i` are vacant clones of one default
/// value.
pub open spec fn after_insert<T: Clone + Default>(
    before: Seq<(bool, T)>,
    after: Seq<(bool, T)>,
    i: int,
    value: T,
) -> bool {
    &&& after.len() == reach(before.len(), i)
    &&& after[i] == (true, value)
    &&& kept_outside(before, after, i, i)
    &&& before.len() < i ==> exists|d: T| #[trigger]
        call_ensures(T::default, (), d) && vacant_from(before.len(), after, d, i, i)
}

/// `before` with the value at position `i` taken out: if the slot was
/// occupied it is now vacant and holds `filler`; otherwise nothing changes.
pub open spec fn after_remove<T>(before: Seq<(bool, T)>, i: int, filler: T) -> Seq<(bool, T)> {
    if lookup(before, i) is Some {
        before.update(i, (false, filler))
    } else {
        before
    }
}

/// `after` is `before` once position `i` is sure to hold a value. The holder
/// of the reference is handed `handed`, which is the value that was there or
/// else `default`, and leaves `left` behind.
pub open spec fn after_ensure<T: Clone>(
    before: Seq<(bool, T)>,
    after: Seq<(bool, T)>,
    i: int,
    default: T,
    handed: T,
    left: T,
) -> bool {
    &&& handed == match lookup(before, i) {
        Some(present) => present,
        None => default,
    }
    &&& after.len() == reach(before.len(), i)
    &&& after[i] == (true, left)
    &&& kept_outside(before, after, i, i)
    &&& vacant_from(before.len(), after, default, i, i)
}

/// `after` is `before` once the two distinct positions `i1` and `i2` are sure
/// to hold a value each. A value that was missing at `i1` is a clone of
/// `default`; one that was missing at `i2` is `default` itself. `handed` is
/// what the two references show at first, `left` what their holder leaves.
pub open spec fn after_ensure_pair<T: Clone>(
    before: Seq<(bool, T)>,
    after: Seq<(bool, T)>,
    i1: int,
    i2: int,
    default: T,
    handed: (T, T),
    left: (T, T),
) -> bool {
    &&& match lookup(before, i1) {
        Some(present) => handed.0 == present,
        None => cloned(default, handed.0),
    }
    &&& handed.1 == match lookup(before, i2) {
        Some(present) => present,
        None => default,
    }
    &&& after.len() == reach(before.len(), if i1 > i2 { i1 } else { i2 })
    &&& after[i1] == (true, left.0)
    &&& after[i2] == (true, left.1)
    &&& kept_outside(before, after, i1, i2)
    &&& vacant_from(before.len(), after, default, i1, i2)
}

/// `to` has the slots of `from`, each with the same flag and a clone of the
/// value.
pub open spec fn copies<T: Clone>(from: Seq<(bool, T)>, to: Seq<(bool, T)>) -> bool {
    &&& to.len() == from.len()
    &&& forall|i: int|
        0 <= i < to.len() ==> (#[trigger] to[i]).0 == from[i].0 && cloned(from[i].1, to[i].1)
}

/// `entries` names each occupied slot of `slots` once, with its value, in
/// ascending order of position.
pub open spec fn lists_occupied<T>(entries: Seq<(Index, &T)>, slots: Seq<(bool, T)>) -> bool {
    &&& forall|k: int|
        0 <= k < entries.len() ==> lookup(slots, (#[trigger] entries[k]).0.raw() as int) == Some(
            *entries[k].1,
        )
    &&& forall|k: int, l: int|
        0 <= k < l < entries.len() ==> (#[trigger] entries[k]).0.raw()
            < (#[trigger] entries[l]).0.raw()
    &&& forall|i: int|
        0 <= i < slots.len() && (#[trigger] slots[i]).0 ==> exists|k: int|
            0 <= k < entries.len() && (#[trigger] entries[k]).0.raw() == i
}

/// A value that was inserted is found at its position. Once it is removed,
/// nothing is found there. A value inserted there afterwards is found in its
/// turn, and takes the vacant slot: the store does not grow for it.
pub proof fn law_insert_remove_insert<T: Clone + Default>(
    start: Seq<(bool, T)>,
    filled: Seq<(bool, T)>,
    refilled: Seq<(bool, T)>,
    i: int,
    value: T,
    filler: T,
    second: T,
)
    requires
        0 <= i,
        after_insert(start, filled, i, value),
        after_insert(after_remove(filled, i, filler), refilled, i, second),
    ensures
        lookup(filled, i) == Some(value),
        lookup(after_remove(filled, i, filler), i) is None,
        lookup(refilled, i) == Some(second),
        refilled.len() == filled.len(),
{
}

/// Making sure of an occupied slot hands out the value that the slot holds,
/// whatever the default, and changes the store only by what the holder of the
/// reference does to that value.
pub proof fn law_ensure_keeps_occupant<T: Clone>(
    before: Seq<(bool, T)>,
    after: Seq<(bool, T)>,
    i: int,
    default: T,
    handed: T,
    left: T,
)
    requires
        lookup(before, i) is Some,
        after_ensure(before, after, i, default, handed, left),
    ensures
        Some(handed) == lookup(before, i),
        after == before.update(i, (true, left)),
{
    assert(after =~= before.update(i, (true, left)));
}

/// Making sure of a slot twice, with two defaults, hands out the second time
/// the value that the first call set, if its holder left that value alone.
pub proof fn law_ensure_twice<T: Clone>(
    start: Seq<(bool, T)>,
    once: Seq<(bool, T)>,
    twice: Seq<(bool, T)>,
    i: int,
    first_default: T,
    second_default: T,
    first_handed: T,
    second_handed: T,
    second_left: T,
)
    requires
        0 <= i,
        after_ensure(start, once, i, first_default, first_handed, first_handed),
        after_ensure(once, twice, i, second_default, second_handed, second_left),
    ensures
        second_handed == first_handed,
        first_handed == match lookup(start, i) {
            Some(present) => present,
            None => first_default,
        },
        second_left == second_handed ==> twice == once,
{
    if second_left == second_handed {
        assert(twice =~= once);
    }
}

/// What the holder of the two references of a pair leaves behind each is found
/// at its own position afterwards, whatever is left behind the other.
pub proof fn law_pair_independent<T: Clone>(
    before: Seq<(bool, T)>,
    after: Seq<(bool, T)>,
    i1: int,
    i2: int,
    default: T,
    handed: (T, T),
    left: (T, T),
)
    requires
        0 <= i1,
        0 <= i2,
        i1 != i2,
        after_ensure_pair(before, after, i1, i2, default, handed, left),
    ensures
        lookup(after, i1) == Some(left.0),
        lookup(after, i2) == Some(left.1),
{
}

/// No store can serve a pair of references to one and the same position: two
/// different values cannot both be left in one slot.
pub proof fn law_pair_needs_two_positions<T: Clone>(
    before: Seq<(bool, T)>,
    after: Seq<(bool, T)>,
    i: int,
    default: T,
    handed: (T, T),
    left: (T, T),
)
    requires
        left.0 != left.1,
    ensures
        !after_ensure_pair(before, after, i, i, default, handed, left),
{
}

/// A container for data associated to items that live in another arena.
///
/// Its view is the sequence of its slots, each an occupancy flag and the value
/// that the slot physically holds. A vacant slot keeps a value, but no
/// operation shows it as present: see [`lookup`].
#[derive(Debug)]
pub struct Coarena<T> {
    data: Vec<(bool, T)>,
}

impl<T> View for Coarena<T> {
    type V = Seq<(bool, T)>;

    closed spec fn view(&self) -> Seq<(bool, T)> {
        self.data@
    }
}

impl<T: Clone> Clone for Coarena<T> {
    /// A coarena with as many slots, each occupied or vacant as in this one
    /// and holding a clone of its value.
    fn clone(&self) -> (copy: Self)
        ensures
            copies(self@, copy@),
    {
        let mut data: Vec<(bool, T)> = Vec::new();
        let mut i: usize = 0;
        while i < self.data.len()
            invariant
                i <= self.data@.len(),
                copies(self.data@.subrange(0, i as int), data@),
            decreases self.data@.len() - i,
        {
            data.push((self.data[i].0, self.data[i].1.clone()));
            i += 1;
        }
        assert(self.data@.subrange(0, i as int) == self.data@);
        Self { data }
    }
}

impl<T> Default for Coarena<T> {
    /// A coarena with no element.
    fn default() -> (store: Self)
        ensures
            store@ == Seq::<(bool, T)>::empty(),
            store.wf(),
    {
        Self::new()
    }
}

impl<T> Coarena<T> {
    /// Every slot can be named by a raw position of 32 bits.
    pub open spec fn wf(&self) -> bool {
        self@.len() <= 0x1_0000_0000
    }

    /// A coarena with no element.
    pub fn new() -> (store: Self)
        ensures
            store@ == Seq::<(bool, T)>::empty(),
            store.wf(),
    {
        Self { data: Vec::new() }
    }

    /// Pre-allocates capacity for `additional` extra elements in this arena.
    pub fn reserve(&mut self, additional: usize)
        ensures
            final(self)@ == old(self)@,
            old(self).wf() ==> final(self).wf(),
    {
        self.data.reserve(additional);
    }

    /// The number of slots, occupied or vacant.
    pub fn len(&self) -> (count: usize)
        ensures
            count == self@.len(),
    {
        self.data.len()
    }

    /// Lists the occupied slots, each with the handle of its position and its
    /// value, in ascending order of position.
    pub fn iter(&self) -> (entries: Vec<(Index, &T)>)
        requires
            self.wf(),
        ensures
            lists_occupied(entries@, self@),
    {
        let mut entries: Vec<(Index, &T)> = Vec::new();
        let mut i: usize = 0;
        while i < self.data.len()
            invariant
                self.wf(),
                i <= self@.len(),
                lists_occupied(entries@, self@.subrange(0, i as int)),
            decreases self@.len() - i,
        {
            let ghost before = entries@;
            if self.data[i].0 {
                entries.push((Index::from_raw_parts(i as u32), &self.data[i].1));
            }
            proof {
                let seen = self@.subrange(0, i as int);
                let next = self@.subrange(0, i + 1);
                assert forall|k: int| 0 <= k < entries@.len() implies lookup(
                    next,
                    (#[trigger] entries@[k]).0.raw() as int,
                ) == Some(*entries@[k].1) by {
                    if k < before.len() {
                        assert(lookup(seen, before[k].0.raw() as int) == Some(*before[k].1));
                    }
                }
                assert forall|j: int| 0 <= j < next.len() && (#[trigger] next[j]).0 implies exists|
                    k: int,
                |
                    0 <= k < entries@.len() && (#[trigger] entries@[k]).0.raw() == j by {
                    if j < i {
                        assert(seen[j].0);
                        let k = choose|k: int|
                            0 <= k < before.len() && (#[trigger] before[k]).0.raw() == j;
                        assert(entries@[k].0.raw() == j);
                    } else {
                        assert(entries@[before.len() as int].0.raw() == j);
                    }
                }
            }
            i += 1;
        }
        assert(self@.subrange(0, i as int) == self@);
        entries
    }

    /// Deletes an element for the coarena and returns its value.
    ///
    /// The slot keeps its place and holds `removed_value` from then on.
    pub fn remove(&mut self, index: Index, removed_value: T) -> (taken: Option<T>)
        ensures
            taken == lookup(old(self)@, index.raw() as int),
            final(self)@ == after_remove(old(self)@, index.raw() as int, removed_value),
            old(self).wf() ==> final(self).wf(),
    {
        let i = index.into_raw_parts() as usize;
        if i < self.data.len() && self.data[i].0 {
            let mut held = removed_value;
            let slot = &mut self.data[i];
            slot.0 = false;
            std::mem::swap(&mut slot.1, &mut held);
            Some(held)
        } else {
            None
        }
    }

    /// Gets a specific element from the coarena, if it exists.
    pub fn get(&self, index: Index) -> (found: Option<&T>)
        ensures
            match found {
                Some(value) => lookup(self@, index.raw() as int) == Some(*value),
                None => lookup(self@, index.raw() as int) is None,
            },
    {
        let i = index.into_raw_parts() as usize;
        if i < self.data.len() && self.data[i].0 {
            Some(&self.data[i].1)
        } else {
            None
        }
    }

    /// Gets a mutable reference to a specific element from the coarena, if it
    /// exists. What the holder leaves behind the reference is the value of the
    /// slot afterwards.
    pub fn get_mut(&mut self, index: Index) -> (found: Option<&mut T>)
        ensures
            match found {
                Some(value) => lookup(old(self)@, index.raw() as int) == Some(*value)
                    && final(self)@ == old(self)@.update(index.raw() as int, (true, *final(value))),
                None => lookup(old(self)@, index.raw() as int) is None
                    && final(self)@ == old(self)@,
            },
            old(self).wf() ==> final(self).wf(),
    {
        let i = index.into_raw_parts() as usize;
        if i < self.data.len() && self.data[i].0 {
            Some(&mut self.data[i].1)
        } else {
            None
        }
    }

    /// Appends vacant slots, each holding a clone of `fill`, until there are
    /// `len` slots.
    fn grow(&mut self, len: usize, fill: &T) where T: Clone
        ensures
            final(self)@.len() == if old(self)@.len() < len {
                len as nat
            } else {
                old(self)@.len()
            },
            kept_outside(old(self)@, final(self)@, -1, -1),
            vacant_from(old(self)@.len(), final(self)@, *fill, -1, -1),
    {
        while self.data.len() < len
            invariant
                self@.len() >= old(self)@.len(),
                self@.len() <= len || self@.len() == old(self)@.len(),
                kept_outside(old(self)@, self@, -1, -1),
                vacant_from(old(self)@.len(), self@, *fill, -1, -1),
            decreases len - self.data.len(),
        {
            self.data.push((false, fill.clone()));
        }
    }

    /// Inserts an element into this coarena, over whatever the slot held. The
    /// coarena grows, by vacant slots, as far as it takes to reach the slot.
    pub fn insert(&mut self, a: Index, value: T) where T: Clone + Default
        requires
            a.raw() < usize::MAX,
        ensures
            after_insert(old(self)@, final(self)@, a.raw() as int, value),
            old(self).wf() ==> final(self).wf(),
    {
        let i1 = a.into_raw_parts() as usize;
        if self.data.len() <= i1 {
            let filler = T::default();
            self.grow(i1, &filler);
            self.data.push((true, value));
        } else {
            self.data[i1] = (true, value);
        }
    }

    /// Ensure that the given element exists in this coarena, and return its
    /// mutable reference. An element that is already there is left as it is;
    /// a missing one is created with the `default` value.
    pub fn ensure_element_exist(&mut self, a: Index, default: T) -> (value: &mut T) where T: Clone
        requires
            a.raw() < usize::MAX,
        ensures
            after_ensure(old(self)@, final(self)@, a.raw() as int, default, *value, *final(value)),
            old(self).wf() ==> final(self).wf(),
    {
        let i1 = a.into_raw_parts() as usize;
        if self.data.len() <= i1 {
            self.grow(i1, &default);
            self.data.push((true, default));
        } else if !self.data[i1].0 {
            self.data[i1] = (true, default);
        }
        &mut self.data[i1].1
    }

    /// Ensure that elements at the two given indices exist in this coarena, and
    /// return their references.
    ///
    /// Missing elements are created automatically and initialized with the
    /// `default` value. The two indices must name different slots.
    pub fn ensure_pair_exists(&mut self, a: Index, b: Index, default: T) -> (pair: (
        &mut T,
        &mut T,
    )) where T: Clone
        requires
            a.raw() != b.raw(),
            a.raw() < usize::MAX,
            b.raw() < usize::MAX,
        ensures
            after_ensure_pair(
                old(self)@,
                final(self)@,
                a.raw() as int,
                b.raw() as int,
                default,
                (*pair.0, *pair.1),
                (*final(pair.0), *final(pair.1)),
            ),
            old(self).wf() ==> final(self).wf(),
    {
        let i1 = a.into_raw_parts() as usize;
        let i2 = b.into_raw_parts() as usize;
        let (elt1, elt2) = if i1 > i2 {
            if self.data.len() <= i1 {
                self.grow(i1 + 1, &default);
            }
            let (left, right) = self.data.split_at_mut(i1);
            (&mut right[0], &mut left[i2])
        } else {
            if self.data.len() <= i2 {
                self.grow(i2 + 1, &default);
            }
            let (left, right) = self.data.split_at_mut(i2);
            (&mut left[i1], &mut right[0])
        };
        if !elt1.0 {
            *elt1 = (true, default.clone());
        }
        if !elt2.0 {
            *elt2 = (true, default);
        }
        (&mut elt1.1, &mut elt2.1)
    }
}

} // verus!
