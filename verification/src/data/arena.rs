//! Handles into a generational arena.

use vstd::prelude::*;

verus! {

/// A handle to a slot of an arena, identified by the raw position of the slot.
#[derive(Clone, Copy, Debug, PartialEq, Eq, Structural, Hash)]
pub struct Index {
    index: u32,
}

impl Index {
    /// The raw slot position that this handle designates.
    pub closed spec fn raw(self) -> u32 {
        self.index
    }

    /// Builds the handle that designates the slot at position `index`.
    pub fn from_raw_parts(index: u32) -> (handle: Index)
        ensures
            handle.raw() == index,
    {
        Index { index }
    }

    /// Gives back the raw slot position.
    pub fn into_raw_parts(self) -> (index: u32)
        ensures
            index == self.raw(),
    {
        self.index
    }
}

/// A handle is nothing but its raw position: two handles of the same
/// position are the same handle.
pub proof fn law_index_is_its_position(a: Index, b: Index)
    ensures
        a.raw() == b.raw() ==> a == b,
{
}

} // verus!
