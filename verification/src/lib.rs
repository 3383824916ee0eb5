//! Order-stable bookkeeping containers: a store of values attached to the slots
//! of a generational arena, and an ordered map with dense positions.

use vstd::prelude::*;

pub mod data;

verus! {

/// The raw part that marks a key as invalid.
pub const INVALID_U32: u32 = 0xffff_ffff;

} // verus!
