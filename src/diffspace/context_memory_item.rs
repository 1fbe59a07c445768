use vstd::prelude::*;

use super::bitvector::BitVector;

verus! {

/// A code remembered by a context cell, with the number of times it was seen
/// again after it was first stored.
#[derive(Clone, Copy, Debug, PartialEq, Eq, Structural)]
pub struct ContextMemoryItem {
    pub code: BitVector,
    pub hits: u32,
}

} // verus!
