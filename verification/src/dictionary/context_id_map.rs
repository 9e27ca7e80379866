//! Connection-cost context-ID permutation shipped with a dictionary.
use vstd::prelude::*;

verus! {

/// A pair of context-ID permutations, `perm[old_id] = new_id`.
///
/// `left` permutes left-context IDs (the connection matrix's backward axis)
/// and `right` permutes right-context IDs (the forward axis).
#[derive(Debug, Clone)]
pub struct ContextIdMap {
    /// Permutation of left-context IDs.
    pub left: Vec<u16>,
    /// Permutation of right-context IDs.
    pub right: Vec<u16>,
}

/// `perm[id]`, or `id` itself when it lies outside the permutation.
pub open spec fn map_id(perm: Seq<u16>, id: u16) -> u16 {
    if (id as int) < perm.len() { perm[id as int] } else { id }
}

impl ContextIdMap {
    /// Maps a left-context ID into the remapped space; an ID outside the
    /// permutation is returned unchanged.
    pub fn map_left(&self, id: u16) -> (r: u16)
        ensures
            r == map_id(self.left@, id),
    {
        if (id as usize) < self.left.len() {
            self.left[id as usize]
        } else {
            id
        }
    }

    /// Maps a right-context ID into the remapped space; an ID outside the
    /// permutation is returned unchanged.
    pub fn map_right(&self, id: u16) -> (r: u16)
        ensures
            r == map_id(self.right@, id),
    {
        if (id as usize) < self.right.len() {
            self.right[id as usize]
        } else {
            id
        }
    }
}

} // verus!
