//! World diff types.

use vstd::prelude::*;

use crate::object::ChunkCoords;

verus! {

/// The difference between two worlds.
#[derive(Debug, Clone, PartialEq, Eq)]
pub struct WorldDiff {
    /// Chunks present in `to` but not in `from`.
    pub added: Vec<(ChunkCoords, crate::hash::Hash)>,
    /// Chunks present in both worlds with different content, as
    /// `(old hash, new hash)` pairs.
    pub modified: Vec<(ChunkCoords, (crate::hash::Hash, crate::hash::Hash))>,
    /// Chunks present in `from` but not in `to`.
    pub removed: Vec<(ChunkCoords, crate::hash::Hash)>,
}

impl WorldDiff {
    /// The total number of changed chunks.
    pub fn len(&self) -> (n: usize)
        requires
            self.added@.len() + self.modified@.len() + self.removed@.len() <= usize::MAX,
        ensures
            n == self.added@.len() + self.modified@.len() + self.removed@.len(),
    {
        self.added.len() + self.modified.len() + self.removed.len()
    }

    /// Whether the two worlds are identical.
    pub fn is_empty(&self) -> (r: bool)
        requires
            self.added@.len() + self.modified@.len() + self.removed@.len() <= usize::MAX,
        ensures
            r == (self.added@.len() == 0 && self.modified@.len() == 0 && self.removed@.len() == 0),
    {
        self.len() == 0
    }
}

} // verus!
