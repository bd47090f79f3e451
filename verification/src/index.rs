//! Strongly typed index newtypes.
//!
//! The pipeline juggles three coordinate systems (vertical rank, original
//! horizontal rank, solved horizontal rank) plus two dense solution-variable
//! id spaces. Each gets its own opaque wrapper over `usize` so that one kind
//! of index cannot silently stand in for another.

use vstd::prelude::*;

verus! {

/// Rank in the vertical dimension; 0 is topmost.
#[derive(Clone, Copy, Debug, PartialEq, Eq, Structural, Hash, PartialOrd, Ord)]
pub struct VerticalRank(pub usize);

/// A node's or hop's original horizontal position within its rank,
/// assigned during placement construction.
#[derive(Clone, Copy, Debug, PartialEq, Eq, Structural, Hash, PartialOrd, Ord)]
pub struct OriginalHorizontalRank(pub usize);

/// The solved horizontal position after crossing minimization; within each
/// rank the solved positions form a permutation of the original ones.
#[derive(Clone, Copy, Debug, PartialEq, Eq, Structural, Hash, PartialOrd, Ord)]
pub struct SolvedHorizontalRank(pub usize);

/// Dense identifier for a node-location, used as a key into coordinate
/// solutions.
#[derive(Clone, Copy, Debug, PartialEq, Eq, Structural, Hash, PartialOrd, Ord)]
pub struct LocSol(pub usize);

/// Dense identifier for a hop segment, used as a key into coordinate
/// solutions.
#[derive(Clone, Copy, Debug, PartialEq, Eq, Structural, Hash, PartialOrd, Ord)]
pub struct HopSol(pub usize);

impl VerticalRank {
    /// The rank `k` steps further down.
    pub fn plus(self, k: usize) -> (r: Self)
        requires
            self.0 + k <= usize::MAX,
        ensures
            r.0 == self.0 + k,
    {
        VerticalRank(self.0 + k)
    }
}

impl OriginalHorizontalRank {
    /// The position `k` steps further right.
    pub fn plus(self, k: usize) -> (r: Self)
        requires
            self.0 + k <= usize::MAX,
        ensures
            r.0 == self.0 + k,
    {
        OriginalHorizontalRank(self.0 + k)
    }
}

impl SolvedHorizontalRank {
    /// The position `k` steps further right.
    pub fn plus(self, k: usize) -> (r: Self)
        requires
            self.0 + k <= usize::MAX,
        ensures
            r.0 == self.0 + k,
    {
        SolvedHorizontalRank(self.0 + k)
    }
}

} // verus!
