//! Neighborhoods: for each point, the points within the radius and a local
//! estimate of how sparse the data is around it.

use vstd::prelude::*;
use crate::scalar::Scalar;

verus! {

/// How many nearest points the core distance is taken from: the point itself
/// and the one nearest to it.
pub const CORE_NEAREST: usize = 2;

/// A point within the radius, and how far away it is.
#[derive(Clone, Copy, Debug)]
pub struct Neighbor {
    /// The index of the point.
    pub index: usize,
    /// Its distance from the point whose neighborhood this is.
    pub distance: Scalar,
}

/// The neighborhood of one point.
#[derive(Debug)]
pub struct Neighborhood {
    /// The points within the radius, the point itself among them.
    pub neighbors: Vec<Neighbor>,
    /// The distance to the nearest other point, or zero if the point has
    /// nothing but itself within the radius.
    pub core_distance: Scalar,
}

/// The core distance of a point with `count` points within the radius, where
/// `nearest` holds the distances to the points nearest to it in ascending
/// order, the first being the point itself.
pub open spec fn core_distance_of(count: nat, nearest: Seq<Scalar>) -> Scalar {
    if count > 1 {
        nearest[1]
    } else {
        Scalar { bits: 0 }
    }
}

/// Every neighbor of every point is one of the `hoods.len()` points.
pub open spec fn neighborhoods_valid(hoods: Seq<Neighborhood>) -> bool {
    forall|p: int, k: int|
        0 <= p < hoods.len() && 0 <= k < hoods[p].neighbors@.len() ==> (
        #[trigger] hoods[p].neighbors@[k]).index < hoods.len()
}

/// How many nearest points have to be looked up to get the core distance of
/// a point that has `count` points within the radius: none for a point that
/// is alone, else `CORE_NEAREST`.
pub fn nearest_wanted(count: usize) -> (k: usize)
    ensures
        k == if count > 1 { CORE_NEAREST } else { 0 },
{
    if count > 1 {
        CORE_NEAREST
    } else {
        0
    }
}

impl Neighborhood {
    /// Whether the point has at least `min_samples` points within the radius.
    pub open spec fn spec_is_core(&self, min_samples: usize) -> bool {
        self.neighbors@.len() >= min_samples
    }

    /// Whether the point is a core point whose core distance is at most `r`.
    pub open spec fn supports(&self, min_samples: usize, r: Scalar) -> bool {
        self.spec_is_core(min_samples) && self.core_distance.le(r)
    }

    /// The neighborhood of a point from what was found around it: `neighbors`
    /// are the points within the radius, `nearest` the distances to the
    /// `nearest_wanted(neighbors.len())` points nearest to it, in ascending
    /// order. The core distance is the second of these, whatever number of
    /// neighbors makes a core point, and zero where the point has fewer than
    /// two neighbors. A point with two or more neighbors needs the two
    /// distances.
    pub fn new(neighbors: Vec<Neighbor>, nearest: &Vec<Scalar>) -> (hood: Neighborhood)
        requires
            neighbors.len() > 1 ==> nearest.len() >= CORE_NEAREST,
        ensures
            hood.neighbors == neighbors,
            hood.core_distance == core_distance_of(neighbors@.len(), nearest@),
    {
        let core_distance = if neighbors.len() > 1 {
            nearest[1]
        } else {
            Scalar::zero()
        };
        Neighborhood { neighbors, core_distance }
    }

    /// Whether the point has at least `min_samples` points within the radius.
    #[verifier::when_used_as_spec(spec_is_core)]
    pub fn is_core(&self, min_samples: usize) -> (r: bool)
        ensures
            r == self.spec_is_core(min_samples),
    {
        self.neighbors.len() >= min_samples
    }
}

/// Tells whether every neighbor of every point is one of the points.
pub fn check_neighborhoods(hoods: &Vec<Neighborhood>) -> (ok: bool)
    ensures
        ok == neighborhoods_valid(hoods@),
{
    let n: usize = hoods.len();
    for p in 0..n
        invariant
            n == hoods.len(),
            forall|q: int, k: int|
                0 <= q < p && 0 <= k < hoods[q].neighbors@.len() ==> (
                #[trigger] hoods[q].neighbors@[k]).index < n,
    {
        let hood = &hoods[p];
        let m: usize = hood.neighbors.len();
        for k in 0..m
            invariant
                n == hoods.len(),
                p < n,
                hood == hoods[p as int],
                m == hood.neighbors.len(),
                forall|j: int| 0 <= j < k ==> (#[trigger] hood.neighbors@[j]).index < n,
        {
            if hood.neighbors[k].index >= n {
                return false;
            }
        }
    }
    true
}

} // verus!
