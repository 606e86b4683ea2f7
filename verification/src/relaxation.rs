//! Widening the threshold.
//!
//! Clusters read off a traversal at a wider threshold lose no point: every
//! point that is a member of a cluster at one threshold is a member of a
//! cluster at every greater one.

use vstd::prelude::*;
use crate::extraction::{extraction, in_cluster};
use crate::membership::{dense, lemma_members};
use crate::neighborhood::Neighborhood;
use crate::scalar::Scalar;
use crate::soundness::{lemma_traversal_sound, supported};
use crate::traversal::traversal;

verus! {

/// A point that is dense at a threshold is dense at every greater one.
pub proof fn lemma_dense_stays(
    reach: Seq<Scalar>,
    hoods: Seq<Neighborhood>,
    min_samples: usize,
    eps1: Scalar,
    eps2: Scalar,
    p: usize,
)
    requires
        eps1.le(eps2),
        dense(reach, hoods, min_samples, eps1, p),
    ensures
        dense(reach, hoods, min_samples, eps2, p),
{
}

/// Read off an order in which every reachability that was set is the
/// reachability distance from an earlier core point, the clusters at a
/// greater threshold hold every point that the clusters at a smaller
/// threshold hold, and the outliers at the greater threshold are outliers at
/// the smaller.
pub proof fn lemma_wider_keeps(
    order: Seq<usize>,
    reach: Seq<Scalar>,
    hoods: Seq<Neighborhood>,
    min_samples: usize,
    eps1: Scalar,
    eps2: Scalar,
)
    requires
        supported(order, reach, hoods, min_samples),
        eps1.le(eps2),
    ensures
        forall|p: usize| #[trigger]
            in_cluster(extraction(order, reach, hoods, min_samples, eps1), p) ==> in_cluster(
                extraction(order, reach, hoods, min_samples, eps2),
                p,
            ),
        forall|p: usize| #[trigger]
            extraction(order, reach, hoods, min_samples, eps2).outliers.contains(p) ==> extraction(
                order,
                reach,
                hoods,
                min_samples,
                eps1,
            ).outliers.contains(p),
{
    lemma_members(order, reach, hoods, min_samples, eps1);
    lemma_members(order, reach, hoods, min_samples, eps2);
}

/// Relaxing the threshold is monotonic: of the points that a traversal
/// visited, those that are not outliers at threshold `eps1` are not outliers
/// at any threshold `eps2` that is at least `eps1`.
pub proof fn lemma_relaxation_monotonic(
    hoods: Seq<Neighborhood>,
    min_samples: usize,
    eps1: Scalar,
    eps2: Scalar,
)
    requires
        eps1.le(eps2),
    ensures
        forall|p: usize| #[trigger]
            in_cluster(
                extraction(
                    traversal(hoods, min_samples).order,
                    traversal(hoods, min_samples).reach,
                    hoods,
                    min_samples,
                    eps1,
                ),
                p,
            ) ==> in_cluster(
                extraction(
                    traversal(hoods, min_samples).order,
                    traversal(hoods, min_samples).reach,
                    hoods,
                    min_samples,
                    eps2,
                ),
                p,
            ),
        forall|p: usize| #[trigger]
            extraction(
                traversal(hoods, min_samples).order,
                traversal(hoods, min_samples).reach,
                hoods,
                min_samples,
                eps2,
            ).outliers.contains(p) ==> extraction(
                traversal(hoods, min_samples).order,
                traversal(hoods, min_samples).reach,
                hoods,
                min_samples,
                eps1,
            ).outliers.contains(p),
{
    lemma_traversal_sound(hoods, min_samples);
    lemma_wider_keeps(
        traversal(hoods, min_samples).order,
        traversal(hoods, min_samples).reach,
        hoods,
        min_samples,
        eps1,
        eps2,
    );
}

} // verus!
