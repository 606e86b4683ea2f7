//! The clustering itself: configuration, the traversal kept from the last
//! fit, and the extraction of clusters from it.

use std::collections::HashMap;
use vstd::prelude::*;
use crate::coverage::{lemma_traversal_covers, neighbor_at, reachable};
use crate::extraction::{
    extract, extraction, holds_clusters, in_cluster, lemma_extraction_partitions, times_listed,
    Extraction,
};
use crate::membership::{dense, lemma_members};
use crate::minimality::{candidate, distances_normal, lemma_reachability_least};
use crate::neighborhood::{neighborhoods_valid, Neighborhood};
use crate::relaxation::lemma_relaxation_monotonic;
use crate::scalar::Scalar;
use crate::soundness::{lemma_traversal_sound, supported};
use crate::traversal::{traversal, traverse};

verus! {

/// The pattern of one half, the radius that `Optics::default` sets.
pub const DEFAULT_EPS_BITS: u64 = 0x3fe0_0000_0000_0000;

/// The number of neighbors that makes a core point in `Optics::default`.
pub const DEFAULT_MIN_SAMPLES: usize = 5;

/// OPTICS (ordering points to identify the clustering structure).
///
/// Holds the radius and the number of neighbors that makes a core point,
/// and, after a fit, the neighborhoods it was given, the order in which the
/// traversal visited the points and the reachability it found for each.
#[derive(Debug)]
pub struct Optics {
    eps: Scalar,
    min_samples: usize,
    ordered: Vec<usize>,
    reachability: Vec<Scalar>,
    neighborhoods: Vec<Neighborhood>,
}

/// What an `Optics` holds.
pub struct OpticsView {
    /// The radius of a neighborhood.
    pub eps: Scalar,
    /// The number of points within the radius that makes a core point.
    pub min_samples: usize,
    /// The points in the order of their visits.
    pub ordered: Seq<usize>,
    /// The reachability of each point.
    pub reachability: Seq<Scalar>,
    /// The neighborhood of each point.
    pub neighborhoods: Seq<Neighborhood>,
}

impl OpticsView {
    /// The order and the reachabilities are those of the traversal of the
    /// neighborhoods.
    pub open spec fn wf(self) -> bool {
        &&& neighborhoods_valid(self.neighborhoods)
        &&& self.neighborhoods.len() <= usize::MAX
        &&& self.ordered == traversal(self.neighborhoods, self.min_samples).order
        &&& self.reachability == traversal(self.neighborhoods, self.min_samples).reach
    }

    /// The clusters and outliers at threshold `eps`.
    pub open spec fn extraction(self, eps: Scalar) -> Extraction {
        extraction(self.ordered, self.reachability, self.neighborhoods, self.min_samples, eps)
    }

    /// What is held after a fit to the points with the given neighborhoods:
    /// those neighborhoods and their traversal, or, without points, what was
    /// held before.
    pub open spec fn fitted(self, neighborhoods: Seq<Neighborhood>) -> OpticsView {
        if neighborhoods.len() == 0 {
            self
        } else {
            OpticsView {
                eps: self.eps,
                min_samples: self.min_samples,
                ordered: traversal(neighborhoods, self.min_samples).order,
                reachability: traversal(neighborhoods, self.min_samples).reach,
                neighborhoods,
            }
        }
    }

    /// The clusters and outliers that a fit to the points with the given
    /// neighborhoods returns: those at the radius, none without points.
    pub open spec fn fit_extraction(self, neighborhoods: Seq<Neighborhood>) -> Extraction {
        if neighborhoods.len() == 0 {
            Extraction { clusters: Seq::empty(), outliers: Seq::empty() }
        } else {
            self.fitted(neighborhoods).extraction(self.eps)
        }
    }

    /// A fit depends on nothing but the radius, the number of neighbors that
    /// makes a core point, and the neighborhoods: with these the same, what
    /// two fits to one or more points leave and return is the same, whatever
    /// was held before. A second fit to the same points changes nothing.
    pub proof fn lemma_fit_is_determined(self, other: OpticsView, neighborhoods: Seq<Neighborhood>)
        requires
            self.eps == other.eps,
            self.min_samples == other.min_samples,
        ensures
            neighborhoods.len() > 0 ==> self.fitted(neighborhoods) == other.fitted(neighborhoods),
            self.fit_extraction(neighborhoods) == other.fit_extraction(neighborhoods),
            self.fitted(neighborhoods).fitted(neighborhoods) == self.fitted(neighborhoods),
            self.fitted(neighborhoods).fit_extraction(neighborhoods) == self.fit_extraction(
                neighborhoods,
            ),
    {
    }

    /// The order holds points only, none of them twice, so no more than
    /// there are points; there is a reachability for each point, and each
    /// that was set for a visited point is its reachability distance from a
    /// core point visited before.
    pub proof fn lemma_sound(self)
        requires
            self.wf(),
        ensures
            self.reachability.len() == self.neighborhoods.len(),
            self.ordered.len() <= self.neighborhoods.len(),
            forall|i: int|
                0 <= i < self.ordered.len() ==> (#[trigger] self.ordered[i])
                    < self.neighborhoods.len(),
            self.ordered.no_duplicates(),
            supported(self.ordered, self.reachability, self.neighborhoods, self.min_samples),
    {
        lemma_traversal_sound(self.neighborhoods, self.min_samples);
    }

    /// The points in the order are the core points and the points within the
    /// radius of a core point.
    pub proof fn lemma_covers(self)
        requires
            self.wf(),
        ensures
            forall|p: usize|
                #![trigger self.ordered.contains(p)]
                #![trigger reachable(self.neighborhoods, self.min_samples, p)]
                self.ordered.contains(p) <==> reachable(self.neighborhoods, self.min_samples, p),
    {
        lemma_traversal_covers(self.neighborhoods, self.min_samples);
    }

    /// Where every reachability distance is a normal number, the
    /// reachability of the `i`-th visited point is at most its reachability
    /// distance from the `j`-th, if that is a core point that was visited
    /// before it and has it as the `k`-th point within its radius.
    pub proof fn lemma_least(self, i: int, j: int, k: int)
        requires
            self.wf(),
            distances_normal(self.neighborhoods, self.min_samples),
            0 <= j < i < self.ordered.len(),
            self.neighborhoods[self.ordered[j] as int].is_core(self.min_samples),
            neighbor_at(self.neighborhoods, self.ordered[j] as int, k, self.ordered[i]),
        ensures
            self.reachability[self.ordered[i] as int].le(
                candidate(self.neighborhoods, self.ordered[j] as int, k),
            ),
    {
        lemma_reachability_least(self.neighborhoods, self.min_samples, i, j, k);
    }

    /// At every threshold, each visited point is either an outlier or a
    /// member of one cluster, listed once, and no other point is listed.
    pub proof fn lemma_partitions(self, eps: Scalar)
        requires
            self.wf(),
        ensures
            forall|p: usize| #[trigger]
                times_listed(self.extraction(eps), p) == if self.ordered.contains(p) {
                    1nat
                } else {
                    0nat
                },
    {
        self.lemma_sound();
        lemma_extraction_partitions(
            self.ordered,
            self.reachability,
            self.neighborhoods,
            self.min_samples,
            eps,
        );
    }

    /// At every threshold, the members of the clusters are the visited
    /// points that are dense there, and the outliers are the visited points
    /// that are not.
    pub proof fn lemma_members(self, eps: Scalar)
        requires
            self.wf(),
        ensures
            forall|p: usize| #[trigger]
                in_cluster(self.extraction(eps), p) <==> self.ordered.contains(p) && dense(
                    self.reachability,
                    self.neighborhoods,
                    self.min_samples,
                    eps,
                    p,
                ),
            forall|p: usize| #[trigger]
                self.extraction(eps).outliers.contains(p) <==> self.ordered.contains(p) && !dense(
                    self.reachability,
                    self.neighborhoods,
                    self.min_samples,
                    eps,
                    p,
                ),
    {
        self.lemma_sound();
        lemma_members(
            self.ordered,
            self.reachability,
            self.neighborhoods,
            self.min_samples,
            eps,
        );
    }

    /// A point that is in a cluster at threshold `eps1` is in a cluster at
    /// every threshold `eps2` that is at least `eps1`, and an outlier at
    /// `eps2` is an outlier at `eps1`.
    pub proof fn lemma_relaxation(self, eps1: Scalar, eps2: Scalar)
        requires
            self.wf(),
            eps1.le(eps2),
        ensures
            forall|p: usize| #[trigger]
                in_cluster(self.extraction(eps1), p) ==> in_cluster(self.extraction(eps2), p),
            forall|p: usize| #[trigger]
                self.extraction(eps2).outliers.contains(p) ==> self.extraction(
                    eps1,
                ).outliers.contains(p),
    {
        lemma_relaxation_monotonic(self.neighborhoods, self.min_samples, eps1, eps2);
    }
}

impl View for Optics {
    type V = OpticsView;

    closed spec fn view(&self) -> OpticsView {
        OpticsView {
            eps: self.eps,
            min_samples: self.min_samples,
            ordered: self.ordered@,
            reachability: self.reachability@,
            neighborhoods: self.neighborhoods@,
        }
    }
}

impl Optics {
    #[verifier::type_invariant]
    spec fn well_formed(&self) -> bool {
        self@.wf()
    }

    /// A clustering with radius `eps` in which `min_samples` points within
    /// the radius make a core point. It holds no traversal yet.
    #[must_use]
    pub fn new(eps: Scalar, min_samples: usize) -> (optics: Optics)
        ensures
            optics@.eps == eps,
            optics@.min_samples == min_samples,
            optics@.ordered == Seq::<usize>::empty(),
            optics@.reachability == Seq::<Scalar>::empty(),
            optics@.neighborhoods == Seq::<Neighborhood>::empty(),
            optics@.wf(),
    {
        let ordered: Vec<usize> = Vec::new();
        let reachability: Vec<Scalar> = Vec::new();
        let neighborhoods: Vec<Neighborhood> = Vec::new();
        assert(traversal(neighborhoods@, min_samples).reach =~= reachability@);
        Optics { eps, min_samples, ordered, reachability, neighborhoods }
    }

    /// The radius of a neighborhood.
    pub fn eps(&self) -> (eps: Scalar)
        ensures
            eps == self@.eps,
    {
        self.eps
    }

    /// The number of points within the radius that makes a core point.
    pub fn min_samples(&self) -> (min_samples: usize)
        ensures
            min_samples == self@.min_samples,
    {
        self.min_samples
    }

    /// The points that the last fit visited, in the order of their visits.
    pub fn ordered(&self) -> (ordered: &Vec<usize>)
        ensures
            ordered@ == self@.ordered,
    {
        &self.ordered
    }

    /// The reachability that the last fit found for each point.
    pub fn reachability(&self) -> (reachability: &Vec<Scalar>)
        ensures
            reachability@ == self@.reachability,
    {
        &self.reachability
    }

    /// The neighborhoods that the last fit was given.
    pub fn neighborhoods(&self) -> (neighborhoods: &Vec<Neighborhood>)
        ensures
            neighborhoods@ == self@.neighborhoods,
    {
        &self.neighborhoods
    }

    /// Reads clusters and outliers at threshold `eps` off the traversal of
    /// the last fit, without walking it again. The clusters are numbered
    /// from 0 in the order in which they were opened.
    #[must_use]
    pub fn extract_clusters_and_outliers(&self, eps: Scalar) -> (found: (
        HashMap<usize, Vec<usize>>,
        Vec<usize>,
    ))
        ensures
            self@.wf(),
            holds_clusters(found.0@, self@.extraction(eps).clusters),
            found.1@ == self@.extraction(eps).outliers,
            forall|p: usize| #[trigger]
                times_listed(self@.extraction(eps), p) == if self@.ordered.contains(p) {
                    1nat
                } else {
                    0nat
                },
    {
        proof {
            use_type_invariant(self);
            lemma_traversal_sound(self.neighborhoods@, self.min_samples);
            self@.lemma_partitions(eps);
        }
        extract(&self.ordered, &self.reachability, &self.neighborhoods, self.min_samples, eps)
    }

    /// Walks the points whose neighborhoods are given, keeps the traversal,
    /// and reads clusters and outliers off it at the radius. Without points
    /// there is nothing to do: both are empty and what was kept stays.
    ///
    /// Every neighbor has to be one of the points, which
    /// `check_neighborhoods` tells.
    pub fn fit(&mut self, neighborhoods: Vec<Neighborhood>) -> (found: (
        HashMap<usize, Vec<usize>>,
        Vec<usize>,
    ))
        requires
            neighborhoods_valid(neighborhoods@),
        ensures
            final(self)@.wf(),
            final(self)@ == old(self)@.fitted(neighborhoods@),
            holds_clusters(found.0@, old(self)@.fit_extraction(neighborhoods@).clusters),
            found.1@ == old(self)@.fit_extraction(neighborhoods@).outliers,
            neighborhoods@.len() == 0 ==> found.0@ == Map::<usize, Vec<usize>>::empty()
                && found.1@ == Seq::<usize>::empty(),
    {
        proof {
            use_type_invariant(&*self);
        }
        if neighborhoods.len() == 0 {
            return (HashMap::new(), Vec::new());
        }
        let (ordered, reachability) = traverse(&neighborhoods, self.min_samples);
        *self = Optics {
            eps: self.eps,
            min_samples: self.min_samples,
            ordered,
            reachability,
            neighborhoods,
        };
        self.extract_clusters_and_outliers(self.eps)
    }
}

impl Default for Optics {
    /// A clustering with radius one half in which five points within the
    /// radius make a core point.
    fn default() -> (optics: Optics)
        ensures
            optics@.eps.bits == DEFAULT_EPS_BITS,
            optics@.min_samples == DEFAULT_MIN_SAMPLES,
            optics@.ordered == Seq::<usize>::empty(),
            optics@.reachability == Seq::<Scalar>::empty(),
            optics@.neighborhoods == Seq::<Neighborhood>::empty(),
            optics@.wf(),
    {
        Optics::new(Scalar::from_bits(DEFAULT_EPS_BITS), DEFAULT_MIN_SAMPLES)
    }
}

} // verus!
