//! Reading clusters and outliers off a traversal.
//!
//! One pass over the points in the order of their visits. A point that was
//! reached at a distance within the threshold joins the cluster that is
//! open; a point that was not, and is a core point at the threshold, opens
//! the next cluster; every other point is an outlier.

use std::collections::HashMap;
use vstd::prelude::*;
use crate::neighborhood::Neighborhood;
use crate::scalar::Scalar;

verus! {

/// The clusters in the order in which they were opened, each with its
/// members in the order of their visits, and the outliers in the order of
/// their visits.
pub struct Extraction {
    pub clusters: Seq<Seq<usize>>,
    pub outliers: Seq<usize>,
}

/// Whether a reachability lets a point join the open cluster: it is a normal
/// number and at most the threshold.
pub open spec fn attaches(reach: Scalar, eps: Scalar) -> bool {
    reach.is_normal() && reach.le(eps)
}

/// The result after one more point `p`.
pub open spec fn classified(
    before: Extraction,
    p: usize,
    reach: Seq<Scalar>,
    hoods: Seq<Neighborhood>,
    min_samples: usize,
    eps: Scalar,
) -> Extraction {
    if attaches(reach[p as int], eps) {
        if before.clusters.len() == 0 {
            Extraction { clusters: before.clusters, outliers: before.outliers.push(p) }
        } else {
            Extraction {
                clusters: before.clusters.update(
                    before.clusters.len() - 1,
                    before.clusters.last().push(p),
                ),
                outliers: before.outliers,
            }
        }
    } else if hoods[p as int].supports(min_samples, eps) {
        Extraction { clusters: before.clusters.push(seq![p]), outliers: before.outliers }
    } else {
        Extraction { clusters: before.clusters, outliers: before.outliers.push(p) }
    }
}

/// The result for the first `k` points of `order`.
pub open spec fn extraction_upto(
    order: Seq<usize>,
    reach: Seq<Scalar>,
    hoods: Seq<Neighborhood>,
    min_samples: usize,
    eps: Scalar,
    k: nat,
) -> Extraction
    decreases k,
{
    if k == 0 {
        Extraction { clusters: Seq::empty(), outliers: Seq::empty() }
    } else {
        classified(
            extraction_upto(order, reach, hoods, min_samples, eps, (k - 1) as nat),
            order[k - 1],
            reach,
            hoods,
            min_samples,
            eps,
        )
    }
}

/// The clusters and outliers among the points of `order` at threshold `eps`.
pub open spec fn extraction(
    order: Seq<usize>,
    reach: Seq<Scalar>,
    hoods: Seq<Neighborhood>,
    min_samples: usize,
    eps: Scalar,
) -> Extraction {
    extraction_upto(order, reach, hoods, min_samples, eps, order.len())
}

/// The map holds exactly the given clusters, each under its number.
pub open spec fn holds_clusters(map: Map<usize, Vec<usize>>, clusters: Seq<Seq<usize>>) -> bool {
    &&& forall|c: usize| #[trigger] map.contains_key(c) <==> c < clusters.len()
    &&& forall|c: usize| c < clusters.len() ==> (#[trigger] map[c])@ == clusters[c as int]
}

/// Two maps that hold the same clusters have the same keys and, under each
/// key, the same members in the same order.
pub proof fn lemma_clusters_held_alike(
    a: Map<usize, Vec<usize>>,
    b: Map<usize, Vec<usize>>,
    clusters: Seq<Seq<usize>>,
)
    requires
        holds_clusters(a, clusters),
        holds_clusters(b, clusters),
    ensures
        a.dom() =~= b.dom(),
        forall|c: usize| a.contains_key(c) ==> (#[trigger] a[c])@ == b[c]@,
{
}

/// Reads clusters and outliers at threshold `eps` off the points in the
/// order of their visits. The clusters are numbered from 0 in the order in
/// which they were opened.
pub fn extract(
    ordered: &Vec<usize>,
    reachability: &Vec<Scalar>,
    neighborhoods: &Vec<Neighborhood>,
    min_samples: usize,
    eps: Scalar,
) -> (found: (HashMap<usize, Vec<usize>>, Vec<usize>))
    requires
        reachability.len() == neighborhoods.len(),
        forall|i: int| 0 <= i < ordered.len() ==> (#[trigger] ordered[i]) < neighborhoods.len(),
    ensures
        holds_clusters(
            found.0@,
            extraction(ordered@, reachability@, neighborhoods@, min_samples, eps).clusters,
        ),
        found.1@ == extraction(ordered@, reachability@, neighborhoods@, min_samples, eps).outliers,
        forall|p: usize| #[trigger]
            times_listed(extraction(ordered@, reachability@, neighborhoods@, min_samples, eps), p)
                == ordered@.to_multiset().count(p),
{
    broadcast use vstd::std_specs::hash::group_hash_axioms;

    proof {
        lemma_extraction_partitions(ordered@, reachability@, neighborhoods@, min_samples, eps);
    }

    let mut outliers: Vec<usize> = Vec::new();
    let mut groups: Vec<Vec<usize>> = Vec::new();
    let n: usize = ordered.len();
    for i in 0..n
        invariant
            n == ordered.len(),
            reachability.len() == neighborhoods.len(),
            forall|j: int| 0 <= j < ordered.len() ==> (#[trigger] ordered[j]) < neighborhoods.len(),
            outliers@ == extraction_upto(
                ordered@,
                reachability@,
                neighborhoods@,
                min_samples,
                eps,
                i as nat,
            ).outliers,
            groups@.len() == extraction_upto(
                ordered@,
                reachability@,
                neighborhoods@,
                min_samples,
                eps,
                i as nat,
            ).clusters.len(),
            forall|c: int|
                0 <= c < groups@.len() ==> (#[trigger] groups@[c])@ == extraction_upto(
                    ordered@,
                    reachability@,
                    neighborhoods@,
                    min_samples,
                    eps,
                    i as nat,
                ).clusters[c],
    {
        let id: usize = ordered[i];
        if reachability[id].is_normal() && reachability[id].le(eps) {
            if groups.len() == 0 {
                outliers.push(id);
            } else {
                let mut members: Vec<usize> = groups.pop().unwrap();
                members.push(id);
                groups.push(members);
            }
        } else {
            let hood = &neighborhoods[id];
            if hood.neighbors.len() >= min_samples && hood.core_distance.le(eps) {
                let mut members: Vec<usize> = Vec::new();
                members.push(id);
                groups.push(members);
            } else {
                outliers.push(id);
            }
        }
    }
    let ghost all = groups@;
    let mut clusters: HashMap<usize, Vec<usize>> = HashMap::new();
    while groups.len() > 0
        invariant
            groups@ == all.subrange(0, groups@.len() as int),
            groups@.len() <= all.len(),
            forall|c: usize| #[trigger]
                clusters@.contains_key(c) <==> groups@.len() <= c < all.len(),
            forall|c: usize|
                groups@.len() <= c < all.len() ==> (#[trigger] clusters@[c])@ == all[c as int]@,
        decreases groups.len(),
    {
        let members: Vec<usize> = groups.pop().unwrap();
        let c: usize = groups.len();
        clusters.insert(c, members);
    }
    (clusters, outliers)
}

/// How often `p` occurs as a member of the clusters, all of them taken
/// together.
pub open spec fn times_clustered(clusters: Seq<Seq<usize>>, p: usize) -> nat
    decreases clusters.len(),
{
    if clusters.len() == 0 {
        0
    } else {
        times_clustered(clusters.drop_last(), p) + clusters.last().to_multiset().count(p)
    }
}

/// How often `p` occurs in the result, as a member of a cluster or as an
/// outlier.
pub open spec fn times_listed(found: Extraction, p: usize) -> nat {
    times_clustered(found.clusters, p) + found.outliers.to_multiset().count(p)
}

/// Whether `p` is a member of some cluster.
pub open spec fn in_cluster(found: Extraction, p: usize) -> bool {
    exists|c: int| 0 <= c < found.clusters.len() && (#[trigger] found.clusters[c]).contains(p)
}

/// A point is a member of some cluster just when it occurs among the
/// members of the clusters.
pub proof fn lemma_in_cluster_counts(found: Extraction, p: usize)
    ensures
        in_cluster(found, p) <==> times_clustered(found.clusters, p) > 0,
    decreases found.clusters.len(),
{
    broadcast use vstd::seq_lib::group_to_multiset_ensures;

    let clusters = found.clusters;
    if clusters.len() > 0 {
        let front = Extraction { clusters: clusters.drop_last(), outliers: found.outliers };
        lemma_in_cluster_counts(front, p);
        if in_cluster(found, p) {
            let c = choose|c: int| 0 <= c < clusters.len() && (#[trigger] clusters[c]).contains(p);
            if c < clusters.len() - 1 {
                assert(front.clusters[c].contains(p));
            }
        }
    }
}

/// One more point is listed once more, and nothing else changes.
proof fn lemma_classified_lists(
    before: Extraction,
    q: usize,
    reach: Seq<Scalar>,
    hoods: Seq<Neighborhood>,
    min_samples: usize,
    eps: Scalar,
    p: usize,
)
    ensures
        times_listed(classified(before, q, reach, hoods, min_samples, eps), p) == times_listed(
            before,
            p,
        ) + if p == q {
            1nat
        } else {
            0nat
        },
{
    broadcast use vstd::seq_lib::group_to_multiset_ensures;

    let after = classified(before, q, reach, hoods, min_samples, eps);
    if attaches(reach[q as int], eps) && before.clusters.len() > 0 {
        assert(after.clusters.drop_last() =~= before.clusters.drop_last());
    } else if !attaches(reach[q as int], eps) && hoods[q as int].supports(min_samples, eps) {
        assert(after.clusters.drop_last() =~= before.clusters);
    }
}

/// Among the first `k` points, each is listed as often as it occurs.
proof fn lemma_extraction_upto_partitions(
    order: Seq<usize>,
    reach: Seq<Scalar>,
    hoods: Seq<Neighborhood>,
    min_samples: usize,
    eps: Scalar,
    k: nat,
    p: usize,
)
    requires
        k <= order.len(),
    ensures
        times_listed(extraction_upto(order, reach, hoods, min_samples, eps, k), p)
            == order.subrange(0, k as int).to_multiset().count(p),
    decreases k,
{
    broadcast use vstd::seq_lib::group_to_multiset_ensures;

    if k > 0 {
        lemma_extraction_upto_partitions(order, reach, hoods, min_samples, eps, (k - 1) as nat, p);
        lemma_classified_lists(
            extraction_upto(order, reach, hoods, min_samples, eps, (k - 1) as nat),
            order[k - 1],
            reach,
            hoods,
            min_samples,
            eps,
            p,
        );
        assert(order.subrange(0, k as int) =~= order.subrange(0, k - 1).push(order[k - 1]));
    }
}

/// The clusters and the outliers divide the points of the order among them:
/// each point is listed as often as it occurs in the order. A point that
/// occurs once is thus either an outlier or a member of one cluster, listed
/// once, and a point that does not occur is listed nowhere.
pub proof fn lemma_extraction_partitions(
    order: Seq<usize>,
    reach: Seq<Scalar>,
    hoods: Seq<Neighborhood>,
    min_samples: usize,
    eps: Scalar,
)
    ensures
        forall|p: usize| #[trigger]
            times_listed(extraction(order, reach, hoods, min_samples, eps), p)
                == order.to_multiset().count(p),
        order.no_duplicates() ==> forall|p: usize| #[trigger]
            times_listed(extraction(order, reach, hoods, min_samples, eps), p) == if order.contains(
                p,
            ) {
                1nat
            } else {
                0nat
            },
{
    broadcast use vstd::seq_lib::group_to_multiset_ensures;

    assert(order.subrange(0, order.len() as int) =~= order);
    assert forall|p: usize| #[trigger]
        times_listed(extraction(order, reach, hoods, min_samples, eps), p)
            == order.to_multiset().count(p) by {
        lemma_extraction_upto_partitions(order, reach, hoods, min_samples, eps, order.len(), p);
    }
    if order.no_duplicates() {
        order.lemma_multiset_has_no_duplicates();
    }
}

} // verus!
