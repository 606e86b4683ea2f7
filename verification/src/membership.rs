//! Which visited points are in a cluster.
//!
//! Read off a traversal, a visited point is a member of a cluster at a
//! threshold when it is dense there: it was reached at a distance within the
//! threshold, or it is a core point whose core distance is within the
//! threshold. Every other visited point is an outlier.

use vstd::prelude::*;
use crate::extraction::{attaches, classified, extraction, extraction_upto, in_cluster, Extraction};
use crate::neighborhood::Neighborhood;
use crate::scalar::Scalar;
use crate::soundness::{backed_at, lemma_backed_supports, supported};

verus! {

/// Whether `p` counts as lying in a dense region at threshold `eps`: its
/// reachability is normal and at most `eps`, or it is a core point whose core
/// distance is at most `eps`.
pub open spec fn dense(
    reach: Seq<Scalar>,
    hoods: Seq<Neighborhood>,
    min_samples: usize,
    eps: Scalar,
    p: usize,
) -> bool {
    attaches(reach[p as int], eps) || hoods[p as int].supports(min_samples, eps)
}

/// Whether one more point `q` becomes a member of a cluster: it joins the
/// open cluster, if there is one, or opens a cluster.
spec fn joins(
    before: Extraction,
    q: usize,
    reach: Seq<Scalar>,
    hoods: Seq<Neighborhood>,
    min_samples: usize,
    eps: Scalar,
) -> bool {
    if attaches(reach[q as int], eps) {
        before.clusters.len() > 0
    } else {
        hoods[q as int].supports(min_samples, eps)
    }
}

/// One more point takes no cluster away and changes the membership of no
/// other point: it becomes a member or an outlier itself.
proof fn lemma_classified_members(
    before: Extraction,
    q: usize,
    reach: Seq<Scalar>,
    hoods: Seq<Neighborhood>,
    min_samples: usize,
    eps: Scalar,
    p: usize,
)
    ensures
        classified(before, q, reach, hoods, min_samples, eps).clusters.len()
            >= before.clusters.len(),
        joins(before, q, reach, hoods, min_samples, eps) ==> classified(
            before,
            q,
            reach,
            hoods,
            min_samples,
            eps,
        ).clusters.len() > 0,
        in_cluster(classified(before, q, reach, hoods, min_samples, eps), p) <==> in_cluster(
            before,
            p,
        ) || (p == q && joins(before, q, reach, hoods, min_samples, eps)),
        classified(before, q, reach, hoods, min_samples, eps).outliers.contains(p)
            <==> before.outliers.contains(p) || (p == q && !joins(
            before,
            q,
            reach,
            hoods,
            min_samples,
            eps,
        )),
{
    let after = classified(before, q, reach, hoods, min_samples, eps);
    let last = before.clusters.len() - 1;
    if in_cluster(before, p) {
        let c = choose|c: int| 0 <= c < before.clusters.len() && before.clusters[c].contains(p);
        let i = choose|i: int| 0 <= i < before.clusters[c].len() && before.clusters[c][i] == p;
        assert(after.clusters[c][i] == p);
    }
    if p == q && joins(before, q, reach, hoods, min_samples, eps) {
        if attaches(reach[q as int], eps) {
            assert(after.clusters[last][before.clusters[last].len() as int] == q);
        } else {
            assert(after.clusters[last + 1][0] == q);
        }
    }
    if before.outliers.contains(p) {
        let i = choose|i: int| 0 <= i < before.outliers.len() && before.outliers[i] == p;
        assert(after.outliers[i] == p);
    }
    if p == q && !joins(before, q, reach, hoods, min_samples, eps) {
        assert(after.outliers[before.outliers.len() as int] == q);
    }
}

/// More points take no cluster away.
proof fn lemma_clusters_stay(
    order: Seq<usize>,
    reach: Seq<Scalar>,
    hoods: Seq<Neighborhood>,
    min_samples: usize,
    eps: Scalar,
    k1: nat,
    k2: nat,
)
    requires
        k1 <= k2,
    ensures
        extraction_upto(order, reach, hoods, min_samples, eps, k1).clusters.len()
            <= extraction_upto(order, reach, hoods, min_samples, eps, k2).clusters.len(),
    decreases k2,
{
    if k1 < k2 {
        lemma_clusters_stay(order, reach, hoods, min_samples, eps, k1, (k2 - 1) as nat);
        lemma_classified_members(
            extraction_upto(order, reach, hoods, min_samples, eps, (k2 - 1) as nat),
            order[k2 - 1],
            reach,
            hoods,
            min_samples,
            eps,
            order[k2 - 1],
        );
    }
}

/// A point that joins the open cluster finds one open: a cluster was opened
/// among the points visited before it.
pub proof fn lemma_attached_finds_cluster(
    order: Seq<usize>,
    reach: Seq<Scalar>,
    hoods: Seq<Neighborhood>,
    min_samples: usize,
    eps: Scalar,
    i: nat,
)
    requires
        supported(order, reach, hoods, min_samples),
        i < order.len(),
        attaches(reach[order[i as int] as int], eps),
    ensures
        extraction_upto(order, reach, hoods, min_samples, eps, i).clusters.len() > 0,
    decreases i,
{
    let r = reach[order[i as int] as int];
    let j = choose|j: int|
        0 <= j < i && backed_at(hoods, min_samples, order, j, order[i as int], r);
    lemma_backed_supports(hoods, min_samples, order, j, order[i as int], r);
    let before = extraction_upto(order, reach, hoods, min_samples, eps, j as nat);
    if attaches(reach[order[j] as int], eps) {
        lemma_attached_finds_cluster(order, reach, hoods, min_samples, eps, j as nat);
    }
    lemma_classified_members(before, order[j], reach, hoods, min_samples, eps, order[j]);
    lemma_clusters_stay(order, reach, hoods, min_samples, eps, (j + 1) as nat, i);
}

/// Among the first `k` points, the members of clusters are the dense points
/// and the outliers are the others.
proof fn lemma_members_upto(
    order: Seq<usize>,
    reach: Seq<Scalar>,
    hoods: Seq<Neighborhood>,
    min_samples: usize,
    eps: Scalar,
    k: nat,
    p: usize,
)
    requires
        supported(order, reach, hoods, min_samples),
        k <= order.len(),
    ensures
        in_cluster(extraction_upto(order, reach, hoods, min_samples, eps, k), p)
            <==> order.subrange(0, k as int).contains(p) && dense(
            reach,
            hoods,
            min_samples,
            eps,
            p,
        ),
        extraction_upto(order, reach, hoods, min_samples, eps, k).outliers.contains(p)
            <==> order.subrange(0, k as int).contains(p) && !dense(
            reach,
            hoods,
            min_samples,
            eps,
            p,
        ),
    decreases k,
{
    let taken = order.subrange(0, k as int);
    if k > 0 {
        let i = (k - 1) as nat;
        let q = order[i as int];
        let before = extraction_upto(order, reach, hoods, min_samples, eps, i);
        let front = order.subrange(0, i as int);
        lemma_members_upto(order, reach, hoods, min_samples, eps, i, p);
        lemma_classified_members(before, q, reach, hoods, min_samples, eps, p);
        if attaches(reach[q as int], eps) {
            lemma_attached_finds_cluster(order, reach, hoods, min_samples, eps, i);
        }
        assert(taken.contains(p) <==> front.contains(p) || p == q) by {
            if p == q {
                assert(taken[i as int] == p);
            }
        }
    }
}

/// Read off an order in which every reachability that was set is the
/// reachability distance from an earlier core point, the members of the
/// clusters are the visited points that are dense at the threshold, and the
/// outliers are the visited points that are not.
pub proof fn lemma_members(
    order: Seq<usize>,
    reach: Seq<Scalar>,
    hoods: Seq<Neighborhood>,
    min_samples: usize,
    eps: Scalar,
)
    requires
        supported(order, reach, hoods, min_samples),
    ensures
        forall|p: usize| #[trigger]
            in_cluster(extraction(order, reach, hoods, min_samples, eps), p) <==> order.contains(
                p,
            ) && dense(reach, hoods, min_samples, eps, p),
        forall|p: usize| #[trigger]
            extraction(order, reach, hoods, min_samples, eps).outliers.contains(p)
                <==> order.contains(p) && !dense(reach, hoods, min_samples, eps, p),
{
    assert(order.subrange(0, order.len() as int) =~= order);
    assert forall|p: usize|
        (in_cluster(extraction(order, reach, hoods, min_samples, eps), p) <==> order.contains(p)
            && dense(reach, hoods, min_samples, eps, p)) && (extraction(
            order,
            reach,
            hoods,
            min_samples,
            eps,
        ).outliers.contains(p) <==> order.contains(p) && !dense(
            reach,
            hoods,
            min_samples,
            eps,
            p,
        )) by {
        lemma_members_upto(order, reach, hoods, min_samples, eps, order.len(), p);
    }
}

} // verus!
