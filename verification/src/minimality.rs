//! The reachability of a point is the smallest there is.
//!
//! Where the reachability distance of every point from every core point that
//! has it within its radius is a normal number, the reachability of a
//! visited point is at most its reachability distance from each core point
//! that was visited before it. With a reachability distance that is not
//! normal, zero between two points in one place for one, this does not hold:
//! such a value counts as not set, and the next one found replaces it,
//! greater or not.

use vstd::prelude::*;
use crate::coverage::neighbor_at;
use crate::neighborhood::{neighborhoods_valid, Neighborhood};
use crate::scalar::Scalar;
use crate::soundness::{
    lemma_relaxed_sound, lemma_swept_sound, lemma_updated_sound, lemma_visit_sound, sound, was_set,
};
use crate::traversal::{
    drained, lemma_unvisited_falls, reach_distance, relaxed, swept, traversal,
    unvisited, updated, walk_of, Walk,
};

verus! {

/// The reachability distance from `c` of the `k`-th point within its radius.
pub open spec fn candidate(hoods: Seq<Neighborhood>, c: int, k: int) -> Scalar {
    reach_distance(hoods[c].neighbors@[k].distance, hoods[c].core_distance)
}

/// From every core point, the reachability distance of every other point
/// within its radius is a normal number.
pub open spec fn distances_normal(hoods: Seq<Neighborhood>, min_samples: usize) -> bool {
    forall|c: int, k: int|
        0 <= c < hoods.len() && hoods[c].is_core(min_samples) && 0 <= k
            < hoods[c].neighbors@.len() && (#[trigger] hoods[c].neighbors@[k]).index != c
            ==> candidate(hoods, c, k).is_normal()
}

/// If the `j`-th visited point is a core point and `p` is the `k`-th point
/// within its radius, `r` is at most the reachability distance of `p` from
/// it.
spec fn bounded(
    hoods: Seq<Neighborhood>,
    min_samples: usize,
    order: Seq<usize>,
    j: int,
    k: int,
    p: usize,
    r: Scalar,
) -> bool {
    hoods[order[j] as int].is_core(min_samples) && neighbor_at(hoods, order[j] as int, k, p)
        ==> r.le(candidate(hoods, order[j] as int, k))
}

/// A reachability is the mark that every point starts with, or normal.
spec fn settled(r: Scalar) -> bool {
    !was_set(r) || r.is_normal()
}

/// The reachability of every point is at most its reachability distance from
/// each core point visited so far, or before it if it was visited itself.
spec fn least(hoods: Seq<Neighborhood>, min_samples: usize, walk: Walk) -> bool {
    &&& forall|p: int| 0 <= p < walk.reach.len() ==> settled(#[trigger] walk.reach[p])
    &&& forall|i: int, j: int, k: int|
        0 <= j < i < walk.order.len() ==> #[trigger] bounded(
            hoods,
            min_samples,
            walk.order,
            j,
            k,
            walk.order[i],
            walk.reach[walk.order[i] as int],
        )
    &&& forall|p: usize, j: int, k: int|
        p < hoods.len() && !walk.visited[p as int] && 0 <= j < walk.order.len()
            ==> #[trigger] bounded(hoods, min_samples, walk.order, j, k, p, walk.reach[p as int])
}

/// Looking at neighbors only lowers reachabilities, and leaves that of every
/// neighbor looked at that was not visited at most its reachability distance.
proof fn lemma_relaxed_least(
    hood: Neighborhood,
    visited: Seq<bool>,
    reach: Seq<Scalar>,
    seeds: Seq<usize>,
    k: nat,
)
    requires
        visited.len() == reach.len(),
        k <= hood.neighbors@.len(),
        forall|p: int| 0 <= p < reach.len() ==> settled(#[trigger] reach[p]),
        forall|i: int|
            0 <= i < hood.neighbors@.len() ==> (#[trigger] hood.neighbors@[i]).index < reach.len(),
        forall|i: int|
            0 <= i < hood.neighbors@.len() && !visited[(#[trigger] hood.neighbors@[i]).index as int]
                ==> reach_distance(hood.neighbors@[i].distance, hood.core_distance).is_normal(),
    ensures
        relaxed(hood, visited, reach, seeds, k).0.len() == reach.len(),
        forall|p: int|
            0 <= p < reach.len() ==> settled(
                #[trigger] relaxed(hood, visited, reach, seeds, k).0[p],
            ),
        forall|p: int|
            0 <= p < reach.len() && was_set(reach[p]) ==> (#[trigger] relaxed(
                hood,
                visited,
                reach,
                seeds,
                k,
            ).0[p]).le(reach[p]),
        forall|i: int|
            0 <= i < k && !visited[(#[trigger] hood.neighbors@[i]).index as int] ==> relaxed(
                hood,
                visited,
                reach,
                seeds,
                k,
            ).0[hood.neighbors@[i].index as int].le(
                reach_distance(hood.neighbors@[i].distance, hood.core_distance),
            ),
    decreases k,
{
    if k > 0 {
        lemma_relaxed_least(hood, visited, reach, seeds, (k - 1) as nat);
    }
}

/// A visit to a point keeps the reachabilities the smallest, but for what
/// the point itself may reach if it is a core point.
proof fn lemma_visit_least(hoods: Seq<Neighborhood>, min_samples: usize, walk: Walk, s: usize)
    requires
        sound(hoods, min_samples, walk),
        least(hoods, min_samples, walk),
        s < hoods.len(),
        !walk.visited[s as int],
    ensures
        forall|p: int|
            0 <= p < walk.visit(s).reach.len() ==> settled(#[trigger] walk.visit(s).reach[p]),
        forall|i: int, j: int, k: int|
            0 <= j < i < walk.visit(s).order.len() ==> #[trigger] bounded(
                hoods,
                min_samples,
                walk.visit(s).order,
                j,
                k,
                walk.visit(s).order[i],
                walk.visit(s).reach[walk.visit(s).order[i] as int],
            ),
        forall|p: usize, j: int, k: int|
            p < hoods.len() && !walk.visit(s).visited[p as int] && 0 <= j < walk.order.len()
                ==> #[trigger] bounded(
                hoods,
                min_samples,
                walk.visit(s).order,
                j,
                k,
                p,
                walk.visit(s).reach[p as int],
            ),
{
    let seen = walk.visit(s);
    let len = walk.order.len() as int;
    assert forall|i: int, j: int, k: int| 0 <= j < i < seen.order.len() implies #[trigger] bounded(
        hoods,
        min_samples,
        seen.order,
        j,
        k,
        seen.order[i],
        seen.reach[seen.order[i] as int],
    ) by {
        if i < len {
            assert(bounded(
                hoods,
                min_samples,
                walk.order,
                j,
                k,
                walk.order[i],
                walk.reach[walk.order[i] as int],
            ));
        } else {
            assert(bounded(hoods, min_samples, walk.order, j, k, s, walk.reach[s as int]));
        }
    }
    assert forall|p: usize, j: int, k: int|
        p < hoods.len() && !seen.visited[p as int] && 0 <= j
            < walk.order.len() implies #[trigger] bounded(
        hoods,
        min_samples,
        seen.order,
        j,
        k,
        p,
        seen.reach[p as int],
    ) by {
        assert(bounded(hoods, min_samples, walk.order, j, k, p, walk.reach[p as int]));
    }
}

/// Looking at the neighbors of the core point that was visited last makes
/// the reachabilities the smallest again.
proof fn lemma_updated_least(
    hoods: Seq<Neighborhood>,
    min_samples: usize,
    walk: Walk,
    seeds: Seq<usize>,
)
    requires
        neighborhoods_valid(hoods),
        distances_normal(hoods, min_samples),
        sound(hoods, min_samples, walk),
        walk.order.len() > 0,
        hoods[walk.order.last() as int].is_core(min_samples),
        forall|p: int| 0 <= p < walk.reach.len() ==> settled(#[trigger] walk.reach[p]),
        forall|i: int, j: int, k: int|
            0 <= j < i < walk.order.len() ==> #[trigger] bounded(
                hoods,
                min_samples,
                walk.order,
                j,
                k,
                walk.order[i],
                walk.reach[walk.order[i] as int],
            ),
        forall|p: usize, j: int, k: int|
            p < hoods.len() && !walk.visited[p as int] && 0 <= j < walk.order.len() - 1
                ==> #[trigger] bounded(
                hoods,
                min_samples,
                walk.order,
                j,
                k,
                p,
                walk.reach[p as int],
            ),
    ensures
        least(
            hoods,
            min_samples,
            walk_of(
                walk.visited,
                updated(hoods[walk.order.last() as int], walk.visited, walk.reach, seeds).0,
                walk.order,
            ),
        ),
{
    let s = walk.order.last();
    let hood = hoods[s as int];
    let m = hood.neighbors@.len();
    let reach = updated(hood, walk.visited, walk.reach, seeds).0;
    let after = walk_of(walk.visited, reach, walk.order);
    let len = walk.order.len() as int;
    lemma_relaxed_least(hood, walk.visited, walk.reach, seeds, m);
    lemma_relaxed_sound(hood, walk.visited, walk.reach, seeds, m);
    assert forall|p: usize, j: int, k: int|
        p < hoods.len() && !after.visited[p as int] && 0 <= j
            < after.order.len() implies #[trigger] bounded(
        hoods,
        min_samples,
        after.order,
        j,
        k,
        p,
        after.reach[p as int],
    ) by {
        if hoods[walk.order[j] as int].is_core(min_samples) && neighbor_at(
            hoods,
            walk.order[j] as int,
            k,
            p,
        ) {
            if j < len - 1 {
                assert(bounded(hoods, min_samples, walk.order, j, k, p, walk.reach[p as int]));
            }
        }
    }
}

/// Emptying a seed buffer keeps the reachabilities the smallest.
proof fn lemma_drained_least(
    hoods: Seq<Neighborhood>,
    min_samples: usize,
    walk: Walk,
    seeds: Seq<usize>,
)
    requires
        neighborhoods_valid(hoods),
        distances_normal(hoods, min_samples),
        sound(hoods, min_samples, walk),
        least(hoods, min_samples, walk),
    ensures
        least(hoods, min_samples, drained(hoods, min_samples, walk, seeds)),
    decreases unvisited(walk.visited), seeds.len(),
{
    if seeds.len() > 0 {
        let s = seeds.last();
        let rest = seeds.drop_last();
        if s >= walk.visited.len() || walk.visited[s as int] {
            lemma_drained_least(hoods, min_samples, walk, rest);
        } else {
            let seen = walk.visit(s);
            lemma_visit_sound(hoods, min_samples, walk, s);
            lemma_visit_least(hoods, min_samples, walk, s);
            lemma_unvisited_falls(walk.visited, s as int);
            if !hoods[s as int].is_core(min_samples) {
                lemma_drained_least(hoods, min_samples, seen, rest);
            } else {
                let next = updated(hoods[s as int], seen.visited, seen.reach, rest);
                let then = walk_of(seen.visited, next.0, seen.order);
                lemma_updated_sound(hoods, min_samples, seen, rest);
                lemma_updated_least(hoods, min_samples, seen, rest);
                lemma_drained_least(hoods, min_samples, then, next.1);
            }
        }
    }
}

/// Trying starting points keeps the reachabilities the smallest.
proof fn lemma_swept_least(hoods: Seq<Neighborhood>, min_samples: usize, k: nat)
    requires
        neighborhoods_valid(hoods),
        distances_normal(hoods, min_samples),
        k <= hoods.len(),
    ensures
        least(hoods, min_samples, swept(hoods, min_samples, k)),
    decreases k,
{
    if k > 0 {
        lemma_swept_least(hoods, min_samples, (k - 1) as nat);
        lemma_swept_sound(hoods, min_samples, (k - 1) as nat);
        let walk = swept(hoods, min_samples, (k - 1) as nat);
        let p = (k - 1) as usize;
        if !(walk.visited[p as int] || !hoods[p as int].is_core(min_samples)) {
            lemma_drained_least(hoods, min_samples, walk, seq![p]);
        }
    }
}

/// Where every reachability distance is a normal number, the reachability
/// that the traversal leaves for a visited point is at most the reachability
/// distance of that point from every core point that was visited before it
/// and has it within its radius.
pub proof fn lemma_reachability_least(
    hoods: Seq<Neighborhood>,
    min_samples: usize,
    i: int,
    j: int,
    k: int,
)
    requires
        neighborhoods_valid(hoods),
        distances_normal(hoods, min_samples),
        0 <= j < i < traversal(hoods, min_samples).order.len(),
        hoods[traversal(hoods, min_samples).order[j] as int].is_core(min_samples),
        neighbor_at(
            hoods,
            traversal(hoods, min_samples).order[j] as int,
            k,
            traversal(hoods, min_samples).order[i],
        ),
    ensures
        traversal(hoods, min_samples).reach[traversal(hoods, min_samples).order[i] as int].le(
            candidate(hoods, traversal(hoods, min_samples).order[j] as int, k),
        ),
{
    let walk = traversal(hoods, min_samples);
    lemma_swept_least(hoods, min_samples, hoods.len());
    assert(bounded(
        hoods,
        min_samples,
        walk.order,
        j,
        k,
        walk.order[i],
        walk.reach[walk.order[i] as int],
    ));
}

} // verus!
