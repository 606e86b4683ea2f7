//! What holds of every state of a traversal.
//!
//! A state is sound if no point was visited twice, the visited points are
//! exactly those in the order, and every reachability that was set is
//! backed: it is the reachability distance of its point from a core point
//! that was visited earlier. A backed reachability that is normal is at
//! least the core distance of that core point, which is what makes a wider
//! threshold keep every clustered point in a cluster.

use vstd::prelude::*;
use crate::neighborhood::Neighborhood;
use crate::scalar::{Scalar, NAN_BITS};
use crate::traversal::{
    drained, lemma_unvisited_at_start, lemma_unvisited_falls, reach_distance, relaxed, swept,
    traversal, unvisited, updated, walk_of, Walk,
};

verus! {

/// `r` is the reachability distance of `p` from the point whose neighborhood
/// is `hood`, which has `p` within its radius.
pub open spec fn came_from(hood: Neighborhood, p: usize, r: Scalar) -> bool {
    exists|k: int|
        0 <= k < hood.neighbors@.len() && (#[trigger] hood.neighbors@[k]).index == p && r
            == reach_distance(hood.neighbors@[k].distance, hood.core_distance)
}

/// The `j`-th visited point is a core point, and `r` is the reachability
/// distance of `p` from it.
pub open spec fn backed_at(
    hoods: Seq<Neighborhood>,
    min_samples: usize,
    order: Seq<usize>,
    j: int,
    p: usize,
    r: Scalar,
) -> bool {
    hoods[order[j] as int].is_core(min_samples) && came_from(hoods[order[j] as int], p, r)
}

/// `r` is the reachability distance of `p` from a core point among the first
/// `limit` visited points.
pub open spec fn backed_before(
    hoods: Seq<Neighborhood>,
    min_samples: usize,
    order: Seq<usize>,
    limit: int,
    p: usize,
    r: Scalar,
) -> bool {
    exists|j: int| 0 <= j < limit && #[trigger] backed_at(hoods, min_samples, order, j, p, r)
}

/// Whether a reachability was set: it is not the mark that every point
/// starts with.
pub open spec fn was_set(r: Scalar) -> bool {
    r.bits != NAN_BITS
}

/// Every reachability of a visited point that was set is the reachability
/// distance of that point from a core point visited before it.
pub open spec fn supported(
    order: Seq<usize>,
    reach: Seq<Scalar>,
    hoods: Seq<Neighborhood>,
    min_samples: usize,
) -> bool {
    forall|i: int|
        0 <= i < order.len() && was_set(reach[#[trigger] order[i] as int]) ==> backed_before(
            hoods,
            min_samples,
            order,
            i,
            order[i],
            reach[order[i] as int],
        )
}

/// A reachability distance that is normal is at least the core distance it
/// was taken from.
pub proof fn lemma_reach_distance_bounds(distance: Scalar, core_distance: Scalar)
    requires
        reach_distance(distance, core_distance).is_normal(),
    ensures
        core_distance.le(reach_distance(distance, core_distance)),
{
}

/// A normal reachability that is backed by a core point is at least the core
/// distance of that point.
pub proof fn lemma_backed_supports(
    hoods: Seq<Neighborhood>,
    min_samples: usize,
    order: Seq<usize>,
    j: int,
    p: usize,
    r: Scalar,
)
    requires
        backed_at(hoods, min_samples, order, j, p, r),
        r.is_normal(),
    ensures
        hoods[order[j] as int].supports(min_samples, r),
{
    let hood = hoods[order[j] as int];
    let k = choose|k: int|
        0 <= k < hood.neighbors@.len() && (#[trigger] hood.neighbors@[k]).index == p && r
            == reach_distance(hood.neighbors@[k].distance, hood.core_distance);
    lemma_reach_distance_bounds(hood.neighbors@[k].distance, hood.core_distance);
}

/// The state is one that a traversal of `hoods` can be in: there is an entry
/// for every point, the order holds the visited points, each once, and
/// every reachability that was set is backed by a core point in the order,
/// one before the point if the point was visited itself.
pub open spec fn sound(hoods: Seq<Neighborhood>, min_samples: usize, walk: Walk) -> bool {
    &&& walk.visited.len() == hoods.len()
    &&& walk.reach.len() == hoods.len()
    &&& walk.order.len() + unvisited(walk.visited) == hoods.len()
    &&& forall|i: int| 0 <= i < walk.order.len() ==> (#[trigger] walk.order[i]) < hoods.len()
    &&& walk.order.no_duplicates()
    &&& forall|i: int| 0 <= i < walk.order.len() ==> walk.visited[#[trigger] walk.order[i] as int]
    &&& forall|p: int|
        0 <= p < hoods.len() && #[trigger] walk.visited[p] ==> walk.order.contains(p as usize)
    &&& supported(walk.order, walk.reach, hoods, min_samples)
    &&& forall|p: usize|
        p < hoods.len() && !walk.visited[p as int] && was_set(#[trigger] walk.reach[p as int])
            ==> backed_before(
            hoods,
            min_samples,
            walk.order,
            walk.order.len() as int,
            p,
            walk.reach[p as int],
        )
}

/// A visit to a point that was not visited keeps the state sound.
pub(crate) proof fn lemma_visit_sound(
    hoods: Seq<Neighborhood>,
    min_samples: usize,
    walk: Walk,
    s: usize,
)
    requires
        sound(hoods, min_samples, walk),
        s < hoods.len(),
        !walk.visited[s as int],
    ensures
        sound(hoods, min_samples, walk.visit(s)),
{
    let after = walk.visit(s);
    let len = walk.order.len() as int;
    lemma_unvisited_falls(walk.visited, s as int);
    assert forall|p: int|
        0 <= p < hoods.len() && #[trigger] after.visited[p] implies after.order.contains(
        p as usize,
    ) by {
        if p == s {
            assert(after.order[len] == s);
        } else {
            let k = choose|k: int| 0 <= k < walk.order.len() && walk.order[k] == p as usize;
            assert(after.order[k] == p as usize);
        }
    }
    assert forall|i: int|
        0 <= i < after.order.len() && was_set(
            after.reach[#[trigger] after.order[i] as int],
        ) implies backed_before(
        hoods,
        min_samples,
        after.order,
        i,
        after.order[i],
        after.reach[after.order[i] as int],
    ) by {
        let q = after.order[i];
        let r = after.reach[q as int];
        if i < len {
            let j = choose|j: int| 0 <= j < i && backed_at(hoods, min_samples, walk.order, j, q, r);
            assert(backed_at(hoods, min_samples, after.order, j, q, r));
        } else {
            let j = choose|j: int|
                0 <= j < len && backed_at(hoods, min_samples, walk.order, j, q, r);
            assert(backed_at(hoods, min_samples, after.order, j, q, r));
        }
    }
    assert forall|p: usize|
        p < hoods.len() && !after.visited[p as int] && was_set(
            #[trigger] after.reach[p as int],
        ) implies backed_before(
        hoods,
        min_samples,
        after.order,
        after.order.len() as int,
        p,
        after.reach[p as int],
    ) by {
        let r = walk.reach[p as int];
        let j = choose|j: int| 0 <= j < len && backed_at(hoods, min_samples, walk.order, j, p, r);
        assert(backed_at(hoods, min_samples, after.order, j, p, r));
    }
}

/// Looking at neighbors of a point changes no reachability of a visited
/// point, and every reachability it sets is the reachability distance of its
/// point from that point.
pub(crate) proof fn lemma_relaxed_sound(
    hood: Neighborhood,
    visited: Seq<bool>,
    reach: Seq<Scalar>,
    seeds: Seq<usize>,
    k: nat,
)
    requires
        visited.len() == reach.len(),
        k <= hood.neighbors@.len(),
    ensures
        relaxed(hood, visited, reach, seeds, k).0.len() == reach.len(),
        forall|p: usize|
            p < reach.len() ==> {
                let r = #[trigger] relaxed(hood, visited, reach, seeds, k).0[p as int];
                r == reach[p as int] || (!visited[p as int] && came_from(hood, p, r))
            },
    decreases k,
{
    if k > 0 {
        lemma_relaxed_sound(hood, visited, reach, seeds, (k - 1) as nat);
        let after = relaxed(hood, visited, reach, seeds, k);
        assert forall|p: usize| p < reach.len() implies {
            let r = #[trigger] after.0[p as int];
            r == reach[p as int] || (!visited[p as int] && came_from(hood, p, r))
        } by {}
    }
}

/// Looking at the neighbors of the core point that was visited last keeps
/// the state sound.
pub(crate) proof fn lemma_updated_sound(
    hoods: Seq<Neighborhood>,
    min_samples: usize,
    walk: Walk,
    seeds: Seq<usize>,
)
    requires
        sound(hoods, min_samples, walk),
        walk.order.len() > 0,
        hoods[walk.order.last() as int].is_core(min_samples),
    ensures
        sound(
            hoods,
            min_samples,
            walk_of(
                walk.visited,
                updated(hoods[walk.order.last() as int], walk.visited, walk.reach, seeds).0,
                walk.order,
            ),
        ),
{
    let hood = hoods[walk.order.last() as int];
    let reach = updated(hood, walk.visited, walk.reach, seeds).0;
    let after = walk_of(walk.visited, reach, walk.order);
    let len = walk.order.len() as int;
    lemma_relaxed_sound(hood, walk.visited, walk.reach, seeds, hood.neighbors@.len());
    assert forall|p: usize|
        p < hoods.len() && !after.visited[p as int] && was_set(
            #[trigger] after.reach[p as int],
        ) implies backed_before(
        hoods,
        min_samples,
        after.order,
        after.order.len() as int,
        p,
        after.reach[p as int],
    ) by {
        let r = reach[p as int];
        if r != walk.reach[p as int] {
            assert(backed_at(hoods, min_samples, walk.order, len - 1, p, r));
        }
    }
}

/// Emptying a seed buffer keeps the state sound.
proof fn lemma_drained_sound(
    hoods: Seq<Neighborhood>,
    min_samples: usize,
    walk: Walk,
    seeds: Seq<usize>,
)
    requires
        sound(hoods, min_samples, walk),
    ensures
        sound(hoods, min_samples, drained(hoods, min_samples, walk, seeds)),
    decreases unvisited(walk.visited), seeds.len(),
{
    if seeds.len() > 0 {
        let s = seeds.last();
        let rest = seeds.drop_last();
        if s >= walk.visited.len() || walk.visited[s as int] {
            lemma_drained_sound(hoods, min_samples, walk, rest);
        } else {
            let seen = walk.visit(s);
            lemma_visit_sound(hoods, min_samples, walk, s);
            lemma_unvisited_falls(walk.visited, s as int);
            if !hoods[s as int].is_core(min_samples) {
                lemma_drained_sound(hoods, min_samples, seen, rest);
            } else {
                let next = updated(hoods[s as int], seen.visited, seen.reach, rest);
                lemma_updated_sound(hoods, min_samples, seen, rest);
                lemma_drained_sound(
                    hoods,
                    min_samples,
                    walk_of(seen.visited, next.0, seen.order),
                    next.1,
                );
            }
        }
    }
}

/// Trying starting points keeps the state sound.
pub(crate) proof fn lemma_swept_sound(hoods: Seq<Neighborhood>, min_samples: usize, k: nat)
    requires
        k <= hoods.len(),
    ensures
        sound(hoods, min_samples, swept(hoods, min_samples, k)),
    decreases k,
{
    if k == 0 {
        lemma_unvisited_at_start(hoods.len());
    } else {
        lemma_swept_sound(hoods, min_samples, (k - 1) as nat);
        let walk = swept(hoods, min_samples, (k - 1) as nat);
        let p = (k - 1) as usize;
        if !(walk.visited[p as int] || !hoods[p as int].is_core(min_samples)) {
            lemma_drained_sound(hoods, min_samples, walk, seq![p]);
        }
    }
}

/// The traversal ends in a sound state: it visited no point twice, its
/// order holds exactly the visited points, and every reachability of a
/// visited point that was set is the reachability distance of that point
/// from a core point visited before it.
pub proof fn lemma_traversal_sound(hoods: Seq<Neighborhood>, min_samples: usize)
    ensures
        sound(hoods, min_samples, traversal(hoods, min_samples)),
{
    lemma_swept_sound(hoods, min_samples, hoods.len());
}

} // verus!
