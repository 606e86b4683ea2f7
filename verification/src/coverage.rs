//! Which points a traversal visits.
//!
//! A traversal visits every core point and every point within the radius of
//! a core point, and no other. A point that is neither is left out: it is in
//! no cluster and is no outlier.

use vstd::prelude::*;
use crate::neighborhood::{neighborhoods_valid, Neighborhood};
use crate::scalar::Scalar;
use crate::seeds::{lemma_arranged_entries, lemma_arranged_keeps};
use crate::soundness::{lemma_swept_sound, lemma_updated_sound, lemma_visit_sound, sound};
use crate::traversal::{
    drained, lemma_unvisited_falls, relaxed, swept, traversal, unvisited, updated,
    walk_of, Walk,
};

verus! {

/// The `k`-th point within the radius of `c` is `p`.
pub open spec fn neighbor_at(hoods: Seq<Neighborhood>, c: int, k: int, p: usize) -> bool {
    0 <= k < hoods[c].neighbors@.len() && hoods[c].neighbors@[k].index == p
}

/// `c` is a core point and `p` is within its radius.
pub open spec fn within_reach_of(
    hoods: Seq<Neighborhood>,
    min_samples: usize,
    c: int,
    p: usize,
) -> bool {
    0 <= c < hoods.len() && hoods[c].is_core(min_samples) && exists|k: int| #[trigger]
        neighbor_at(hoods, c, k, p)
}

/// `p` is a core point or within the radius of one.
pub open spec fn reachable(hoods: Seq<Neighborhood>, min_samples: usize, p: usize) -> bool {
    p < hoods.len() && (hoods[p as int].is_core(min_samples) || exists|c: int| #[trigger]
        within_reach_of(hoods, min_samples, c, p))
}

/// `x` is one of the first `k` points within the radius that `hood` lists.
spec fn listed_before(hood: Neighborhood, k: int, x: usize) -> bool {
    exists|j: int| 0 <= j < k && (#[trigger] hood.neighbors@[j]).index == x
}

/// `o` was visited or waits in the seed buffer.
spec fn awaited(visited: Seq<bool>, seeds: Seq<usize>, o: usize) -> bool {
    visited[o as int] || seeds.contains(o)
}

/// Every point not visited that has a normal reachability waits in the seed
/// buffer.
spec fn queued(visited: Seq<bool>, reach: Seq<Scalar>, seeds: Seq<usize>) -> bool {
    forall|p: usize|
        p < reach.len() && !visited[p as int] && (#[trigger] reach[p as int]).is_normal()
            ==> seeds.contains(p)
}

/// Nothing was visited or is waiting that cannot be reached, and nothing that
/// can be reached from a visited core point is forgotten.
spec fn thorough(
    hoods: Seq<Neighborhood>,
    min_samples: usize,
    walk: Walk,
    seeds: Seq<usize>,
) -> bool {
    &&& forall|i: int|
        0 <= i < walk.order.len() ==> reachable(hoods, min_samples, #[trigger] walk.order[i])
    &&& forall|i: int| 0 <= i < seeds.len() ==> reachable(hoods, min_samples, #[trigger] seeds[i])
    &&& forall|j: int, k: int|
        0 <= j < walk.order.len() && hoods[walk.order[j] as int].is_core(min_samples) && 0 <= k
            < hoods[walk.order[j] as int].neighbors@.len() ==> awaited(
            walk.visited,
            seeds,
            (#[trigger] hoods[walk.order[j] as int].neighbors@[k]).index,
        )
    &&& queued(walk.visited, walk.reach, seeds)
}

/// Looking at neighbors keeps the buffer and adds only neighbors to it;
/// afterwards every neighbor looked at was visited or waits in the buffer,
/// and so does every point with a normal reachability.
proof fn lemma_relaxed_thorough(
    hood: Neighborhood,
    visited: Seq<bool>,
    reach: Seq<Scalar>,
    seeds: Seq<usize>,
    k: nat,
)
    requires
        visited.len() == reach.len(),
        k <= hood.neighbors@.len(),
        queued(visited, reach, seeds),
        forall|i: int|
            0 <= i < hood.neighbors@.len() ==> (#[trigger] hood.neighbors@[i]).index < reach.len(),
    ensures
        relaxed(hood, visited, reach, seeds, k).0.len() == reach.len(),
        relaxed(hood, visited, reach, seeds, k).1.len() >= seeds.len(),
        forall|i: int|
            0 <= i < seeds.len() ==> relaxed(hood, visited, reach, seeds, k).1[i] == seeds[i],
        forall|i: int|
            seeds.len() <= i < relaxed(hood, visited, reach, seeds, k).1.len() ==> listed_before(
                hood,
                k as int,
                #[trigger] relaxed(hood, visited, reach, seeds, k).1[i],
            ),
        queued(
            visited,
            relaxed(hood, visited, reach, seeds, k).0,
            relaxed(hood, visited, reach, seeds, k).1,
        ),
        forall|j: int|
            0 <= j < k ==> awaited(
                visited,
                relaxed(hood, visited, reach, seeds, k).1,
                (#[trigger] hood.neighbors@[j]).index,
            ),
    decreases k,
{
    if k > 0 {
        lemma_relaxed_thorough(hood, visited, reach, seeds, (k - 1) as nat);
        let before = relaxed(hood, visited, reach, seeds, (k - 1) as nat);
        let after = relaxed(hood, visited, reach, seeds, k);
        let o = hood.neighbors@[k - 1].index;
        assert forall|p: usize|
            p < after.0.len() && !visited[p as int] && (
            #[trigger] after.0[p as int]).is_normal() implies after.1.contains(p) by {
            if p == o {
                if !before.0[p as int].is_normal() {
                    assert(after.1[before.1.len() as int] == o);
                }
            } else {
                let i = choose|i: int| 0 <= i < before.1.len() && before.1[i] == p;
                assert(after.1[i] == p);
            }
        }
        assert forall|j: int| 0 <= j < k implies awaited(
            visited,
            after.1,
            (#[trigger] hood.neighbors@[j]).index,
        ) by {
            let q = hood.neighbors@[j].index;
            if !visited[q as int] {
                if j < k - 1 {
                    let i = choose|i: int| 0 <= i < before.1.len() && before.1[i] == q;
                    assert(after.1[i] == q);
                } else if !before.0[q as int].is_normal() {
                    assert(after.1[before.1.len() as int] == q);
                }
            }
        }
    }
}

/// Looking at the neighbors of the core point that was visited last keeps
/// the state thorough.
proof fn lemma_updated_thorough(
    hoods: Seq<Neighborhood>,
    min_samples: usize,
    walk: Walk,
    seeds: Seq<usize>,
)
    requires
        neighborhoods_valid(hoods),
        sound(hoods, min_samples, walk),
        walk.order.len() > 0,
        hoods[walk.order.last() as int].is_core(min_samples),
        forall|i: int|
            0 <= i < walk.order.len() ==> reachable(hoods, min_samples, #[trigger] walk.order[i]),
        forall|i: int| 0 <= i < seeds.len() ==> reachable(hoods, min_samples, #[trigger] seeds[i]),
        forall|j: int, k: int|
            0 <= j < walk.order.len() - 1 && hoods[walk.order[j] as int].is_core(min_samples) && 0
                <= k < hoods[walk.order[j] as int].neighbors@.len() ==> awaited(
                walk.visited,
                seeds,
                (#[trigger] hoods[walk.order[j] as int].neighbors@[k]).index,
            ),
        queued(walk.visited, walk.reach, seeds),
    ensures
        thorough(
            hoods,
            min_samples,
            walk_of(
                walk.visited,
                updated(hoods[walk.order.last() as int], walk.visited, walk.reach, seeds).0,
                walk.order,
            ),
            updated(hoods[walk.order.last() as int], walk.visited, walk.reach, seeds).1,
        ),
{
    let s = walk.order.last();
    let hood = hoods[s as int];
    let m = hood.neighbors@.len();
    let scanned = relaxed(hood, walk.visited, walk.reach, seeds, m);
    let next = updated(hood, walk.visited, walk.reach, seeds);
    lemma_relaxed_thorough(hood, walk.visited, walk.reach, seeds, m);
    lemma_arranged_entries(scanned.1, scanned.0);
    assert forall|x: usize| scanned.1.contains(x) implies next.1.contains(x) by {
        lemma_arranged_keeps(scanned.1, scanned.0, x);
    }
    assert forall|i: int| 0 <= i < next.1.len() implies reachable(
        hoods,
        min_samples,
        #[trigger] next.1[i],
    ) by {
        let x = next.1[i];
        let a = choose|a: int| 0 <= a < scanned.1.len() && scanned.1[a] == x;
        if a < seeds.len() {
            assert(seeds[a] == x);
        } else {
            let j = choose|j: int| 0 <= j < m && (#[trigger] hood.neighbors@[j]).index == x;
            assert(neighbor_at(hoods, s as int, j, x));
            assert(within_reach_of(hoods, min_samples, s as int, x));
        }
    }
}

/// Emptying a seed buffer ends in a thorough state with nothing waiting, and
/// every point that was visited stays visited.
proof fn lemma_drained_thorough(
    hoods: Seq<Neighborhood>,
    min_samples: usize,
    walk: Walk,
    seeds: Seq<usize>,
)
    requires
        neighborhoods_valid(hoods),
        sound(hoods, min_samples, walk),
        thorough(hoods, min_samples, walk, seeds),
    ensures
        thorough(
            hoods,
            min_samples,
            drained(hoods, min_samples, walk, seeds),
            Seq::<usize>::empty(),
        ),
        forall|p: int|
            0 <= p < hoods.len() && #[trigger] walk.visited[p] ==> drained(
                hoods,
                min_samples,
                walk,
                seeds,
            ).visited[p],
    decreases unvisited(walk.visited), seeds.len(),
{
    let end = drained(hoods, min_samples, walk, seeds);
    if seeds.len() > 0 {
        let s = seeds.last();
        let rest = seeds.drop_last();
        assert forall|x: usize| seeds.contains(x) && x != s implies rest.contains(x) by {
            let i = choose|i: int| 0 <= i < seeds.len() && seeds[i] == x;
            assert(rest[i] == x);
        }
        if walk.visited[s as int] {
            lemma_drained_thorough(hoods, min_samples, walk, rest);
        } else {
            let seen = walk.visit(s);
            lemma_visit_sound(hoods, min_samples, walk, s);
            lemma_unvisited_falls(walk.visited, s as int);
            if !hoods[s as int].is_core(min_samples) {
                lemma_drained_thorough(hoods, min_samples, seen, rest);
            } else {
                let next = updated(hoods[s as int], seen.visited, seen.reach, rest);
                let then = walk_of(seen.visited, next.0, seen.order);
                lemma_updated_sound(hoods, min_samples, seen, rest);
                lemma_updated_thorough(hoods, min_samples, seen, rest);
                lemma_drained_thorough(hoods, min_samples, then, next.1);
            }
            assert forall|p: int|
                0 <= p < hoods.len() && #[trigger] walk.visited[p] implies end.visited[p] by {
                assert(seen.visited[p]);
            }
        }
    }
}

/// After the points before `k` have been tried as starting points, each of
/// them that is a core point was visited, and nothing is waiting.
proof fn lemma_swept_thorough(hoods: Seq<Neighborhood>, min_samples: usize, k: nat)
    requires
        neighborhoods_valid(hoods),
        hoods.len() <= usize::MAX,
        k <= hoods.len(),
    ensures
        thorough(hoods, min_samples, swept(hoods, min_samples, k), Seq::<usize>::empty()),
        forall|p: int|
            0 <= p < k && hoods[p].is_core(min_samples) ==> swept(hoods, min_samples, k).visited[p],
    decreases k,
{
    lemma_swept_sound(hoods, min_samples, k);
    if k > 0 {
        lemma_swept_thorough(hoods, min_samples, (k - 1) as nat);
        lemma_swept_sound(hoods, min_samples, (k - 1) as nat);
        let walk = swept(hoods, min_samples, (k - 1) as nat);
        let p = (k - 1) as usize;
        if !(walk.visited[p as int] || !hoods[p as int].is_core(min_samples)) {
            let start = seq![p];
            lemma_drained_thorough(hoods, min_samples, walk, start);
            lemma_visited_at_once(hoods, min_samples, walk, p);
        }
        let end = swept(hoods, min_samples, k);
        assert forall|q: int|
            0 <= q < k && hoods[q].is_core(min_samples) implies end.visited[q] by {
            if q < k - 1 {
                assert(walk.visited[q]);
            }
        }
    }
}

/// An expansion visits the point it starts from.
proof fn lemma_visited_at_once(hoods: Seq<Neighborhood>, min_samples: usize, walk: Walk, p: usize)
    requires
        neighborhoods_valid(hoods),
        sound(hoods, min_samples, walk),
        thorough(hoods, min_samples, walk, seq![p]),
        p < hoods.len(),
        !walk.visited[p as int],
    ensures
        drained(hoods, min_samples, walk, seq![p]).visited[p as int],
{
    let start = seq![p];
    let rest = start.drop_last();
    let seen = walk.visit(p);
    lemma_visit_sound(hoods, min_samples, walk, p);
    if !hoods[p as int].is_core(min_samples) {
        assert(drained(hoods, min_samples, seen, rest) == seen);
    } else {
        let next = updated(hoods[p as int], seen.visited, seen.reach, rest);
        let then = walk_of(seen.visited, next.0, seen.order);
        lemma_updated_sound(hoods, min_samples, seen, rest);
        lemma_updated_thorough(hoods, min_samples, seen, rest);
        lemma_drained_thorough(hoods, min_samples, then, next.1);
    }
}

/// The traversal visits exactly the points that can be reached: the core
/// points and the points within the radius of a core point.
pub proof fn lemma_traversal_covers(hoods: Seq<Neighborhood>, min_samples: usize)
    requires
        neighborhoods_valid(hoods),
        hoods.len() <= usize::MAX,
    ensures
        forall|p: usize|
            #![trigger traversal(hoods, min_samples).order.contains(p)]
            #![trigger reachable(hoods, min_samples, p)]
            traversal(hoods, min_samples).order.contains(p) <==> reachable(hoods, min_samples, p),
{
    let walk = traversal(hoods, min_samples);
    lemma_swept_sound(hoods, min_samples, hoods.len());
    lemma_swept_thorough(hoods, min_samples, hoods.len());
    assert forall|p: usize| reachable(hoods, min_samples, p) implies walk.order.contains(p) by {
        if !hoods[p as int].is_core(min_samples) {
            let c = choose|c: int| #[trigger] within_reach_of(hoods, min_samples, c, p);
            assert(walk.visited[c]);
        }
    }
}

} // verus!
