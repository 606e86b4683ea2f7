//! The ordered traversal: every point that can be reached is visited once,
//! and each gets the smallest reachability distance found for it.
//!
//! What the traversal computes is defined here as a function of the
//! neighborhoods and of the number of neighbors that makes a core point
//! (`traversal`); the executable functions are proved to compute it.

use vstd::prelude::*;
use crate::neighborhood::{neighborhoods_valid, Neighbor, Neighborhood};
use crate::scalar::{Scalar, NAN_BITS};
use crate::seeds::{arrange, arranged, lemma_arranged_entries};

verus! {

/// The state of a traversal over `visited.len()` points.
pub struct Walk {
    /// For each point, whether it has been visited.
    pub visited: Seq<bool>,
    /// For each point, its reachability: the smallest reachability distance
    /// found so far, or a value that is not normal while none was found.
    pub reach: Seq<Scalar>,
    /// The points visited, in the order of their visits.
    pub order: Seq<usize>,
}

impl Walk {
    /// The state before any visit to one of `n` points.
    pub open spec fn start(n: nat) -> Walk {
        Walk {
            visited: Seq::new(n, |i: int| false),
            reach: Seq::new(n, |i: int| Scalar { bits: NAN_BITS }),
            order: Seq::empty(),
        }
    }

    /// The state after a visit to `p`.
    pub open spec fn visit(self, p: usize) -> Walk {
        Walk {
            visited: self.visited.update(p as int, true),
            reach: self.reach,
            order: self.order.push(p),
        }
    }
}

/// The state made of the three given parts.
pub open spec fn walk_of(visited: Seq<bool>, reach: Seq<Scalar>, order: Seq<usize>) -> Walk {
    Walk { visited, reach, order }
}

/// The number of points not yet visited.
pub open spec fn unvisited(visited: Seq<bool>) -> nat
    decreases visited.len(),
{
    if visited.len() == 0 {
        0
    } else {
        unvisited(visited.drop_last()) + if visited.last() {
            0nat
        } else {
            1nat
        }
    }
}

/// A visit leaves one point fewer to visit.
pub proof fn lemma_unvisited_falls(visited: Seq<bool>, p: int)
    requires
        0 <= p < visited.len(),
        !visited[p],
    ensures
        unvisited(visited.update(p, true)) + 1 == unvisited(visited),
    decreases visited.len(),
{
    let after = visited.update(p, true);
    if p == visited.len() - 1 {
        assert(after.drop_last() =~= visited.drop_last());
    } else {
        lemma_unvisited_falls(visited.drop_last(), p);
        assert(after.drop_last() =~= visited.drop_last().update(p, true));
    }
}

/// Before any visit, every point is still to visit.
pub proof fn lemma_unvisited_at_start(n: nat)
    ensures
        unvisited(Walk::start(n).visited) == n,
    decreases n,
{
    if n > 0 {
        lemma_unvisited_at_start((n - 1) as nat);
        assert(Walk::start(n).visited.drop_last() =~= Walk::start((n - 1) as nat).visited);
    }
}

/// The reachability distance of a point from a core point: its distance from
/// that point, but no less than the core distance of that point.
pub open spec fn reach_distance(distance: Scalar, core_distance: Scalar) -> Scalar {
    if distance.gt(core_distance) {
        distance
    } else {
        core_distance
    }
}

/// What one neighbor of a core point does to the reachabilities and to the
/// seed buffer. A visited neighbor does nothing. One without a normal
/// reachability gets the reachability distance and joins the buffer. One
/// with a normal reachability gets the reachability distance if that is
/// smaller.
pub open spec fn relax_one(
    neighbor: Neighbor,
    core_distance: Scalar,
    visited: Seq<bool>,
    reach: Seq<Scalar>,
    seeds: Seq<usize>,
) -> (Seq<Scalar>, Seq<usize>) {
    let o = neighbor.index as int;
    if o >= visited.len() || o >= reach.len() || visited[o] {
        (reach, seeds)
    } else {
        let found = reach_distance(neighbor.distance, core_distance);
        if !reach[o].is_normal() {
            (reach.update(o, found), seeds.push(neighbor.index))
        } else if found.lt(reach[o]) {
            (reach.update(o, found), seeds)
        } else {
            (reach, seeds)
        }
    }
}

/// The reachabilities and the seed buffer after the first `k` neighbors of a
/// core point have been looked at, in their order.
pub open spec fn relaxed(
    hood: Neighborhood,
    visited: Seq<bool>,
    reach: Seq<Scalar>,
    seeds: Seq<usize>,
    k: nat,
) -> (Seq<Scalar>, Seq<usize>)
    decreases k,
{
    if k == 0 {
        (reach, seeds)
    } else {
        let before = relaxed(hood, visited, reach, seeds, (k - 1) as nat);
        relax_one(hood.neighbors@[k - 1], hood.core_distance, visited, before.0, before.1)
    }
}

/// The reachabilities and the seed buffer after a visit to a core point: all
/// its neighbors have been looked at, and the buffer is in descending order
/// of reachability.
pub open spec fn updated(
    hood: Neighborhood,
    visited: Seq<bool>,
    reach: Seq<Scalar>,
    seeds: Seq<usize>,
) -> (Seq<Scalar>, Seq<usize>) {
    let scanned = relaxed(hood, visited, reach, seeds, hood.neighbors@.len());
    (scanned.0, arranged(scanned.1, scanned.0))
}

/// The state after the seed buffer has been emptied from its tail. An entry
/// that was visited meanwhile is dropped. Any other is visited, and if it is
/// a core point its neighbors are looked at and the buffer is put in order
/// again before the next entry is taken.
pub open spec fn drained(
    hoods: Seq<Neighborhood>,
    min_samples: usize,
    walk: Walk,
    seeds: Seq<usize>,
) -> Walk
    decreases unvisited(walk.visited), seeds.len(),
    via drained_decreases
{
    if seeds.len() == 0 {
        walk
    } else {
        let s = seeds.last();
        let rest = seeds.drop_last();
        if s >= walk.visited.len() || walk.visited[s as int] {
            drained(hoods, min_samples, walk, rest)
        } else {
            let seen = walk.visit(s);
            if !hoods[s as int].is_core(min_samples) {
                drained(hoods, min_samples, seen, rest)
            } else {
                let next = updated(hoods[s as int], seen.visited, seen.reach, rest);
                drained(
                    hoods,
                    min_samples,
                    Walk { visited: seen.visited, reach: next.0, order: seen.order },
                    next.1,
                )
            }
        }
    }
}

#[via_fn]
proof fn drained_decreases(
    hoods: Seq<Neighborhood>,
    min_samples: usize,
    walk: Walk,
    seeds: Seq<usize>,
) {
    if seeds.len() > 0 {
        let s = seeds.last();
        if s < walk.visited.len() && !walk.visited[s as int] {
            lemma_unvisited_falls(walk.visited, s as int);
        }
    }
}

/// The state after an expansion from `p`: `p` is visited, and so is every
/// point that its seed buffer comes to hold.
pub open spec fn expanded(
    hoods: Seq<Neighborhood>,
    min_samples: usize,
    walk: Walk,
    p: usize,
) -> Walk {
    drained(hoods, min_samples, walk, seq![p])
}

/// The state after the points before `k` have been tried as starting points,
/// in ascending order. An expansion starts from each that is a core point
/// and was not visited before its turn.
pub open spec fn swept(hoods: Seq<Neighborhood>, min_samples: usize, k: nat) -> Walk
    decreases k,
{
    if k == 0 {
        Walk::start(hoods.len())
    } else {
        let walk = swept(hoods, min_samples, (k - 1) as nat);
        let p = (k - 1) as usize;
        if walk.visited[p as int] || !hoods[p as int].is_core(min_samples) {
            walk
        } else {
            expanded(hoods, min_samples, walk, p)
        }
    }
}

/// The state at the end of the traversal: every point has been tried as a
/// starting point.
pub open spec fn traversal(hoods: Seq<Neighborhood>, min_samples: usize) -> Walk {
    swept(hoods, min_samples, hoods.len())
}

/// The reachability distance of the `k`-th neighbor of a core point from
/// that point.
pub fn reachability_distance(k: usize, neighborhood: &Neighborhood) -> (found: Scalar)
    requires
        k < neighborhood.neighbors.len(),
    ensures
        found == reach_distance(
            neighborhood.neighbors@[k as int].distance,
            neighborhood.core_distance,
        ),
{
    let dist = neighborhood.neighbors[k].distance;
    if dist.gt(neighborhood.core_distance) {
        dist
    } else {
        neighborhood.core_distance
    }
}

/// Looks at every neighbor of a core point that was just visited: lowers the
/// reachability of those not yet visited, adds those that had none to the
/// seed buffer, and puts the buffer in descending order of reachability.
pub fn update(
    neighborhood: &Neighborhood,
    visited: &Vec<bool>,
    seeds: &mut Vec<usize>,
    reachability: &mut Vec<Scalar>,
)
    requires
        visited.len() == old(reachability).len(),
        forall|k: int|
            0 <= k < neighborhood.neighbors.len() ==> (#[trigger] neighborhood.neighbors@[k]).index
                < visited.len(),
        forall|i: int| 0 <= i < old(seeds).len() ==> (#[trigger] old(seeds)[i]) < visited.len(),
    ensures
        (final(reachability)@, final(seeds)@) == updated(
            *neighborhood,
            visited@,
            old(reachability)@,
            old(seeds)@,
        ),
        final(reachability).len() == old(reachability).len(),
        forall|i: int| 0 <= i < final(seeds).len() ==> (#[trigger] final(seeds)[i]) < visited.len(),
{
    let ghost reach0 = reachability@;
    let ghost seeds0 = seeds@;
    let m: usize = neighborhood.neighbors.len();
    for k in 0..m
        invariant
            m == neighborhood.neighbors.len(),
            visited.len() == reachability.len(),
            forall|j: int|
                0 <= j < neighborhood.neighbors.len() ==> (
                #[trigger] neighborhood.neighbors@[j]).index < visited.len(),
            forall|i: int| 0 <= i < seeds.len() ==> (#[trigger] seeds[i]) < visited.len(),
            (reachability@, seeds@) == relaxed(*neighborhood, visited@, reach0, seeds0, k as nat),
    {
        let o: usize = neighborhood.neighbors[k].index;
        if !visited[o] {
            let found = reachability_distance(k, neighborhood);
            if !reachability[o].is_normal() {
                reachability[o] = found;
                seeds.push(o);
            } else if found.lt(reachability[o]) {
                reachability[o] = found;
            }
        }
    }
    let sorted = arrange(seeds, reachability);
    proof {
        lemma_arranged_entries(seeds@, reachability@);
    }
    *seeds = sorted;
}

/// Expands from `idx`: visits it and, if it is a core point, every point
/// that its seed buffer comes to hold, always the one with the smallest
/// reachability first.
pub fn process(
    idx: usize,
    min_samples: usize,
    neighborhoods: &Vec<Neighborhood>,
    ordered: &mut Vec<usize>,
    reachability: &mut Vec<Scalar>,
    visited: &mut Vec<bool>,
)
    requires
        idx < neighborhoods.len(),
        neighborhoods_valid(neighborhoods@),
        old(visited).len() == neighborhoods.len(),
        old(reachability).len() == neighborhoods.len(),
    ensures
        walk_of(final(visited)@, final(reachability)@, final(ordered)@)
            == expanded(
            neighborhoods@,
            min_samples,
            walk_of(old(visited)@, old(reachability)@, old(ordered)@),
            idx,
        ),
        final(visited).len() == neighborhoods.len(),
        final(reachability).len() == neighborhoods.len(),
{
    let ghost goal = expanded(
        neighborhoods@,
        min_samples,
        walk_of(visited@, reachability@, ordered@),
        idx,
    );
    let mut to_visit: Vec<usize> = Vec::new();
    to_visit.push(idx);
    while to_visit.len() > 0
        invariant
            neighborhoods_valid(neighborhoods@),
            visited.len() == neighborhoods.len(),
            reachability.len() == neighborhoods.len(),
            to_visit.len() <= 1,
            forall|i: int| 0 <= i < to_visit.len() ==> (#[trigger] to_visit[i]) < visited.len(),
            drained(
                neighborhoods@,
                min_samples,
                walk_of(visited@, reachability@, ordered@),
                to_visit@,
            ) == goal,
        decreases to_visit.len(),
    {
        let cur: usize = to_visit.pop().unwrap();
        assert(to_visit@ =~= Seq::<usize>::empty());
        if visited[cur] {
            continue;
        }
        visited[cur] = true;
        ordered.push(cur);
        if neighborhoods[cur].neighbors.len() < min_samples {
            continue;
        }
        let mut seeds: Vec<usize> = Vec::new();
        update(&neighborhoods[cur], visited, &mut seeds, reachability);
        while seeds.len() > 0
            invariant
                neighborhoods_valid(neighborhoods@),
                visited.len() == neighborhoods.len(),
                reachability.len() == neighborhoods.len(),
                to_visit.len() == 0,
                forall|i: int| 0 <= i < seeds.len() ==> (#[trigger] seeds[i]) < visited.len(),
                drained(
                    neighborhoods@,
                    min_samples,
                    walk_of(visited@, reachability@, ordered@),
                    seeds@,
                ) == goal,
            decreases unvisited(visited@), seeds.len(),
        {
            let s: usize = seeds.pop().unwrap();
            if visited[s] {
                continue;
            }
            proof {
                lemma_unvisited_falls(visited@, s as int);
            }
            visited[s] = true;
            ordered.push(s);
            if neighborhoods[s].neighbors.len() < min_samples {
                continue;
            }
            update(&neighborhoods[s], visited, &mut seeds, reachability);
        }
    }
}

/// Visits the points: tries each in ascending order as a starting point, and
/// expands from it if it is a core point that no earlier expansion reached.
/// Returns the points in the order of their visits, and the reachability of
/// every point.
pub fn traverse(neighborhoods: &Vec<Neighborhood>, min_samples: usize) -> (found: (
    Vec<usize>,
    Vec<Scalar>,
))
    requires
        neighborhoods_valid(neighborhoods@),
    ensures
        found.0@ == traversal(neighborhoods@, min_samples).order,
        found.1@ == traversal(neighborhoods@, min_samples).reach,
{
    let n: usize = neighborhoods.len();
    let mut visited: Vec<bool> = vec![false; n];
    let mut reachability: Vec<Scalar> = vec![Scalar::nan(); n];
    let mut ordered: Vec<usize> = Vec::with_capacity(n);
    assert(visited@ =~= Walk::start(n as nat).visited);
    assert(reachability@ =~= Walk::start(n as nat).reach);
    for idx in 0..n
        invariant
            n == neighborhoods.len(),
            neighborhoods_valid(neighborhoods@),
            visited.len() == n,
            reachability.len() == n,
            walk_of(visited@, reachability@, ordered@) == swept(
                neighborhoods@,
                min_samples,
                idx as nat,
            ),
    {
        if !visited[idx] && neighborhoods[idx].neighbors.len() >= min_samples {
            process(idx, min_samples, neighborhoods, &mut ordered, &mut reachability, &mut visited);
        }
    }
    (ordered, reachability)
}

} // verus!
