//! The seed buffer: points waiting to be visited, kept so that the one with
//! the smallest reachability is taken next.
//!
//! The buffer is a plain vector that is put in descending order of
//! reachability after every scan of a neighborhood, so that taking from the
//! tail yields the smallest reachability first.

use vstd::prelude::*;
use crate::scalar::{Scalar, SIGN_BIT};

verus! {

/// `sorted` with `x` put behind the last entry whose reachability is not
/// below that of `x`.
pub open spec fn placed(sorted: Seq<usize>, reach: Seq<Scalar>, x: usize) -> Seq<usize>
    decreases sorted.len(),
{
    if sorted.len() == 0 {
        seq![x]
    } else if reach[sorted.last() as int].rank() >= reach[x as int].rank() {
        sorted.push(x)
    } else {
        placed(sorted.drop_last(), reach, x).push(sorted.last())
    }
}

/// The entries of `seeds` in descending order of reachability: each in turn
/// is placed among those before it.
pub open spec fn arranged(seeds: Seq<usize>, reach: Seq<Scalar>) -> Seq<usize>
    decreases seeds.len(),
{
    if seeds.len() == 0 {
        seeds
    } else {
        placed(arranged(seeds.drop_last(), reach), reach, seeds.last())
    }
}

/// No entry has a smaller reachability than an entry behind it.
pub open spec fn descending(seeds: Seq<usize>, reach: Seq<Scalar>) -> bool {
    forall|i: int, j: int|
        0 <= i <= j < seeds.len() ==> reach[#[trigger] seeds[i] as int].rank()
            >= reach[#[trigger] seeds[j] as int].rank()
}

/// Placing an entry keeps a descending buffer descending, adds that entry and
/// no other, and keeps the length in step.
proof fn lemma_placed(sorted: Seq<usize>, reach: Seq<Scalar>, x: usize)
    requires
        descending(sorted, reach),
    ensures
        descending(placed(sorted, reach, x), reach),
        placed(sorted, reach, x).to_multiset() =~= sorted.to_multiset().insert(x),
        placed(sorted, reach, x).len() == sorted.len() + 1,
    decreases sorted.len(),
{
    broadcast use vstd::seq_lib::group_to_multiset_ensures;

    let out = placed(sorted, reach, x);
    if sorted.len() > 0 && reach[sorted.last() as int].rank() < reach[x as int].rank() {
        let front = sorted.drop_last();
        lemma_placed(front, reach, x);
        let inner = placed(front, reach, x);
        assert(sorted =~= front.push(sorted.last()));
        assert forall|i: int, j: int| 0 <= i <= j < out.len() implies reach[out[i] as int].rank()
            >= reach[out[j] as int].rank() by {
            if j == out.len() - 1 && i < j {
                // every entry of `inner` is `x` or an entry of `front`
                assert(inner.to_multiset().count(inner[i]) > 0);
            }
        }
    }
}

/// The arranged buffer is in descending order of reachability and holds
/// exactly the entries it was made from.
pub proof fn lemma_arranged(seeds: Seq<usize>, reach: Seq<Scalar>)
    ensures
        descending(arranged(seeds, reach), reach),
        arranged(seeds, reach).to_multiset() =~= seeds.to_multiset(),
        arranged(seeds, reach).len() == seeds.len(),
    decreases seeds.len(),
{
    broadcast use vstd::seq_lib::group_to_multiset_ensures;

    if seeds.len() > 0 {
        let front = seeds.drop_last();
        lemma_arranged(front, reach);
        lemma_placed(arranged(front, reach), reach, seeds.last());
        assert(seeds =~= front.push(seeds.last()));
    }
}

/// A buffer that is in descending order is left as it is: entries of equal
/// reachability are not moved past each other.
pub proof fn lemma_arranged_leaves_descending(seeds: Seq<usize>, reach: Seq<Scalar>)
    requires
        descending(seeds, reach),
    ensures
        arranged(seeds, reach) == seeds,
    decreases seeds.len(),
{
    if seeds.len() > 0 {
        let front = seeds.drop_last();
        lemma_arranged_leaves_descending(front, reach);
    }
}

/// Every entry of the arranged buffer is an entry of the buffer it was made
/// from.
pub(crate) proof fn lemma_arranged_entries(seeds: Seq<usize>, reach: Seq<Scalar>)
    ensures
        forall|i: int|
            0 <= i < arranged(seeds, reach).len() ==> seeds.contains(
                #[trigger] arranged(seeds, reach)[i],
            ),
{
    broadcast use vstd::seq_lib::group_to_multiset_ensures;

    lemma_arranged(seeds, reach);
    let out = arranged(seeds, reach);
    assert forall|i: int| 0 <= i < out.len() implies seeds.contains(#[trigger] out[i]) by {
        assert(out.to_multiset().count(out[i]) > 0);
    }
}

/// Every entry of a buffer is an entry of the arranged buffer.
pub(crate) proof fn lemma_arranged_keeps(seeds: Seq<usize>, reach: Seq<Scalar>, x: usize)
    requires
        seeds.contains(x),
    ensures
        arranged(seeds, reach).contains(x),
{
    broadcast use vstd::seq_lib::group_to_multiset_ensures;

    lemma_arranged(seeds, reach);
    assert(seeds.to_multiset().count(x) > 0);
}

/// Where `x` goes in `sorted`: behind the entries before `at`, given that
/// those from `at` on have a smaller reachability than `x`.
proof fn lemma_placed_at(sorted: Seq<usize>, reach: Seq<Scalar>, x: usize, at: int)
    requires
        0 <= at <= sorted.len(),
        forall|i: int|
            at <= i < sorted.len() ==> reach[#[trigger] sorted[i] as int].rank()
                < reach[x as int].rank(),
        at > 0 ==> reach[sorted[at - 1] as int].rank() >= reach[x as int].rank(),
    ensures
        placed(sorted, reach, x) == sorted.insert(at, x),
    decreases sorted.len() - at,
{
    if at < sorted.len() {
        lemma_placed_at(sorted.drop_last(), reach, x, at);
    }
}

/// Puts the buffer in descending order of the reachability recorded for its
/// entries: each entry in turn is placed behind the last of those before it
/// whose reachability is not below its own.
pub fn arrange(seeds: &Vec<usize>, reachability: &Vec<Scalar>) -> (sorted: Vec<usize>)
    requires
        forall|i: int| 0 <= i < seeds.len() ==> (#[trigger] seeds[i]) < reachability.len(),
    ensures
        sorted@ == arranged(seeds@, reachability@),
{
    let mut sorted: Vec<usize> = Vec::new();
    let n: usize = seeds.len();
    for i in 0..n
        invariant
            n == seeds.len(),
            sorted@ == arranged(seeds@.subrange(0, i as int), reachability@),
            forall|k: int| 0 <= k < seeds.len() ==> (#[trigger] seeds[k]) < reachability.len(),
    {
        let x: usize = seeds[i];
        let key: u64 = reachability[x].key();
        let ghost before = sorted@;
        proof {
            lemma_arranged_entries(seeds@.subrange(0, i as int), reachability@);
        }
        let mut at: usize = sorted.len();
        while at > 0 && reachability[sorted[at - 1]].key() < key
            invariant
                sorted@ == before,
                at <= sorted.len(),
                x < reachability.len(),
                key == SIGN_BIT + reachability[x as int].rank(),
                forall|k: int|
                    0 <= k < before.len() ==> (#[trigger] before[k]) < reachability.len(),
                forall|k: int|
                    at <= k < before.len() ==> reachability[#[trigger] before[k] as int].rank()
                        < reachability[x as int].rank(),
            decreases at,
        {
            at -= 1;
        }
        proof {
            lemma_placed_at(before, reachability@, x, at as int);
            assert(seeds@.subrange(0, i + 1).drop_last() =~= seeds@.subrange(0, i as int));
        }
        sorted.insert(at, x);
    }
    assert(seeds@.subrange(0, n as int) =~= seeds@);
    sorted
}

} // verus!
