//! Sampled searches: one walk from each of a number of seeds.

use crate::brent;
use crate::brent::find_cycle;
use crate::state;
use crate::state::sha1_hash;
use std::time::Instant;
use vstd::prelude::*;

verus! {

/// A cycle that a search found: a state on it and its length.
pub type Cycle = (state::Hash, u128);

/// The cycle, if it is shorter than the limit, where there is one.
pub open spec fn limited(found: Option<Cycle>, limit: Option<u128>) -> Option<Cycle> {
    match (found, limit) {
        (Some(cycle), Some(below)) => if cycle.1 < below {
            found
        } else {
            None
        },
        _ => found,
    }
}

/// The cycle, if it is shorter than the limit, where there is one.
pub fn within_limit(found: Option<Cycle>, limit: Option<u128>) -> (kept: Option<Cycle>)
    ensures
        kept == limited(found, limit),
{
    match (found, limit) {
        (Some(cycle), Some(below)) => {
            if cycle.1 < below {
                Some(cycle)
            } else {
                None
            }
        },
        _ => found,
    }
}

/// Searches the walk of SHA-1 states of `bits` bits from `seed`, and keeps what it finds if
/// it is shorter than `limit`. The readings of the clock are as in [`find_cycle`].
pub fn search_seed(
    seed: state::Hash,
    bits: u8,
    max: u128,
    limit: Option<u128>,
    deadline: Option<Instant>,
) -> (kept: Option<Cycle>)
    requires
        state::can_truncate(bits),
    ensures
        exists|found: Option<Cycle>|
            {
                &&& #[trigger] brent::search_ends(
                    state::sha1_step(bits as nat),
                    seed,
                    max,
                    deadline,
                    found,
                )
                &&& deadline matches Some(at) ==> brent::timed(
                    state::sha1_step(bits as nat),
                    seed,
                    max,
                    at,
                    found,
                )
                &&& kept == limited(found, limit)
            },
        deadline is None ==> kept == limited(
            brent::search_result(state::sha1_step(bits as nat), seed, max),
            limit,
        ),
{
    let step = |input: &state::Hash| -> (output: state::Hash)
        ensures
            output == state::sha1_step(bits as nat)(*input),
        { sha1_hash(input, bits) };
    assert(brent::computes(step, state::sha1_step(bits as nat)));
    let found = find_cycle(seed, max, deadline, step);
    proof {
        brent::law_search_has_one_result(state::sha1_step(bits as nat), seed, max, found);
    }
    assert(brent::search_ends(state::sha1_step(bits as nat), seed, max, deadline, found));
    within_limit(found, limit)
}

/// The shorter of two cycles, and the left one of two that are equally short.
pub open spec fn shorter_of(left: Option<Cycle>, right: Option<Cycle>) -> Option<Cycle> {
    match (left, right) {
        (Some(a), Some(b)) => if b.1 < a.1 {
            right
        } else {
            left
        },
        (Some(_), None) => left,
        (None, _) => right,
    }
}

/// The first of the shortest cycles among the results of some trials.
pub open spec fn shortest(results: Seq<Option<Cycle>>) -> Option<Cycle>
    decreases results.len(),
{
    if results.len() == 0 {
        None
    } else {
        shorter_of(shortest(results.drop_last()), results.last())
    }
}

/// The shorter of two cycles, and the left one of two that are equally short.
pub fn shorter(left: Option<Cycle>, right: Option<Cycle>) -> (best: Option<Cycle>)
    ensures
        best == shorter_of(left, right),
{
    match (left, right) {
        (Some(a), Some(b)) => {
            if b.1 < a.1 {
                right
            } else {
                left
            }
        },
        (Some(_), None) => left,
        (None, _) => right,
    }
}

/// The results of trials may be reduced in any grouping, as long as their order is kept.
pub proof fn law_shortest_of_parts(first: Seq<Option<Cycle>>, rest: Seq<Option<Cycle>>)
    ensures
        shortest(first + rest) == shorter_of(shortest(first), shortest(rest)),
    decreases rest.len(),
{
    if rest.len() == 0 {
        assert(first + rest =~= first);
    } else {
        law_shortest_of_parts(first, rest.drop_last());
        assert((first + rest).drop_last() =~= first + rest.drop_last());
        assert((first + rest).last() == rest.last());
    }
}

/// What is reduced from the results of some trials is one of them, no result is shorter, and
/// none before it is as short.
pub proof fn law_shortest_is_least(results: Seq<Option<Cycle>>)
    ensures
        match shortest(results) {
            Some(best) => exists|k: int|
                {
                    &&& 0 <= k < results.len()
                    &&& #[trigger] results[k] == Some(best)
                    &&& forall|i: int|
                        0 <= i < results.len() && (#[trigger] results[i]) is Some ==> best.1
                            <= results[i]->Some_0.1
                    &&& forall|i: int|
                        0 <= i < k && (#[trigger] results[i]) is Some ==> best.1
                            < results[i]->Some_0.1
                },
            None => forall|i: int| 0 <= i < results.len() ==> (#[trigger] results[i]) is None,
        },
    decreases results.len(),
{
    if results.len() > 0 {
        let before = results.drop_last();
        law_shortest_is_least(before);
        let last = results.len() - 1;
        assert forall|i: int| 0 <= i < last implies #[trigger] results[i] == before[i] by {}
        if shortest(results) is Some {
            let best = shortest(results)->Some_0;
            if shortest(before) == Some(best) && (results.last() is None || best.1
                <= results.last()->Some_0.1) {
                let k = choose|k: int|
                    {
                        &&& 0 <= k < before.len()
                        &&& #[trigger] before[k] == Some(best)
                        &&& forall|i: int|
                            0 <= i < before.len() && (#[trigger] before[i]) is Some ==> best.1
                                <= before[i]->Some_0.1
                        &&& forall|i: int|
                            0 <= i < k && (#[trigger] before[i]) is Some ==> best.1
                                < before[i]->Some_0.1
                    };
                assert(results[k] == Some(best));
                assert forall|i: int|
                    0 <= i < results.len() && (#[trigger] results[i]) is Some implies best.1
                    <= results[i]->Some_0.1 by {
                    if i < last {
                        assert(before[i] is Some);
                    }
                }
                assert forall|i: int| 0 <= i < k && (#[trigger] results[i]) is Some implies best.1
                    < results[i]->Some_0.1 by {
                    assert(before[i] is Some);
                }
            } else {
                assert(results[last] == Some(best));
                assert forall|i: int|
                    0 <= i < last && (#[trigger] results[i]) is Some implies best.1
                    < results[i]->Some_0.1 by {
                    assert(before[i] is Some);
                }
            }
        } else {
            assert forall|i: int|
                0 <= i < results.len() implies (#[trigger] results[i]) is None by {
                if i < last {
                    assert(before[i] is None);
                }
            }
        }
    }
}

/// Two results agree on whether there is a cycle, and on its length.
pub open spec fn same_length(left: Option<Cycle>, right: Option<Cycle>) -> bool {
    match (left, right) {
        (Some(a), Some(b)) => a.1 == b.1,
        (None, None) => true,
        _ => false,
    }
}

/// The order of the trials, and how often each result occurs, do not change the shortest
/// length.
pub proof fn law_order_of_trials_does_not_matter(a: Seq<Option<Cycle>>, b: Seq<Option<Cycle>>)
    requires
        forall|result: Option<Cycle>| #[trigger] a.contains(result) <==> b.contains(result),
    ensures
        same_length(shortest(a), shortest(b)),
{
    lemma_shortest_bounds(a, b);
    lemma_shortest_bounds(b, a);
}

/// The shortest result is not longer than the shortest of fewer results.
proof fn lemma_shortest_bounds(a: Seq<Option<Cycle>>, b: Seq<Option<Cycle>>)
    requires
        forall|result: Option<Cycle>| #[trigger] b.contains(result) ==> a.contains(result),
    ensures
        shortest(b) matches Some(best) ==> shortest(a) is Some && shortest(a)->Some_0.1 <= best.1,
{
    law_shortest_is_least(a);
    law_shortest_is_least(b);
    if let Some(best) = shortest(b) {
        assert(b.contains(Some(best)));
        assert(a.contains(Some(best)));
        let i = choose|i: int| 0 <= i < a.len() && a[i] == Some(best);
        assert(a[i] is Some);
    }
}

/// A cycle that is kept under a limit is shorter than it, and nothing shorter is dropped.
pub proof fn law_limit_is_strict(found: Option<Cycle>, limit: u128)
    ensures
        limited(found, Some(limit)) is Some <==> found is Some && found->Some_0.1 < limit,
        limited(found, Some(limit)) is Some ==> limited(found, Some(limit)) == found,
        limited(found, None) == found,
{
}

/// Of two results the shorter one is kept: it is one of them, it is none only where both are,
/// and it is the right one only where the left one is none or longer.
pub proof fn law_shorter_one_is_kept(left: Option<Cycle>, right: Option<Cycle>)
    ensures
        shorter_of(left, right) == left || shorter_of(left, right) == right,
        shorter_of(left, right) is None <==> left is None && right is None,
        left matches Some(a) ==> shorter_of(left, right)->Some_0.1 <= a.1,
        right matches Some(b) ==> shorter_of(left, right)->Some_0.1 <= b.1,
        left is Some && (right is None || left->Some_0.1 <= right->Some_0.1) ==> shorter_of(
            left,
            right,
        ) == left,
{
}

} // verus!
