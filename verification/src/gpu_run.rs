//! Searches on the GPU as a whole: what is left after their turns, with time for all or cut
//! short.
//!
//! What the kernel does is no part of these proofs. Where a law needs it, it says by
//! [`answered`] what the results of a dispatch must hold.

use crate::brent;
use crate::gpu;
use crate::sample;
use crate::state;
use vstd::prelude::*;

verus! {

/// What becomes of a search in one turn, given whether the time is up and the results of the
/// dispatch that it makes, if it makes one.
pub open spec fn after_turn(
    search: gpu::GpuSearch,
    expired: bool,
    results: Seq<u32>,
) -> gpu::GpuSearch {
    let (next, action) = gpu::decided(search, expired);
    if action == gpu::GpuAction::Dispatch {
        gpu::absorbed(next, results)
    } else {
        next
    }
}

/// The search after some turns, each given by whether the time was up and by the results of
/// its dispatch.
pub open spec fn after_turns(
    search: gpu::GpuSearch,
    turns: Seq<(bool, Seq<u32>)>,
) -> gpu::GpuSearch
    decreases turns.len(),
{
    if turns.len() == 0 {
        search
    } else {
        let last = turns.last();
        after_turn(after_turns(search, turns.drop_last()), last.0, last.1)
    }
}

/// Turn `i` makes a dispatch.
pub open spec fn dispatches(
    search: gpu::GpuSearch,
    turns: Seq<(bool, Seq<u32>)>,
    i: int,
) -> bool {
    &&& 0 <= i < turns.len()
    &&& gpu::decided(after_turns(search, turns.take(i)), turns[i].0).1 == gpu::GpuAction::Dispatch
}

/// Trial `k` of the dispatch of turn `i` found a cycle.
pub open spec fn is_found(
    search: gpu::GpuSearch,
    turns: Seq<(bool, Seq<u32>)>,
    i: int,
    k: int,
) -> bool {
    &&& dispatches(search, turns, i)
    &&& 0 <= k < turns[i].1.len() / 8
    &&& gpu::trial_status(turns[i].1, k) == 1
}

/// Some trial found a cycle of `len` states.
pub open spec fn holds_length(
    search: gpu::GpuSearch,
    turns: Seq<(bool, Seq<u32>)>,
    len: u128,
) -> bool {
    exists|i: int, k: int| #[trigger]
        is_found(search, turns, i, k) && gpu::trial_cycle(turns[i].1, k).1 == len
}

/// What was found before the last turn is found after it.
proof fn lemma_found_earlier(
    search: gpu::GpuSearch,
    turns: Seq<(bool, Seq<u32>)>,
    i: int,
    k: int,
)
    requires
        0 <= i < turns.len() - 1,
    ensures
        turns.drop_last()[i] == turns[i],
        is_found(search, turns.drop_last(), i, k) == is_found(search, turns, i, k),
{
    assert(turns.drop_last().take(i) =~= turns.take(i));
}

/// Whenever the time is up, the best cycle is what was best at first or one that a trial
/// found, and none of these is shorter: nothing that was found is lost.
pub proof fn law_turns_keep_the_shortest(
    search: gpu::GpuSearch,
    turns: Seq<(bool, Seq<u32>)>,
)
    ensures
        ({
            let best = search.best;
            let after = after_turns(search, turns).best;
            &&& best is Some ==> after is Some && after->Some_0.1 <= best->Some_0.1
            &&& forall|i: int, k: int| #[trigger]
                is_found(search, turns, i, k) ==> after is Some && after->Some_0.1
                    <= gpu::trial_cycle(turns[i].1, k).1
            &&& after == best || exists|i: int, k: int| #[trigger]
                is_found(search, turns, i, k) && after == Some(gpu::trial_cycle(turns[i].1, k))
        }),
    decreases turns.len(),
{
    if turns.len() > 0 {
        let earlier = turns.drop_last();
        let last = turns.len() - 1;
        let results = turns[last].1;
        let n = results.len() / 8;
        let at = after_turns(search, earlier);
        let after = after_turns(search, turns).best;
        assert(turns.take(last) =~= earlier);
        law_turns_keep_the_shortest(search, earlier);
        gpu::law_absorbing_keeps_the_shortest(at.best, results, n, 0);
        assert forall|i: int, k: int| #[trigger] is_found(search, turns, i, k) implies after is Some
            && after->Some_0.1 <= gpu::trial_cycle(turns[i].1, k).1 by {
            if i < last {
                lemma_found_earlier(search, turns, i, k);
                assert(is_found(search, earlier, i, k));
            } else {
                gpu::law_absorbing_keeps_the_shortest(at.best, results, n, k);
            }
        }
        if after == at.best {
            if after != search.best {
                let (i, k) = choose|i: int, k: int| #[trigger]
                    is_found(search, earlier, i, k) && after == Some(
                        gpu::trial_cycle(earlier[i].1, k),
                    );
                lemma_found_earlier(search, turns, i, k);
                assert(is_found(search, turns, i, k));
            }
        } else {
            let j = choose|j: int|
                0 <= j < n && gpu::trial_status(results, j) == 1 && after == Some(
                    #[trigger] gpu::trial_cycle(results, j),
                );
            assert(is_found(search, turns, last, j));
        }
    }
}

/// Turns may be taken in parts: a search that goes on has lost nothing of what it had.
pub proof fn law_more_turns_lose_nothing(
    search: gpu::GpuSearch,
    turns: Seq<(bool, Seq<u32>)>,
    more: Seq<(bool, Seq<u32>)>,
)
    ensures
        after_turns(search, turns + more) == after_turns(after_turns(search, turns), more),
        after_turns(search, turns).best matches Some(best) ==> {
            let after = after_turns(search, turns + more).best;
            after is Some && after->Some_0.1 <= best.1
        },
    decreases more.len(),
{
    if more.len() == 0 {
        assert(turns + more =~= turns);
    } else {
        law_more_turns_lose_nothing(search, turns, more.drop_last());
        assert((turns + more).drop_last() =~= turns + more.drop_last());
    }
    law_turns_keep_the_shortest(after_turns(search, turns), more);
}

/// How the cycles that are found are spread over the dispatches, and in which order they are
/// read, does not change the length of the best one.
pub proof fn law_order_of_dispatches_does_not_matter(
    a: gpu::GpuSearch,
    turns_a: Seq<(bool, Seq<u32>)>,
    b: gpu::GpuSearch,
    turns_b: Seq<(bool, Seq<u32>)>,
)
    requires
        a.best == b.best,
        forall|len: u128| #[trigger]
            holds_length(a, turns_a, len) <==> holds_length(b, turns_b, len),
    ensures
        sample::same_length(after_turns(a, turns_a).best, after_turns(b, turns_b).best),
{
    lemma_turns_bound(a, turns_a, b, turns_b);
    lemma_turns_bound(b, turns_b, a, turns_a);
}

/// The best cycle after some turns is not longer than after turns that hold less.
proof fn lemma_turns_bound(
    a: gpu::GpuSearch,
    turns_a: Seq<(bool, Seq<u32>)>,
    b: gpu::GpuSearch,
    turns_b: Seq<(bool, Seq<u32>)>,
)
    requires
        a.best == b.best,
        forall|len: u128| #[trigger]
            holds_length(b, turns_b, len) ==> holds_length(a, turns_a, len),
    ensures
        after_turns(b, turns_b).best matches Some(least) ==> after_turns(a, turns_a).best is Some
            && after_turns(a, turns_a).best->Some_0.1 <= least.1,
{
    law_turns_keep_the_shortest(a, turns_a);
    law_turns_keep_the_shortest(b, turns_b);
    if let Some(least) = after_turns(b, turns_b).best {
        if b.best != Some(least) {
            assert(holds_length(b, turns_b, least.1));
            assert(holds_length(a, turns_a, least.1));
        }
    }
}

/// The results of a dispatch of `search` answer its trials. `outcomes` holds what the walk from
/// each seed leads to, and `cutoff` is the limit that the search began with.
///
/// A trial that found a cycle found the outcome of its seed, which is below the cutoff. One
/// that ended without has an outcome that is none, or not below the limit of the search.
pub open spec fn answered(
    search: gpu::GpuSearch,
    cutoff: u64,
    outcomes: Seq<Option<sample::Cycle>>,
    results: Seq<u32>,
) -> bool {
    &&& results.len() == 8 * search.running
    &&& forall|k: int|
        0 <= k < search.running ==> {
            let status = #[trigger] gpu::trial_status(results, k);
            let outcome = outcomes[search.start + k];
            &&& status == 1 ==> outcome == Some(gpu::trial_cycle(results, k))
                && gpu::trial_cycle(results, k).1 < cutoff
            &&& status > 1 ==> outcome is None || outcome->Some_0.1 >= search.cycle_limit
        }
}

/// If turn `i` of a search that begins as `search` makes a dispatch, its results answer it.
pub open spec fn turn_answered(
    search: gpu::GpuSearch,
    outcomes: Seq<Option<sample::Cycle>>,
    turns: Seq<(bool, Seq<u32>)>,
    i: int,
) -> bool {
    dispatches(search, turns, i) ==> answered(
        after_turns(search, turns.take(i)),
        search.cycle_limit,
        outcomes,
        turns[i].1,
    )
}

/// Every dispatch of a search that begins as `search` is answered.
pub open spec fn all_answered(
    search: gpu::GpuSearch,
    outcomes: Seq<Option<sample::Cycle>>,
    turns: Seq<(bool, Seq<u32>)>,
) -> bool {
    forall|i: int|
        0 <= i < turns.len() ==> #[trigger] turn_answered(search, outcomes, turns, i)
}

/// The time is not up in any of the turns.
pub open spec fn in_time(turns: Seq<(bool, Seq<u32>)>) -> bool {
    forall|i: int| 0 <= i < turns.len() ==> !(#[trigger] turns[i]).0
}

/// A search that begins as `search` has time for all its turns, each dispatch is answered, and
/// then it has nothing left to do.
pub open spec fn is_run(
    search: gpu::GpuSearch,
    outcomes: Seq<Option<sample::Cycle>>,
    turns: Seq<(bool, Seq<u32>)>,
) -> bool {
    &&& in_time(turns)
    &&& all_answered(search, outcomes, turns)
    &&& gpu::decided(after_turns(search, turns), false).1 == gpu::GpuAction::Finish
}

/// A search of `count` seeds that has done nothing yet.
pub open spec fn is_fresh(search: gpu::GpuSearch, count: nat) -> bool {
    &&& search.well_formed()
    &&& search.seed_count == count
    &&& search.start == 0 && search.running == 0
    &&& search.best is None
}

/// The best cycle so far is an outcome below the cutoff, and its length is the limit.
spec fn holds_outcome(
    search: gpu::GpuSearch,
    cutoff: u64,
    outcomes: Seq<Option<sample::Cycle>>,
) -> bool {
    &&& search.well_formed()
    &&& search.seed_count == outcomes.len()
    &&& search.best is None ==> search.cycle_limit == cutoff
    &&& search.best is Some ==> outcomes.contains(search.best) && search.best->Some_0.1 < cutoff
}

/// No outcome of a seed that the search is done with is below the limit.
spec fn is_thorough(search: gpu::GpuSearch, outcomes: Seq<Option<sample::Cycle>>) -> bool {
    forall|i: int|
        0 <= i < search.start ==> (#[trigger] outcomes[i]) is None || outcomes[i]->Some_0.1
            >= search.cycle_limit
}

proof fn lemma_turn_holds_outcome(
    search: gpu::GpuSearch,
    cutoff: u64,
    outcomes: Seq<Option<sample::Cycle>>,
    expired: bool,
    results: Seq<u32>,
)
    requires
        holds_outcome(search, cutoff, outcomes),
        gpu::decided(search, expired).1 == gpu::GpuAction::Dispatch ==> answered(
            search,
            cutoff,
            outcomes,
            results,
        ),
    ensures
        holds_outcome(after_turn(search, expired, results), cutoff, outcomes),
        !expired && is_thorough(search, outcomes) ==> is_thorough(
            after_turn(search, expired, results),
            outcomes,
        ),
{
    if gpu::decided(search, expired).1 == gpu::GpuAction::Dispatch {
        let next = gpu::absorbed(search, results);
        let n = search.running as nat;
        assert(results.len() / 8 == n);
        gpu::law_absorbing_keeps_the_shortest(search.best, results, n, 0);
        gpu::law_all_ended(results, n);
        assert(search.start + search.running <= outcomes.len());
        if next.best != search.best {
            let j = choose|j: int|
                0 <= j < n && gpu::trial_status(results, j) == 1 && next.best == Some(
                    #[trigger] gpu::trial_cycle(results, j),
                );
            assert(gpu::trial_status(results, j) == 1);
            assert(outcomes[search.start + j] == next.best);
        }
        assert(next.best is Some ==> next.best->Some_0.1 < cutoff);
        assert(next.cycle_limit <= search.cycle_limit);
        if is_thorough(search, outcomes) {
            assert forall|i: int| 0 <= i < next.start implies (#[trigger] outcomes[i]) is None
                || outcomes[i]->Some_0.1 >= next.cycle_limit by {
                if i >= search.start {
                    let k = i - search.start;
                    assert(gpu::trial_status(results, k) != 0);
                    gpu::law_absorbing_keeps_the_shortest(search.best, results, n, k);
                }
            }
        }
    }
}

proof fn lemma_turns_hold_outcome(
    search: gpu::GpuSearch,
    outcomes: Seq<Option<sample::Cycle>>,
    turns: Seq<(bool, Seq<u32>)>,
    d: nat,
)
    requires
        is_fresh(search, outcomes.len()),
        all_answered(search, outcomes, turns),
        d <= turns.len(),
    ensures
        holds_outcome(
            after_turns(search, turns.take(d as int)),
            search.cycle_limit,
            outcomes,
        ),
        in_time(turns) ==> is_thorough(after_turns(search, turns.take(d as int)), outcomes),
    decreases d,
{
    if d > 0 {
        let before = d - 1;
        lemma_turns_hold_outcome(search, outcomes, turns, before as nat);
        assert(turn_answered(search, outcomes, turns, before));
        assert(turns.take(d as int).drop_last() =~= turns.take(before));
        lemma_turn_holds_outcome(
            after_turns(search, turns.take(before)),
            search.cycle_limit,
            outcomes,
            turns[before].0,
            turns[before].1,
        );
        assert(in_time(turns) ==> !turns[before].0);
    }
}

/// The outcomes that are below the limit, where there is one.
pub open spec fn limited_outcomes(
    outcomes: Seq<Option<sample::Cycle>>,
    limit: Option<u128>,
) -> Seq<Option<sample::Cycle>> {
    outcomes.map_values(|outcome: Option<sample::Cycle>| sample::limited(outcome, limit))
}

/// A whole search, with time for all, ends with an outcome of one of its seeds, and its length
/// is that of the shortest outcome below the limit that it began with.
pub proof fn law_run_finds_the_shortest(
    search: gpu::GpuSearch,
    outcomes: Seq<Option<sample::Cycle>>,
    turns: Seq<(bool, Seq<u32>)>,
)
    requires
        is_fresh(search, outcomes.len()),
        is_run(search, outcomes, turns),
    ensures
        ({
            let best = after_turns(search, turns).best;
            let limit = Some(search.cycle_limit as u128);
            &&& sample::same_length(best, sample::shortest(limited_outcomes(outcomes, limit)))
            &&& best is Some ==> outcomes.contains(best)
        }),
{
    let done = after_turns(search, turns);
    let kept = limited_outcomes(outcomes, Some(search.cycle_limit as u128));
    lemma_turns_hold_outcome(search, outcomes, turns, turns.len());
    assert(turns.take(turns.len() as int) =~= turns);
    sample::law_shortest_is_least(kept);
    if let Some(best) = done.best {
        let i = choose|i: int| 0 <= i < outcomes.len() && outcomes[i] == Some(best);
        assert(kept[i] == Some(best));
        let least = sample::shortest(kept)->Some_0;
        assert(sample::shortest(kept) is Some);
        let j = choose|j: int| 0 <= j < kept.len() && kept[j] == Some(least);
        assert(outcomes[j] == Some(least));
    } else {
        assert forall|i: int| 0 <= i < kept.len() implies (#[trigger] kept[i]) is None by {
            assert(outcomes[i] is None || outcomes[i]->Some_0.1 >= done.cycle_limit);
        }
        if sample::shortest(kept) is Some {
            let k = choose|k: int| 0 <= k < kept.len() && kept[k] == sample::shortest(kept);
            assert(kept[k] is None);
        }
    }
}

/// A search that the time cuts short ends with an outcome of one of its seeds below the limit
/// that it began with, or with none, and not with one that is shorter than all.
pub proof fn law_stopped_run_gives_an_outcome(
    search: gpu::GpuSearch,
    outcomes: Seq<Option<sample::Cycle>>,
    turns: Seq<(bool, Seq<u32>)>,
)
    requires
        is_fresh(search, outcomes.len()),
        all_answered(search, outcomes, turns),
    ensures
        after_turns(search, turns).best matches Some(best) ==> {
            let limit = Some(search.cycle_limit as u128);
            let shortest = sample::shortest(limited_outcomes(outcomes, limit));
            &&& outcomes.contains(Some(best))
            &&& best.1 < search.cycle_limit
            &&& shortest is Some
            &&& shortest->Some_0.1 <= best.1
        },
{
    let kept = limited_outcomes(outcomes, Some(search.cycle_limit as u128));
    lemma_turns_hold_outcome(search, outcomes, turns, turns.len());
    assert(turns.take(turns.len() as int) =~= turns);
    sample::law_shortest_is_least(kept);
    if let Some(best) = after_turns(search, turns).best {
        let i = choose|i: int| 0 <= i < outcomes.len() && outcomes[i] == Some(best);
        assert(kept[i] == Some(best));
    }
}

/// What the searches of SHA-1 states of `bits` bits from some seeds find within `max` steps, if
/// nothing stops them.
pub open spec fn search_outcomes(
    seeds: Seq<state::Hash>,
    bits: nat,
    max: u64,
) -> Seq<Option<sample::Cycle>> {
    seeds.map_values(
        |seed: state::Hash| brent::search_result(state::sha1_step(bits), seed, max as u128),
    )
}

/// The limit with which a search on the GPU begins.
pub open spec fn first_limit(limit: Option<u128>) -> u128 {
    match limit {
        Some(below) => below,
        None => u64::MAX as u128,
    }
}

/// Where the kernel answers each trial with what the search from its seed finds, a whole search
/// on the GPU ends with the length of the shortest cycle that the searches from its seeds find
/// below the limit, and with none where they find none.
pub proof fn law_run_finds_what_searches_find(
    search: gpu::GpuSearch,
    seeds: Seq<state::Hash>,
    bits: nat,
    limit: Option<u128>,
    turns: Seq<(bool, Seq<u32>)>,
)
    requires
        is_fresh(search, seeds.len()),
        search.cycle_limit == first_limit(limit),
        is_run(search, search_outcomes(seeds, bits, search.max), turns),
    ensures
        sample::same_length(
            after_turns(search, turns).best,
            sample::shortest(
                limited_outcomes(search_outcomes(seeds, bits, search.max), limit),
            ),
        ),
{
    let outcomes = search_outcomes(seeds, bits, search.max);
    law_run_finds_the_shortest(search, outcomes, turns);
    let kept = limited_outcomes(outcomes, Some(search.cycle_limit as u128));
    assert(kept =~= limited_outcomes(outcomes, limit)) by {
        assert forall|i: int| 0 <= i < outcomes.len() implies kept[i] == sample::limited(
            outcomes[i],
            limit,
        ) by {
            let g = state::sha1_step(bits);
            let max = search.max as u128;
            brent::law_search_has_one_result(g, seeds[i], max, outcomes[i]);
            if let Some((at, len)) = outcomes[i] {
                brent::lemma_detected_length(g, seeds[i], max as nat, at, len as nat);
            }
        }
    }
}

/// Two whole searches of the same seeds end with cycles of the same length, or both with none,
/// whatever the order of the seeds, the size of the batches and the number of dispatches.
pub proof fn law_batching_does_not_matter(
    a: gpu::GpuSearch,
    seeds_a: Seq<state::Hash>,
    turns_a: Seq<(bool, Seq<u32>)>,
    b: gpu::GpuSearch,
    seeds_b: Seq<state::Hash>,
    turns_b: Seq<(bool, Seq<u32>)>,
    bits: nat,
)
    requires
        is_fresh(a, seeds_a.len()),
        is_fresh(b, seeds_b.len()),
        a.max == b.max,
        a.cycle_limit == b.cycle_limit,
        seeds_a.to_multiset() == seeds_b.to_multiset(),
        is_run(a, search_outcomes(seeds_a, bits, a.max), turns_a),
        is_run(b, search_outcomes(seeds_b, bits, b.max), turns_b),
    ensures
        sample::same_length(
            after_turns(a, turns_a).best,
            after_turns(b, turns_b).best,
        ),
{
    let limit = Some(a.cycle_limit as u128);
    let kept_a = limited_outcomes(search_outcomes(seeds_a, bits, a.max), limit);
    let kept_b = limited_outcomes(search_outcomes(seeds_b, bits, b.max), limit);
    law_run_finds_the_shortest(a, search_outcomes(seeds_a, bits, a.max), turns_a);
    law_run_finds_the_shortest(b, search_outcomes(seeds_b, bits, b.max), turns_b);
    lemma_same_seeds_same_outcomes(seeds_a, seeds_b, bits, a.max, limit);
    lemma_same_seeds_same_outcomes(seeds_b, seeds_a, bits, a.max, limit);
    sample::law_order_of_trials_does_not_matter(kept_a, kept_b);
}

proof fn lemma_same_seeds_same_outcomes(
    a: Seq<state::Hash>,
    b: Seq<state::Hash>,
    bits: nat,
    max: u64,
    limit: Option<u128>,
)
    requires
        a.to_multiset() == b.to_multiset(),
    ensures
        forall|result: Option<sample::Cycle>| #[trigger]
            limited_outcomes(search_outcomes(a, bits, max), limit).contains(result)
                ==> limited_outcomes(search_outcomes(b, bits, max), limit).contains(result),
{
    broadcast use vstd::seq_lib::group_to_multiset_ensures;

    let kept_a = limited_outcomes(search_outcomes(a, bits, max), limit);
    let kept_b = limited_outcomes(search_outcomes(b, bits, max), limit);
    assert forall|result: Option<sample::Cycle>| #[trigger]
        kept_a.contains(result) implies kept_b.contains(result) by {
        let i = choose|i: int| 0 <= i < kept_a.len() && kept_a[i] == result;
        assert(a.contains(a[i]));
        assert(a.to_multiset().count(a[i]) > 0);
        assert(b.to_multiset().count(a[i]) > 0);
        assert(b.contains(a[i]));
        let j = choose|j: int| 0 <= j < b.len() && b[j] == a[i];
        assert(kept_b[j] == result);
    }
}

} // verus!
