//! The shortest cycle among all states of a given number of bits.

use crate::clock;
use crate::clock::{deadline_after, read};
use crate::graph;
use crate::graph::{look_again, scan, GraphSearch};
use crate::index;
use crate::index::{embed_index, next_index};
use crate::listener;
use crate::listener::Listener;
use crate::orbit;
use crate::state;
use rayon::iter::{IntoParallelIterator, ParallelIterator};
use std::time::{Duration, Instant};
use vstd::arithmetic::power2::pow2;
use vstd::prelude::*;

verus! {

/// The successors of the first `count` states of `bits` bits, by index.
pub open spec fn successors(count: nat, bits: nat) -> Seq<u32> {
    Seq::new(count, |i: int| index::successor(i as u32, bits))
}

/// The graph of all states of `bits` bits, by index.
pub open spec fn state_graph(bits: nat) -> Seq<u32> {
    successors(pow2(bits), bits)
}

/// The state that an index stands for.
pub open spec fn as_state(bits: nat) -> spec_fn(u32) -> state::Hash {
    |idx: u32| index::embedded(idx, bits)
}

/// The cycles that the first `count` states of `bits` bits lead to, each shorter than those
/// before it: the state where a walk meets it, and its length.
pub open spec fn best_states(bits: nat, count: nat) -> Seq<(state::Hash, u64)> {
    graph::placed(as_state(bits), graph::improvements(state_graph(bits), count))
}

/// `rayon` maps the numbers below `count`, in parallel, by [`next_index`], and collects the
/// results in the order of the numbers.
#[verifier::external_body]
fn map_successors(count: u32, bits: u8) -> (table: Vec<u32>)
    requires
        bits >= 1,
        state::can_truncate(bits),
    ensures
        table@ == successors(count as nat, bits as nat),
{
    (0..count).into_par_iter().map(|idx: u32| next_index(idx, bits)).collect()
}

/// The graph of the states of `bits` bits is a graph.
pub proof fn lemma_state_graph(bits: nat)
    requires
        1 <= bits <= 31,
    ensures
        graph::is_graph(state_graph(bits)),
        state_graph(bits).len() == pow2(bits),
        pow2(bits) <= 0x8000_0000,
{
    vstd::arithmetic::power2::lemma2_to64();
    if bits < 31 {
        vstd::arithmetic::power2::lemma_pow2_strictly_increases(bits, 31);
    }
    assert forall|v: int| 0 <= v < pow2(bits) implies #[trigger] state_graph(bits)[v] < pow2(
        bits,
    ) by {
        index::law_successor_is_sha1_step(v as u32, bits);
    }
}

/// Walking the graph of the indices is walking the states that they stand for.
pub proof fn law_graph_walks_states(bits: nat, idx: u32, n: nat)
    requires
        1 <= bits <= 31,
        idx < pow2(bits),
    ensures
        orbit::iterate(graph::graph_step(state_graph(bits)), idx, n) < pow2(bits),
        orbit::iterate(state::sha1_step(bits), index::embedded(idx, bits), n) == index::embedded(
            orbit::iterate(graph::graph_step(state_graph(bits)), idx, n),
            bits,
        ),
    decreases n,
{
    if n > 0 {
        law_graph_walks_states(bits, idx, (n - 1) as nat);
        lemma_state_graph(bits);
        let before = orbit::iterate(graph::graph_step(state_graph(bits)), idx, (n - 1) as nat);
        index::law_successor_is_sha1_step(before, bits);
    }
}

/// An index lies on a cycle of the graph exactly where its state lies on a cycle of the map,
/// and the cycles are of the same length.
pub proof fn law_graph_has_state_cycles(bits: nat, idx: u32, len: nat)
    requires
        1 <= bits <= 31,
        idx < pow2(bits),
    ensures
        orbit::is_cycle_length(graph::graph_step(state_graph(bits)), idx, len)
            <==> orbit::is_cycle_length(
            state::sha1_step(bits),
            index::embedded(idx, bits),
            len,
        ),
{
    let f = graph::graph_step(state_graph(bits));
    let g = state::sha1_step(bits);
    let hash = index::embedded(idx, bits);
    assert forall|q: nat|
        #![trigger orbit::returns_after(f, idx, q)]
        #![trigger orbit::returns_after(g, hash, q)]
        orbit::returns_after(f, idx, q) == orbit::returns_after(g, hash, q) by {
        law_graph_walks_states(bits, idx, q);
        index::law_extract_after_embed(idx, bits);
        index::law_extract_after_embed(orbit::iterate(f, idx, q), bits);
    }
}

/// The best cycle so far is a cycle of the map on states.
proof fn lemma_best_is_state_cycle(bits: nat, count: nat, best: (u32, u64))
    requires
        1 <= bits <= 31,
        count <= pow2(bits),
        graph::is_shortest(state_graph(bits), count, Some(best)),
    ensures
        best.0 < pow2(bits),
        state::is_state(index::embedded(best.0, bits), bits),
        orbit::is_cycle_length(
            state::sha1_step(bits),
            index::embedded(best.0, bits),
            best.1 as nat,
        ),
{
    let next = state_graph(bits);
    let f = graph::graph_step(next);
    lemma_state_graph(bits);
    let s = choose|s: u32| #[trigger] graph::is_first_shortest(next, count, s, best);
    let tail = choose|tail: nat|
        {
            &&& #[trigger] orbit::is_rho(f, s, tail, best.1 as nat)
            &&& best.0 == orbit::iterate(f, s, tail)
        };
    law_graph_walks_states(bits, s, tail);
    law_graph_has_state_cycles(bits, best.0, best.1 as nat);
    index::law_extract_after_embed(best.0, bits);
}

/// Once every index has been a start, no cycle of states is shorter than the best one.
proof fn lemma_complete_is_global(bits: nat, hash: state::Hash, len: nat)
    requires
        1 <= bits <= 31,
        state::is_state(hash, bits),
        orbit::is_cycle_length(state::sha1_step(bits), hash, len),
    ensures
        ({
            let best = graph::best_of(graph::improvements(state_graph(bits), pow2(bits)));
            best is Some && best->Some_0.1 <= len
        }),
{
    lemma_state_graph(bits);
    index::law_embed_after_extract(hash, bits);
    let idx = index::extracted(hash, bits);
    law_graph_has_state_cycles(bits, idx, len);
    graph::law_complete_search_is_global(state_graph(bits), idx, len);
}

/// `hash` lies on a cycle of `len` states of `bits` bits.
pub open spec fn is_state_cycle(bits: nat, hash: state::Hash, len: nat) -> bool {
    state::is_state(hash, bits) && orbit::is_cycle_length(state::sha1_step(bits), hash, len)
}

/// Each of the best states lies on a cycle of states of exactly the length told with it, and
/// the lengths fall.
pub proof fn law_best_states_are_cycles(bits: nat, count: nat, i: int)
    requires
        1 <= bits <= 31,
        count <= pow2(bits),
        0 <= i < best_states(bits, count).len(),
    ensures
        is_state_cycle(bits, best_states(bits, count)[i].0, best_states(bits, count)[i].1 as nat),
        i > 0 ==> best_states(bits, count)[i].1 < best_states(bits, count)[i - 1].1,
{
    lemma_state_graph(bits);
    let next = state_graph(bits);
    let (idx, len) = graph::improvements(next, count)[i];
    graph::law_improvements_are_cycles(next, count, i);
    law_graph_has_state_cycles(bits, idx, len as nat);
    index::law_extract_after_embed(idx, bits);
    if i > 0 {
        graph::law_improvements_shrink(next, count, i - 1, i);
    }
}

/// The best state of a search is the last one that is told, where there is one.
pub proof fn law_best_state_is_told_last(
    bits: nat,
    r: (Option<(state::Hash, u64)>, u64, u64, bool),
)
    requires
        exhaustive_ends(bits, r),
    ensures
        r.0 == if best_states(bits, r.1 as nat).len() == 0 {
            None
        } else {
            Some(best_states(bits, r.1 as nat).last())
        },
{
}

/// How a search of all states of `bits` bits may end: with the best cycle of the states
/// processed, as a state on it and its length, with the number of these states and of all,
/// and with whether these are all. It stops early only at a checkpoint.
pub open spec fn exhaustive_ends(
    bits: nat,
    r: (Option<(state::Hash, u64)>, u64, u64, bool),
) -> bool {
    &&& r.2 == pow2(bits)
    &&& r.1 <= r.2
    &&& r.3 == (r.1 == r.2)
    &&& r.0 == match graph::best_of(graph::improvements(state_graph(bits), r.1 as nat)) {
        Some((idx, len)) => Some((index::embedded(idx, bits), len)),
        None => None,
    }
    &&& r.0 is Some <==> r.1 > 0
    &&& r.0 matches Some((hash, len)) ==> is_state_cycle(bits, hash, len as nat)
    &&& r.3 ==> r.0 is Some && is_least_cycle(bits, r.0->Some_0.1)
    &&& !r.3 ==> graph::is_checkpoint(r.1)
}

/// No cycle of states of `bits` bits is shorter than `len`.
pub open spec fn is_least_cycle(bits: nat, len: u64) -> bool {
    forall|hash: state::Hash, other: nat| #[trigger]
        is_state_cycle(bits, hash, other) ==> len <= other
}

/// Follows every state, given the successors of all.
fn search_table<A, C, F, G>(
    next: &[u32],
    bits: u8,
    ask: C,
    first: A,
    listener: &mut Listener<state::Hash, F, G>,
) -> (r: (Option<(state::Hash, u64)>, u64, u64, bool)) where
    A: Copy,
    C: Fn(&GraphSearch, A) -> (bool, A),
    F: FnMut(state::Hash, u64),
    G: FnMut(u64, u64),

    requires
        1 <= bits <= 31,
        next@ == state_graph(bits as nat),
        graph::can_ask_search(ask, next@),
        graph::can_be_told(
            old(listener),
            graph::told(state_graph(bits as nat), as_state(bits as nat), pow2(bits as nat)),
        ),
    ensures
        exhaustive_ends(bits as nat, r),
        exists|answers: Seq<A>| #[trigger]
            graph::asked_in_turn(ask, next@, first, answers, r.1 as nat, r.3),
        final(listener).heard() == old(listener).heard() + graph::told(
            state_graph(bits as nat),
            as_state(bits as nat),
            r.1 as nat,
        ),
        listener::new_bests(final(listener).heard()) == listener::new_bests(
            old(listener).heard(),
        ) + best_states(bits as nat, r.1 as nat),
        final(listener).same_ears(old(listener)),
{
    proof {
        lemma_state_graph(bits as nat);
        vstd::arithmetic::power2::lemma_pow2_pos(bits as nat);
    }
    let total = next.len() as u64;
    let label = |idx: u32| -> (hash: state::Hash)
        ensures
            hash == index::embedded(idx, bits as nat),
        { embed_index(idx, bits) };
    let (best, processed, completed) = scan(
        next,
        ask,
        first,
        label,
        Ghost(as_state(bits as nat)),
        listener,
    );
    let ghost answers = choose|answers: Seq<A>| #[trigger]
        graph::asked_in_turn(ask, next@, first, answers, processed as nat, completed);
    let best_hash = match best {
        Some((idx, cycle_length)) => Some((embed_index(idx, bits), cycle_length)),
        None => None,
    };
    proof {
        if let Some(found) = best {
            lemma_best_is_state_cycle(bits as nat, processed as nat, found);
        }
        if completed {
            assert forall|hash: state::Hash, len: nat| #[trigger]
                is_state_cycle(bits as nat, hash, len) implies best->Some_0.1 <= len by {
                lemma_complete_is_global(bits as nat, hash, len);
            }
        }
    }
    let r = (best_hash, processed, total, completed);
    assert(graph::asked_in_turn(ask, next@, first, answers, r.1 as nat, r.3));
    r
}

/// The successors of all states of `bits` bits, by index.
fn successor_table(bits: u8) -> (next: Vec<u32>)
    requires
        1 <= bits <= 31,
    ensures
        next@ == state_graph(bits as nat),
{
    proof {
        lemma_state_graph(bits as nat);
        vstd::bits::lemma_u32_shl_is_mul(1, bits as u32);
    }
    map_successors(1u32 << (bits as u32), bits)
}

/// Follows every state of `bits` bits, told by `expired` at each checkpoint whether to stop.
///
/// Returns the shortest cycle found, the number of states processed, the number of all states,
/// and whether all were processed. `expired` is asked with the number of states processed.
/// `listener` is told of each cycle that is shorter than those before it as soon as it is
/// found, and at each checkpoint at which the search goes on of the number of states processed
/// and of all states.
pub fn exhaustive_min_cycle_while<C, F, G>(
    bits: u8,
    expired: C,
    listener: &mut Listener<state::Hash, F, G>,
) -> (r: (Option<(state::Hash, u64)>, u64, u64, bool)) where
    C: Fn(u64) -> bool,
    F: FnMut(state::Hash, u64),
    G: FnMut(u64, u64),

    requires
        1 <= bits <= 31,
        graph::can_ask(expired, pow2(bits as nat)),
        graph::can_be_told(
            old(listener),
            graph::told(state_graph(bits as nat), as_state(bits as nat), pow2(bits as nat)),
        ),
    ensures
        exhaustive_ends(bits as nat, r),
        !r.3 ==> call_ensures(expired, (r.1,), true),
        graph::has_gone_on(expired, r.1 as nat),
        final(listener).heard() == old(listener).heard() + graph::told(
            state_graph(bits as nat),
            as_state(bits as nat),
            r.1 as nat,
        ),
        listener::new_bests(final(listener).heard()) == listener::new_bests(
            old(listener).heard(),
        ) + best_states(bits as nat, r.1 as nat),
        final(listener).same_ears(old(listener)),
{
    let next = successor_table(bits);
    let ask = |search: &GraphSearch, _none: ()| -> (answer: (bool, ()))
        requires
            graph::may_ask(&expired, search.processed() as u64),
        ensures
            graph::has_said(&expired, search.processed() as u64, answer.0),
        { (expired(search.start() as u64), ()) };
    proof {
        lemma_state_graph(bits as nat);
    }
    let r = search_table(next.as_slice(), bits, ask, (), listener);
    proof {
        graph::lemma_answers_by_count(ask, expired, next@, (), r.1, r.3);
    }
    r
}

/// Reads the clock once the successors of all states are known.
pub fn start_clock(next: &[u32]) -> (start: Instant)
    ensures
        clock::was_read(start),
{
    let _ = next;
    read()
}

fn start_through<S: Fn(&[u32]) -> Instant>(clock: S, next: &[u32]) -> (start: Instant)
    requires
        call_requires(clock, (next,)),
    ensures
        call_ensures(clock, (next,), start),
{
    clock(next)
}

/// `start` is a reading of the clock that was made once all of `next` was known.
pub open spec fn started(next: Seq<u32>, start: Instant) -> bool {
    exists|table: &[u32]| table@ == next && #[trigger] call_ensures(start_clock, (table,), start)
}

/// The timeout was kept: it was counted from when all successors were known, and from then on
/// the search went by the clock.
pub open spec fn kept_time(
    bits: nat,
    timeout: Option<Duration>,
    processed: nat,
    completed: bool,
) -> bool {
    exists|start: Instant| #[trigger]
        started(state_graph(bits), start) && graph::timed(
            state_graph(bits),
            Some(start),
            clock::deadline_of(start, timeout),
            processed,
            completed,
        )
}

/// Follows every state of `bits` bits, and returns the shortest cycle found, the number of
/// states processed, the number of all states, and whether all were processed.
///
/// The search stops early once `timeout`, counted from when all successors are known, has
/// passed. `listener` is told of each cycle that is shorter than those before it as soon as it
/// is found, and at each checkpoint at which the search goes on of the number of states
/// processed and of all states. Which readings the clock gives is not part of the contract;
/// [`exhaustive_min_cycle_while`] says what follows from each answer.
pub fn exhaustive_min_cycle<F: FnMut(state::Hash, u64), G: FnMut(u64, u64)>(
    bits: u8,
    timeout: Option<Duration>,
    listener: &mut Listener<state::Hash, F, G>,
) -> (r: (Option<(state::Hash, u64)>, u64, u64, bool))
    requires
        1 <= bits <= 31,
        graph::can_be_told(
            old(listener),
            graph::told(state_graph(bits as nat), as_state(bits as nat), pow2(bits as nat)),
        ),
    ensures
        exhaustive_ends(bits as nat, r),
        exists|start: Instant|
            {
                &&& #[trigger] clock::was_read(start)
                &&& !r.3 ==> clock::may_expire(clock::deadline_of(start, timeout))
                &&& r.1 > 0 ==> clock::may_wait(clock::deadline_of(start, timeout))
            },
        kept_time(bits as nat, timeout, r.1 as nat, r.3),
        final(listener).heard() == old(listener).heard() + graph::told(
            state_graph(bits as nat),
            as_state(bits as nat),
            r.1 as nat,
        ),
        listener::new_bests(final(listener).heard()) == listener::new_bests(
            old(listener).heard(),
        ) + best_states(bits as nat, r.1 as nat),
        final(listener).same_ears(old(listener)),
{
    let next = successor_table(bits);
    let table = next.as_slice();
    let start = start_through(start_clock, table);
    let deadline = deadline_after(start, timeout);
    let ask = |search: &GraphSearch, previous: Option<Instant>| -> (answer: (bool, Option<Instant>))
        ensures
            answer.1 is Some,
            call_ensures(graph::look, (search, previous), answer.1->Some_0),
            clock::was_read(answer.1->Some_0),
            answer.0 == graph::reached(deadline, answer.1->Some_0),
        { look_again(search, previous, deadline) };
    let r = search_table(table, bits, ask, Some(start), listener);
    proof {
        graph::lemma_answers_by_clock(ask, next@, Some(start), deadline, r.1 as nat, r.3);
        assert(started(state_graph(bits as nat), start)) by {
            assert(call_ensures(start_clock, (table,), start));
        }
        assert(clock::was_read(start));
    }
    r
}

/// A search of all states goes by the clock: its deadline lies the timeout after a reading that
/// was made when all successors were known, and at every checkpoint that it passes the clock is
/// read anew, after the reading before it, while exactly so many states had been processed, and
/// that very reading had not reached the deadline. It stops at a checkpoint exactly where the
/// reading made there has.
pub proof fn law_timeout_is_kept(
    bits: nat,
    timeout: Option<Duration>,
    processed: nat,
    completed: bool,
) -> (made: (Instant, Seq<Instant>))
    requires
        kept_time(bits, timeout, processed, completed),
    ensures
        exists|table: &[u32]|
            table@ == state_graph(bits) && #[trigger] call_ensures(start_clock, (table,), made.0),
        262144 * made.1.len() >= processed,
        !completed ==> 262144 * (made.1.len() - 1) >= processed,
        forall|i: int| 0 <= i < made.1.len() ==> #[trigger] reading_in_time(
            state_graph(bits),
            made.0,
            timeout,
            made.1,
            processed,
            i,
        ),
{
    let next = state_graph(bits);
    let start = choose|start: Instant| #[trigger]
        started(next, start) && graph::timed(
            next,
            Some(start),
            clock::deadline_of(start, timeout),
            processed,
            completed,
        );
    let table = choose|table: &[u32]|
        table@ == next && #[trigger] call_ensures(start_clock, (table,), start);
    let deadline = clock::deadline_of(start, timeout);
    let readings = graph::law_timed_search_has_readings(
        next,
        Some(start),
        deadline,
        processed,
        completed,
    );
    assert forall|i: int| 0 <= i < readings.len() implies #[trigger] reading_in_time(
        next,
        start,
        timeout,
        readings,
        processed,
        i,
    ) by {
        graph::law_clock_is_read_at_every_checkpoint(
            next,
            Some(start),
            deadline,
            processed,
            completed,
            readings,
            i,
        );
    }
    let made = (start, readings);
    assert(table@ == state_graph(bits) && call_ensures(start_clock, (table,), made.0));
    made
}

/// Reading `i` was made after the one before it, while exactly `262144 i` states had been
/// processed, and it has reached the deadline exactly where no more states were processed.
pub open spec fn reading_in_time(
    next: Seq<u32>,
    start: Instant,
    timeout: Option<Duration>,
    readings: Seq<Instant>,
    processed: nat,
    i: int,
) -> bool {
    let now = readings[i];
    let late = timeout is Some && clock::instant_after(start, timeout->Some_0) is Some
        && clock::instant_reached(
        now,
        clock::instant_after(start, timeout->Some_0)->Some_0,
    );
    &&& call_ensures(Instant::now, (), now)
    &&& i == 0 ==> exists|search: GraphSearch|
        {
            &&& search.searches(next)
            &&& search.processed() == 0
            &&& #[trigger] call_ensures(graph::look, (&search, Some(start)), now)
        }
    &&& i > 0 ==> exists|search: GraphSearch|
        {
            &&& search.searches(next)
            &&& search.processed() == 262144 * i
            &&& #[trigger] call_ensures(graph::look, (&search, Some(readings[i - 1])), now)
        }
    &&& late <==> 262144 * i >= processed
}

/// What the result of a search of all states says: the total is two to the number of bits, the
/// best cycle is one of states of that many bits under the truncated digest, of exactly that
/// length, and where all states were processed there is none that is shorter.
pub proof fn law_exhaustive_result(
    bits: nat,
    g: spec_fn(state::Hash) -> state::Hash,
    r: (Option<(state::Hash, u64)>, u64, u64, bool),
)
    requires
        forall|x: state::Hash| #[trigger]
            g(x) == state::truncated(state::hash_of(state::sha1_digest(x@)), bits),
        exhaustive_ends(bits, r),
    ensures
        r.2 == pow2(bits),
        r.3 <==> r.1 == r.2,
        r.1 <= r.2,
        !r.3 ==> r.1 % 262144 == 0,
        r.0 is None <==> r.1 == 0,
        r.0 matches Some((hash, len)) ==> {
            &&& state::truncated(hash, bits) == hash
            &&& orbit::is_cycle_length(
                g,
                hash,
                len as nat,
            )
        },
        r.3 ==> forall|hash: state::Hash, len: nat|
            state::truncated(hash, bits) == hash && #[trigger] orbit::is_cycle_length(
                g,
                hash,
                len,
            ) ==> r.0->Some_0.1 <= len,
{
    assert(state::sha1_step(bits) =~= g);
    if r.3 {
        assert forall|hash: state::Hash, len: nat|
            state::truncated(hash, bits) == hash && #[trigger] orbit::is_cycle_length(
                g,
                hash,
                len,
            ) implies r.0->Some_0.1 <= len by {
            assert(is_state_cycle(bits, hash, len));
        }
    }
}

} // verus!
