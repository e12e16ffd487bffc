//! Brent's cycle detection on the walk from one seed.

use crate::clock;
use crate::orbit;
use crate::state;
use crate::state::same_hash;
use std::time::Instant;
use vstd::arithmetic::power2::pow2;
use vstd::prelude::*;

verus! {

/// How many steps the walk takes between two looks at the clock.
pub const CLOCK_INTERVAL: u128 = 1048576;

/// How far `p` is below `n`.
pub open spec fn below(p: nat, n: nat) -> nat {
    if p < n {
        (n - p) as nat
    } else {
        0
    }
}

/// The least number at or above `n` among `p`, `2 p`, `4 p` and so on.
pub open spec fn doubled_to(p: nat, n: nat) -> nat
    decreases below(p, n),
{
    if p >= n || p == 0 {
        p
    } else {
        doubled_to(2 * p, n)
    }
}

/// The least number that is above the tail and not below the cycle length.
pub open spec fn brent_bound(tail: nat, len: nat) -> nat {
    if tail + 1 > len {
        tail + 1
    } else {
        len
    }
}

/// The least power of two that is above the tail and not below the cycle length.
pub open spec fn brent_power(tail: nat, len: nat) -> nat {
    doubled_to(1, brent_bound(tail, len))
}

/// The position on the walk at which the slow runner waits when the fast one meets it.
pub open spec fn brent_anchor(tail: nat, len: nat) -> nat {
    (brent_power(tail, len) - 1) as nat
}

/// How many steps the fast runner has taken when it meets the slow one.
pub open spec fn brent_steps(tail: nat, len: nat) -> nat {
    brent_anchor(tail, len) + len
}

/// `hash` is a function of its argument alone, and `g` is that function.
pub open spec fn computes<F: Fn(&state::Hash) -> state::Hash>(
    hash: F,
    g: spec_fn(state::Hash) -> state::Hash,
) -> bool {
    forall|x: state::Hash, y: state::Hash| #[trigger] call_ensures(hash, (&x,), y) ==> y == g(x)
}

/// The walk from `seed` is detected within `max` steps, at `state`, on a cycle of `len` states.
pub open spec fn detected(
    g: spec_fn(state::Hash) -> state::Hash,
    seed: state::Hash,
    max: nat,
    state: state::Hash,
    len: nat,
) -> bool {
    exists|tail: nat|
        {
            &&& #[trigger] orbit::is_rho(g, seed, tail, len)
            &&& brent_steps(tail, len) <= max
            &&& state == orbit::iterate(g, seed, brent_anchor(tail, len))
        }
}

/// The walk from `seed` is not detected within `max` steps.
pub open spec fn undetected(
    g: spec_fn(state::Hash) -> state::Hash,
    seed: state::Hash,
    max: nat,
) -> bool {
    forall|tail: nat, len: nat| #[trigger]
        orbit::is_rho(g, seed, tail, len) ==> brent_steps(tail, len) > max
}

/// `step` is a number of steps at which the search asks whether to give up.
pub open spec fn asked(step: u128) -> bool {
    step > 0 && step % CLOCK_INTERVAL == 0
}

/// The search gives up at `step`, before it has detected the walk: it asks there, and is told
/// to give up.
pub open spec fn gave_up<C: Fn(u128) -> bool>(
    expired: C,
    g: spec_fn(state::Hash) -> state::Hash,
    seed: state::Hash,
    max: u128,
    step: u128,
) -> bool {
    &&& asked(step)
    &&& step < max
    &&& undetected(g, seed, step as nat)
    &&& call_ensures(expired, (step,), true)
}

/// How a search of the walk from `seed` under `g` may end: with the state and the length
/// where the walk is detected, and without where it is not. A search of more than
/// [`CLOCK_INTERVAL`] steps may also end without because the clock reached the deadline.
pub open spec fn search_ends(
    g: spec_fn(state::Hash) -> state::Hash,
    seed: state::Hash,
    max: u128,
    deadline: Option<Instant>,
    found: Option<(state::Hash, u128)>,
) -> bool {
    let long = max > CLOCK_INTERVAL && undetected(g, seed, CLOCK_INTERVAL as nat);
    let timed_out = found is None && long && clock::may_expire(deadline);
    &&& match found {
        Some((at, len)) => detected(g, seed, max as nat, at, len as nat) && orbit::is_cycle_length(
            g,
            at,
            len as nat,
        ),
        None => undetected(g, seed, max as nat) || timed_out,
    }
    &&& long ==> timed_out || clock::may_wait(deadline)
}

/// `q` is one of `p`, `2 p`, `4 p` and so on.
spec fn doubles_to(p: nat, q: nat) -> bool
    decreases below(p, q),
{
    p == q || (0 < p < q && doubles_to(2 * p, q))
}

proof fn lemma_doubles_once_more(p: nat, q: nat)
    requires
        doubles_to(p, q),
        p > 0,
    ensures
        doubles_to(p, 2 * q),
        q >= p,
    decreases below(p, q),
{
    if p == q {
        assert(doubles_to(2 * p, 2 * q));
    } else {
        lemma_doubles_once_more(2 * p, q);
    }
}

proof fn lemma_doubled_to_is_least(p: nat, n: nat, q: nat)
    requires
        p > 0,
        doubles_to(p, q),
        q >= n,
    ensures
        doubled_to(p, n) <= q,
    decreases below(p, q),
{
    if p < n {
        lemma_doubled_to_is_least(2 * p, n, q);
    }
}

proof fn lemma_doubled_to_reaches(p: nat, n: nat)
    requires
        p > 0,
    ensures
        doubles_to(p, doubled_to(p, n)),
        doubled_to(p, n) >= n,
        doubled_to(p, n) >= p,
    decreases below(p, n),
{
    if p < n {
        lemma_doubled_to_reaches(2 * p, n);
    }
}

proof fn lemma_doubles_gap(p: nat, a: nat, b: nat)
    requires
        p > 0,
        doubles_to(p, a),
        doubles_to(p, b),
        a < b,
    ensures
        2 * a <= b,
    decreases below(p, b),
{
    if p == a {
        assert(doubles_to(2 * p, b));
        if 2 * p != b {
            lemma_doubles_above(2 * p, b);
        }
    } else {
        lemma_doubles_above(p, a);
        lemma_doubles_gap(2 * p, a, b);
    }
}

proof fn lemma_doubles_above(p: nat, q: nat)
    requires
        doubles_to(p, q),
    ensures
        p <= q,
    decreases below(p, q),
{
    if p != q {
        lemma_doubles_above(2 * p, q);
    }
}

/// The two runners: the slow one waits at step `power - 1` of the walk, and the fast one is
/// `length` steps ahead of it.
#[derive(Clone, Copy)]
struct Walk {
    tortoise: state::Hash,
    hare: state::Hash,
    power: u128,
    length: u128,
    steps: u128,
}

spec fn walk_at(g: spec_fn(state::Hash) -> state::Hash, seed: state::Hash, walk: Walk) -> bool {
    &&& doubles_to(1, walk.power as nat)
    &&& 1 <= walk.length <= walk.power
    &&& walk.steps == walk.power - 1 + walk.length
    &&& walk.tortoise == orbit::iterate(g, seed, (walk.power - 1) as nat)
    &&& walk.hare == orbit::iterate(g, seed, walk.steps as nat)
    // the runners have not met since the slow one last moved
    &&& forall|d: nat|
        1 <= d < walk.length ==> #[trigger] orbit::iterate(g, walk.tortoise, d) != walk.tortoise
    // and could not meet before it moved
    &&& forall|tail: nat, len: nat| #[trigger]
        orbit::is_rho(g, seed, tail, len) ==> brent_power(tail, len) >= walk.power
}

/// If the fast runner has not met the slow one yet, no shape of the walk has let it.
proof fn lemma_walk_undetected(
    g: spec_fn(state::Hash) -> state::Hash,
    seed: state::Hash,
    walk: Walk,
)
    requires
        walk_at(g, seed, walk),
        walk.tortoise != walk.hare,
    ensures
        undetected(g, seed, walk.steps as nat),
        walk.power == walk.length ==> forall|tail: nat, len: nat| #[trigger]
            orbit::is_rho(g, seed, tail, len) ==> brent_power(tail, len) >= 2 * walk.power,
{
    let anchor = (walk.power - 1) as nat;
    assert(orbit::iterate(g, walk.tortoise, walk.length as nat) == walk.hare) by {
        orbit::lemma_iterate_add(g, seed, anchor, walk.length as nat);
    }
    assert forall|tail: nat, len: nat| #[trigger] orbit::is_rho(g, seed, tail, len) implies {
        &&& brent_steps(tail, len) > walk.steps
        &&& walk.power == walk.length ==> brent_power(tail, len) >= 2 * walk.power
    } by {
        let power = brent_power(tail, len);
        lemma_doubled_to_reaches(1, brent_bound(tail, len));
        if power == walk.power {
            orbit::lemma_rho_on_cycle(g, seed, tail, len, anchor);
            assert(orbit::returns_after(g, walk.tortoise, len));
            assert(len > walk.length) by {
                if len <= walk.length {
                    assert(orbit::iterate(g, walk.tortoise, len) == walk.tortoise);
                }
            }
        } else {
            lemma_doubles_gap(1, walk.power as nat, power);
            assert(len >= 1);
        }
    }
}

/// Where the runners meet, the shape of the walk is known.
proof fn lemma_walk_met(g: spec_fn(state::Hash) -> state::Hash, seed: state::Hash, walk: Walk)
    requires
        walk_at(g, seed, walk),
        walk.tortoise == walk.hare,
    ensures
        orbit::is_cycle_length(g, walk.tortoise, walk.length as nat),
        detected(g, seed, walk.steps as nat, walk.tortoise, walk.length as nat),
{
    let anchor = (walk.power - 1) as nat;
    let len = walk.length as nat;
    orbit::lemma_iterate_add(g, seed, anchor, len);
    assert(orbit::returns_after(g, walk.tortoise, len));
    assert forall|q: nat| q < len implies !#[trigger] orbit::returns_after(
        g,
        walk.tortoise,
        q,
    ) by {
        if orbit::returns_after(g, walk.tortoise, q) {
            assert(orbit::iterate(g, walk.tortoise, q) == walk.tortoise);
        }
    }
    let tail = orbit::lemma_rho_from_cycle(g, seed, anchor, len);
    lemma_doubled_to_is_least(1, brent_bound(tail, len), walk.power as nat);
    assert(brent_power(tail, len) == walk.power);
    assert(brent_steps(tail, len) == walk.steps);
}

proof fn lemma_walk_advances(
    g: spec_fn(state::Hash) -> state::Hash,
    seed: state::Hash,
    before: Walk,
    after: Walk,
)
    requires
        walk_at(g, seed, before),
        before.tortoise != before.hare,
        after.hare == g(before.hare),
        after.steps == before.steps + 1,
        before.power == before.length ==> {
            &&& after.tortoise == before.hare
            &&& after.power == 2 * before.power
            &&& after.length == 1
        },
        before.power != before.length ==> {
            &&& after.tortoise == before.tortoise
            &&& after.power == before.power
            &&& after.length == before.length + 1
        },
    ensures
        walk_at(g, seed, after),
{
    lemma_walk_undetected(g, seed, before);
    if before.power == before.length {
        lemma_doubles_once_more(1, before.power as nat);
    } else {
        orbit::lemma_iterate_add(
            g,
            seed,
            (before.power - 1) as nat,
            before.length as nat,
        );
        assert(orbit::iterate(g, before.tortoise, before.length as nat) == before.hare);
    }
}

/// `ask` was asked at `step`, with the state that the walk from `seed` had reached there, and
/// gave this answer.
pub(crate) open spec fn said_at<C: Fn(u128, &state::Hash) -> bool>(
    ask: C,
    g: spec_fn(state::Hash) -> state::Hash,
    seed: state::Hash,
    step: u128,
    answer: bool,
) -> bool {
    call_ensures(ask, (step, &orbit::iterate(g, seed, step as nat)), answer)
}

/// The search stops at `step`, before it has detected the walk, because `ask` says so.
pub(crate) open spec fn stopped_at<C: Fn(u128, &state::Hash) -> bool>(
    ask: C,
    g: spec_fn(state::Hash) -> state::Hash,
    seed: state::Hash,
    max: u128,
    step: u128,
) -> bool {
    &&& asked(step)
    &&& step < max
    &&& undetected(g, seed, step as nat)
    &&& said_at(ask, g, seed, step, true)
}

/// Brent's search on the walk from `seed`, told by `ask` whether to give up.
///
/// Every [`CLOCK_INTERVAL`] steps `ask` is asked, with the number of steps taken and the state
/// reached, and where it says so the search ends there without a result.
fn find_cycle_asking<F, C>(seed: state::Hash, max: u128, ask: C, hash: F) -> (found: Option<
    (state::Hash, u128),
>) where F: Fn(&state::Hash) -> state::Hash, C: Fn(u128, &state::Hash) -> bool
    requires
        forall|step: u128, hare: &state::Hash|
            #![trigger call_requires(ask, (step, hare))]
            asked(step) && step < max ==> call_requires(ask, (step, hare)),
        forall|x: &state::Hash| #[trigger] call_requires(hash, (x,)),
        exists|g: spec_fn(state::Hash) -> state::Hash| computes(hash, g),
    ensures
        forall|g: spec_fn(state::Hash) -> state::Hash| #[trigger]
            computes(hash, g) ==> match found {
                Some((state, len)) => detected(g, seed, max as nat, state, len as nat)
                    && orbit::is_cycle_length(g, state, len as nat),
                None => undetected(g, seed, max as nat) || exists|step: u128| #[trigger]
                    stopped_at(ask, g, seed, max, step),
            },
        forall|g: spec_fn(state::Hash) -> state::Hash, step: u128|
            #![trigger computes(hash, g), asked(step)]
            computes(hash, g) && asked(step) && step < max && undetected(g, seed, step as nat)
                ==> said_at(ask, g, seed, step, false) || (found is None && exists|at: u128|
                at <= step && #[trigger] stopped_at(ask, g, seed, max, at)),
{
    if max == 0 {
        return None;
    }
    let ghost g0 = choose|g: spec_fn(state::Hash) -> state::Hash| computes(hash, g);
    let mut walk = Walk { tortoise: seed, hare: hash(&seed), power: 1, length: 1, steps: 1 };
    assert forall|g: spec_fn(state::Hash) -> state::Hash| #[trigger]
        computes(hash, g) implies walk_at(g, seed, walk) by {
        reveal_with_fuel(orbit::iterate, 2);
        assert forall|tail: nat, len: nat| #[trigger]
            orbit::is_rho(g, seed, tail, len) implies brent_power(tail, len) >= 1 by {
            lemma_doubled_to_reaches(1, brent_bound(tail, len));
        }
    }

    while !same_hash(&walk.tortoise, &walk.hare) && walk.steps < max
        invariant
            forall|step: u128, hare: &state::Hash|
                #![trigger call_requires(ask, (step, hare))]
                asked(step) && step < max ==> call_requires(ask, (step, hare)),
            forall|x: &state::Hash| #[trigger] call_requires(hash, (x,)),
            computes(hash, g0),
            1 <= walk.steps <= max,
            forall|g: spec_fn(state::Hash) -> state::Hash| #[trigger]
                computes(hash, g) ==> walk_at(g, seed, walk),
            forall|g: spec_fn(state::Hash) -> state::Hash, step: u128|
                #![trigger computes(hash, g), asked(step)]
                computes(hash, g) && asked(step) && step < walk.steps ==> said_at(
                    ask,
                    g,
                    seed,
                    step,
                    false,
                ),
        decreases max - walk.steps,
    {
        if walk.steps % CLOCK_INTERVAL == 0 {
            assert(asked(walk.steps));
            let stop = ask(walk.steps, &walk.hare);
            assert forall|g: spec_fn(state::Hash) -> state::Hash| #[trigger]
                computes(hash, g) implies said_at(ask, g, seed, walk.steps, stop) by {
                assert(walk_at(g, seed, walk));
            }
            if stop {
                assert forall|g: spec_fn(state::Hash) -> state::Hash| #[trigger]
                    computes(hash, g) implies stopped_at(ask, g, seed, max, walk.steps) by {
                    lemma_walk_undetected(g, seed, walk);
                }
                return None;
            }
        }
        let ghost before = walk;
        assert(walk_at(g0, seed, walk));
        let next = hash(&walk.hare);
        if walk.power == walk.length {
            walk.tortoise = walk.hare;
            walk.power = walk.power * 2;
            walk.length = 0;
        }
        walk.hare = next;
        walk.length = walk.length + 1;
        walk.steps = walk.steps + 1;
        assert forall|g: spec_fn(state::Hash) -> state::Hash| #[trigger]
            computes(hash, g) implies walk_at(g, seed, walk) by {
            lemma_walk_advances(g, seed, before, walk);
        }
    }

    if !same_hash(&walk.tortoise, &walk.hare) {
        assert forall|g: spec_fn(state::Hash) -> state::Hash| #[trigger]
            computes(hash, g) implies undetected(g, seed, max as nat) by {
            lemma_walk_undetected(g, seed, walk);
        }
        return None;
    }
    let meeting = walk.tortoise;
    let ghost len = walk.length as nat;
    proof {
        assert forall|g: spec_fn(state::Hash) -> state::Hash| #[trigger] computes(hash, g) implies {
            &&& orbit::is_cycle_length(g, meeting, len)
            &&& detected(g, seed, max as nat, meeting, len)
        } by {
            lemma_walk_met(g, seed, walk);
        }
    }
    let mut cycle_length: u128 = 1;
    let mut cursor = hash(&meeting);
    assert(cursor == orbit::iterate(g0, meeting, 1)) by {
        reveal_with_fuel(orbit::iterate, 2);
    }
    while !same_hash(&cursor, &meeting)
        invariant
            forall|x: &state::Hash| #[trigger] call_requires(hash, (x,)),
            computes(hash, g0),
            orbit::is_cycle_length(g0, meeting, len),
            1 <= cycle_length <= len,
            len == walk.length,
            cursor == orbit::iterate(g0, meeting, cycle_length as nat),
        decreases len - cycle_length,
    {
        assert(cycle_length < len);
        cursor = hash(&cursor);
        cycle_length = cycle_length + 1;
    }
    assert(orbit::returns_after(g0, meeting, cycle_length as nat));
    assert(cycle_length == len);
    assert forall|g: spec_fn(state::Hash) -> state::Hash, step: u128|
        #![trigger computes(hash, g), asked(step)]
        computes(hash, g) && asked(step) && undetected(
            g,
            seed,
            step as nat,
        ) implies step < walk.steps by {
        lemma_walk_met(g, seed, walk);
    }
    Some((meeting, cycle_length))
}


/// Brent's search on the walk from `seed`, told by `expired` whether to give up.
///
/// Returns a state on the cycle that the walk ends in and the number of states on that
/// cycle, where the runners meet within `max` steps. Every [`CLOCK_INTERVAL`] steps
/// `expired` is asked, with the number of steps taken, and where it says so the search ends
/// there without a result.
pub fn find_cycle_while<F, C>(seed: state::Hash, max: u128, expired: C, hash: F) -> (found: Option<
    (state::Hash, u128),
>) where F: Fn(&state::Hash) -> state::Hash, C: Fn(u128) -> bool
    requires
        forall|step: u128| #[trigger] asked(step) && step < max ==> call_requires(expired, (step,)),
        forall|x: &state::Hash| #[trigger] call_requires(hash, (x,)),
        exists|g: spec_fn(state::Hash) -> state::Hash| computes(hash, g),
    ensures
        forall|g: spec_fn(state::Hash) -> state::Hash| #[trigger]
            computes(hash, g) ==> match found {
                Some((state, len)) => detected(g, seed, max as nat, state, len as nat)
                    && orbit::is_cycle_length(g, state, len as nat),
                None => undetected(g, seed, max as nat) || exists|step: u128| #[trigger]
                    gave_up(expired, g, seed, max, step),
            },
        forall|g: spec_fn(state::Hash) -> state::Hash, step: u128|
            #![trigger computes(hash, g), asked(step)]
            computes(hash, g) && asked(step) && step < max && undetected(g, seed, step as nat)
                ==> call_ensures(expired, (step,), false) || (found is None && exists|at: u128|
                at <= step && #[trigger] gave_up(expired, g, seed, max, at)),
{
    let ask = |step: u128, _hare: &state::Hash| -> (answer: bool)
        requires
            may_ask(&expired, step),
        ensures
            has_said(&expired, step, answer),
        { expired(step) };
    let found = find_cycle_asking(seed, max, ask, hash);
    assert forall|g: spec_fn(state::Hash) -> state::Hash, step: u128| #[trigger]
        stopped_at(ask, g, seed, max, step) implies gave_up(expired, g, seed, max, step) by {}
    found
}

/// `expired` may be asked with this number of steps.
pub(crate) open spec fn may_ask<Q: Fn(u128) -> bool>(expired: &Q, step: u128) -> bool {
    call_requires(*expired, (step,))
}

/// `expired` was asked with this number of steps, and gave this answer.
pub(crate) open spec fn has_said<Q: Fn(u128) -> bool>(
    expired: &Q,
    step: u128,
    answer: bool,
) -> bool {
    call_ensures(*expired, (step,), answer)
}

/// Reads the clock while a walk is at a state, after so many steps.
pub fn look(step: u128, hare: &state::Hash) -> (now: Instant)
    ensures
        clock::was_read(now),
{
    let _ = step;
    let _ = hare;
    clock::read()
}

fn look_through<L: Fn(u128, &state::Hash) -> Instant>(
    clock: L,
    step: u128,
    hare: &state::Hash,
) -> (now: Instant)
    requires
        call_requires(clock, (step, hare)),
    ensures
        call_ensures(clock, (step, hare), now),
{
    clock(step, hare)
}

/// The clock was read with this number of steps and this state, and that reading had reached
/// `deadline`, or had not, as `late` says.
pub open spec fn look_tells(
    step: u128,
    hare: &state::Hash,
    deadline: Instant,
    late: bool,
) -> bool {
    exists|now: Instant|
        {
            &&& clock::was_read(now)
            &&& #[trigger] call_ensures(look, (step, hare), now)
            &&& clock::instant_reached(now, deadline) == late
        }
}

/// Reads the clock anew where there is a deadline, and tells whether the reading has reached it.
fn look_again(step: u128, hare: &state::Hash, deadline: Option<Instant>) -> (late: bool)
    ensures
        late ==> clock::may_expire(deadline),
        !late ==> clock::may_wait(deadline),
        deadline matches Some(at) ==> look_tells(step, hare, at, late),
{
    match deadline {
        Some(_) => {
            let now = look_through(look, step, hare);
            clock::deadline_reached(now, deadline)
        },
        None => false,
    }
}

/// The clock was read when the walk from `seed` had taken exactly `step` steps, and that
/// reading had reached `deadline`, or had not, as `late` says.
pub open spec fn looked(
    g: spec_fn(state::Hash) -> state::Hash,
    seed: state::Hash,
    deadline: Instant,
    step: u128,
    late: bool,
) -> bool {
    exists|now: Instant|
        {
            &&& clock::was_read(now)
            &&& #[trigger] call_ensures(
                look,
                (step, &orbit::iterate(g, seed, step as nat)),
                now,
            )
            &&& clock::instant_reached(now, deadline) == late
        }
}

/// The search of the walk from `seed` went by the clock: every [`CLOCK_INTERVAL`] steps it read
/// it anew, it went on where the reading had not reached the deadline, and it gave up where it
/// had.
pub open spec fn timed(
    g: spec_fn(state::Hash) -> state::Hash,
    seed: state::Hash,
    max: u128,
    deadline: Instant,
    found: Option<(state::Hash, u128)>,
) -> bool {
    &&& found is None ==> undetected(g, seed, max as nat) || exists|step: u128|
        {
            &&& #[trigger] asked(step)
            &&& step < max
            &&& undetected(g, seed, step as nat)
            &&& looked(g, seed, deadline, step, true)
        }
    &&& forall|step: u128| #[trigger]
        asked(step) && step < max && undetected(g, seed, step as nat) ==> looked(
            g,
            seed,
            deadline,
            step,
            false,
        ) || (found is None && exists|at: u128|
            {
                &&& #[trigger] asked(at)
                &&& at <= step
                &&& looked(g, seed, deadline, at, true)
            })
}

/// A search that was told by the clock went by it.
proof fn lemma_timed<C: Fn(u128, &state::Hash) -> bool>(
    clock: C,
    g: spec_fn(state::Hash) -> state::Hash,
    seed: state::Hash,
    max: u128,
    deadline: Instant,
    found: Option<(state::Hash, u128)>,
)
    requires
        forall|step: u128, late: bool| #[trigger]
            said_at(clock, g, seed, step, late) ==> looked(g, seed, deadline, step, late),
        found is None ==> undetected(g, seed, max as nat) || exists|step: u128| #[trigger]
            stopped_at(clock, g, seed, max, step),
        forall|step: u128| #[trigger]
            asked(step) && step < max && undetected(g, seed, step as nat) ==> said_at(
                clock,
                g,
                seed,
                step,
                false,
            ) || (found is None && exists|at: u128|
                at <= step && #[trigger] stopped_at(clock, g, seed, max, at)),
    ensures
        timed(g, seed, max, deadline, found),
{
    if found is None && !undetected(g, seed, max as nat) {
        let step = choose|step: u128| #[trigger] stopped_at(clock, g, seed, max, step);
        assert(asked(step) && said_at(clock, g, seed, step, true));
    }
    assert forall|step: u128| #[trigger]
        asked(step) && step < max && undetected(g, seed, step as nat) implies looked(
        g,
        seed,
        deadline,
        step,
        false,
    ) || (found is None && exists|at: u128|
        {
            &&& #[trigger] asked(at)
            &&& at <= step
            &&& looked(g, seed, deadline, at, true)
        }) by {
        if said_at(clock, g, seed, step, false) {
        } else {
            let at = choose|at: u128|
                at <= step && #[trigger] stopped_at(clock, g, seed, max, at);
            assert(asked(at) && said_at(clock, g, seed, at, true));
        }
    }
}

/// A search with a deadline reads the clock anew every 1048576 steps: it goes on past such a
/// step only where a reading made there had not reached the deadline, and if it ends without a
/// result before `max` steps, then because a reading made at such a step had.
pub proof fn law_clock_is_read_every_interval(
    g: spec_fn(state::Hash) -> state::Hash,
    seed: state::Hash,
    max: u128,
    deadline: Instant,
    found: Option<(state::Hash, u128)>,
    step: u128,
)
    requires
        timed(g, seed, max, deadline, found),
        0 < step < max,
        step % 1048576 == 0,
        undetected(g, seed, step as nat),
        found is Some || forall|at: u128|
            0 < at <= step && at % 1048576 == 0 ==> !#[trigger] looked(g, seed, deadline, at, true),
    ensures
        exists|now: Instant|
            {
                &&& call_ensures(Instant::now, (), now)
                &&& #[trigger] call_ensures(
                    look,
                    (step, &orbit::iterate(g, seed, step as nat)),
                    now,
                )
                &&& !clock::instant_reached(now, deadline)
            },
{
    assert(asked(step));
    assert(looked(g, seed, deadline, step, false));
    let now = choose|now: Instant|
        {
            &&& clock::was_read(now)
            &&& #[trigger] call_ensures(
                look,
                (step, &orbit::iterate(g, seed, step as nat)),
                now,
            )
            &&& clock::instant_reached(now, deadline) == false
        };
    assert(clock::was_read(now));
}

/// A search with a deadline that ends without a result has taken all of its steps, or a reading
/// of the clock that was made at a multiple of 1048576 steps has reached the deadline.
pub proof fn law_giving_up_has_a_reason(
    g: spec_fn(state::Hash) -> state::Hash,
    seed: state::Hash,
    max: u128,
    deadline: Instant,
)
    requires
        timed(g, seed, max, deadline, None),
        !undetected(g, seed, max as nat),
    ensures
        exists|step: u128, now: Instant|
            {
                &&& 0 < step < max
                &&& step % 1048576 == 0
                &&& call_ensures(Instant::now, (), now)
                &&& #[trigger] call_ensures(
                    look,
                    (step, &orbit::iterate(g, seed, step as nat)),
                    now,
                )
                &&& clock::instant_reached(now, deadline)
            },
{
    let step = choose|step: u128|
        {
            &&& #[trigger] asked(step)
            &&& step < max
            &&& undetected(g, seed, step as nat)
            &&& looked(g, seed, deadline, step, true)
        };
    let now = choose|now: Instant|
        {
            &&& clock::was_read(now)
            &&& #[trigger] call_ensures(
                look,
                (step, &orbit::iterate(g, seed, step as nat)),
                now,
            )
            &&& clock::instant_reached(now, deadline) == true
        };
    assert(clock::was_read(now));
}

/// Brent's search on the walk from `seed` under `hash`, up to `max` steps and, where there is
/// one, until `deadline`.
///
/// Returns a state on the cycle that the walk ends in and the number of states on that
/// cycle. The clock is read every [`CLOCK_INTERVAL`] steps. Which readings it gives is not part
/// of the contract; [`find_cycle_while`] says what follows from each answer.
pub fn find_cycle<F>(
    seed: state::Hash,
    max: u128,
    deadline: Option<Instant>,
    hash: F,
) -> (found: Option<(state::Hash, u128)>) where F: Fn(&state::Hash) -> state::Hash
    requires
        forall|x: &state::Hash| #[trigger] call_requires(hash, (x,)),
        exists|g: spec_fn(state::Hash) -> state::Hash| computes(hash, g),
    ensures
        forall|g: spec_fn(state::Hash) -> state::Hash| #[trigger]
            computes(hash, g) ==> search_ends(g, seed, max, deadline, found),
        deadline matches Some(at) ==> forall|g: spec_fn(state::Hash) -> state::Hash| #[trigger]
            computes(hash, g) ==> timed(g, seed, max, at, found),
{
    let clock = |step: u128, hare: &state::Hash| -> (late: bool)
        ensures
            late ==> clock::may_expire(deadline),
            !late ==> clock::may_wait(deadline),
            deadline matches Some(at) ==> look_tells(step, hare, at, late),
        { look_again(step, hare, deadline) };
    let found = find_cycle_asking(seed, max, clock, hash);
    assert(asked(CLOCK_INTERVAL));
    proof {
        if let Some(at) = deadline {
            assert forall|g: spec_fn(state::Hash) -> state::Hash, step: u128, late: bool| #[trigger]
                said_at(clock, g, seed, step, late) implies looked(g, seed, at, step, late) by {
                assert(look_tells(step, &orbit::iterate(g, seed, step as nat), at, late));
            }
            assert forall|g: spec_fn(state::Hash) -> state::Hash| #[trigger]
                computes(hash, g) implies timed(g, seed, max, at, found) by {
                lemma_timed(clock, g, seed, max, at, found);
            }
        }
    }
    found
}

/// The search takes at most twice the tail and one round of the cycle, or less than three
/// rounds of the cycle.
pub proof fn law_steps_are_few(tail: nat, len: nat)
    ensures
        brent_steps(tail, len) <= 2 * tail + len || brent_steps(tail, len) < 3 * len,
{
    lemma_doubled_to_reaches(1, brent_bound(tail, len));
    lemma_doubled_to_below(1, brent_bound(tail, len));
}

proof fn lemma_doubled_to_below(p: nat, n: nat)
    requires
        0 < p,
        n > 0,
    ensures
        doubled_to(p, n) < 2 * n || doubled_to(p, n) == p,
    decreases below(p, n),
{
    if p < n {
        lemma_doubled_to_below(2 * p, n);
    }
}

/// A walk with a tail below a power of two, on a cycle not longer than it, is detected in
/// fewer than twice that number of steps.
pub proof fn law_power_of_two_reaches(tail: nat, len: nat, exponent: nat)
    requires
        tail < pow2(exponent),
        len <= pow2(exponent),
    ensures
        brent_steps(tail, len) < pow2(exponent + 1),
{
    let power = pow2(exponent);
    vstd::arithmetic::power2::lemma_pow2_unfold(exponent + 1);
    lemma_pow2_doubles(exponent);
    lemma_doubled_to_is_least(1, brent_bound(tail, len), power);
    lemma_doubled_to_reaches(1, brent_bound(tail, len));
}

proof fn lemma_pow2_doubles(exponent: nat)
    ensures
        doubles_to(1, pow2(exponent)),
    decreases exponent,
{
    vstd::arithmetic::power2::lemma2_to64();
    if exponent > 0 {
        lemma_pow2_doubles((exponent - 1) as nat);
        vstd::arithmetic::power2::lemma_pow2_unfold(exponent);
        lemma_doubles_once_more(1, pow2((exponent - 1) as nat));
    }
}

/// What a search finds is on the cycle that the walk ends in, and is counted in full.
pub proof fn law_detected_is_on_cycle(
    g: spec_fn(state::Hash) -> state::Hash,
    seed: state::Hash,
    max: nat,
    at: state::Hash,
    len: nat,
)
    requires
        detected(g, seed, max, at, len),
    ensures
        orbit::is_cycle_length(g, at, len),
        exists|n: nat| n <= max && at == #[trigger] orbit::iterate(g, seed, n),
{
    let tail = choose|tail: nat|
        {
            &&& #[trigger] orbit::is_rho(g, seed, tail, len)
            &&& brent_steps(tail, len) <= max
            &&& at == orbit::iterate(g, seed, brent_anchor(tail, len))
        };
    lemma_doubled_to_reaches(1, brent_bound(tail, len));
    orbit::lemma_rho_on_cycle(g, seed, tail, len, brent_anchor(tail, len));
    assert(at == orbit::iterate(g, seed, brent_anchor(tail, len)));
}

/// A search finds one thing only, and what it finds within `max` steps it finds within more.
pub proof fn law_result_is_stable(
    g: spec_fn(state::Hash) -> state::Hash,
    seed: state::Hash,
    max: nat,
    at: state::Hash,
    len: nat,
    more: nat,
    at2: state::Hash,
    len2: nat,
)
    requires
        detected(g, seed, max, at, len),
        max <= more,
    ensures
        detected(g, seed, more, at, len),
        !undetected(g, seed, more),
        detected(g, seed, more, at2, len2) ==> at == at2 && len == len2,
{
    let tail = choose|tail: nat|
        {
            &&& #[trigger] orbit::is_rho(g, seed, tail, len)
            &&& brent_steps(tail, len) <= max
            &&& at == orbit::iterate(g, seed, brent_anchor(tail, len))
        };
    if detected(g, seed, more, at2, len2) {
        let tail2 = choose|tail2: nat|
            {
                &&& #[trigger] orbit::is_rho(g, seed, tail2, len2)
                &&& brent_steps(tail2, len2) <= more
                &&& at2 == orbit::iterate(g, seed, brent_anchor(tail2, len2))
            };
        orbit::lemma_rho_unique(g, seed, tail, len, tail2, len2);
    }
}

/// Either the walk is detected within `max` steps or it is not.
pub proof fn law_detected_or_not(
    g: spec_fn(state::Hash) -> state::Hash,
    seed: state::Hash,
    max: nat,
)
    requires
        !undetected(g, seed, max),
    ensures
        exists|at: state::Hash, len: nat| #[trigger] detected(g, seed, max, at, len),
{
    let (tail, len) = choose|tail: nat, len: nat| #[trigger]
        orbit::is_rho(g, seed, tail, len) && brent_steps(tail, len) <= max;
    let at = orbit::iterate(g, seed, brent_anchor(tail, len));
    assert(detected(g, seed, max, at, len));
}

/// What a search of the walk from `seed` under `g` finds within `max` steps, if nothing stops
/// it.
pub open spec fn search_result(
    g: spec_fn(state::Hash) -> state::Hash,
    seed: state::Hash,
    max: u128,
) -> Option<(state::Hash, u128)> {
    choose|found: Option<(state::Hash, u128)>| #[trigger]
        search_ends(g, seed, max, None, found)
}

/// A search without a deadline has one result: a state and a length that are detected within
/// `max` steps, or none where the walk is not detected.
pub proof fn law_search_has_one_result(
    g: spec_fn(state::Hash) -> state::Hash,
    seed: state::Hash,
    max: u128,
    found: Option<(state::Hash, u128)>,
)
    ensures
        search_ends(g, seed, max, None, found) <==> found == search_result(g, seed, max),
        search_result(g, seed, max) matches Some((at, len)) ==> detected(
            g,
            seed,
            max as nat,
            at,
            len as nat,
        ),
        search_result(g, seed, max) is None <==> undetected(g, seed, max as nat),
{
    if undetected(g, seed, max as nat) {
        assert(search_ends(g, seed, max, None, None));
    } else {
        law_detected_or_not(g, seed, max as nat);
        let (at, len) = choose|at: state::Hash, len: nat| #[trigger]
            detected(g, seed, max as nat, at, len);
        lemma_detected_length(g, seed, max as nat, at, len);
        law_detected_is_on_cycle(g, seed, max as nat, at, len);
        assert(search_ends(g, seed, max, None, Some((at, len as u128))));
    }
    let result = search_result(g, seed, max);
    assert(search_ends(g, seed, max, None, result));
    if let Some((at, len)) = result {
        if let Some((at2, len2)) = found {
            law_result_is_stable(
                g,
                seed,
                max as nat,
                at,
                len as nat,
                max as nat,
                at2,
                len2 as nat,
            );
        } else {
            law_result_is_stable(g, seed, max as nat, at, len as nat, max as nat, at, len as nat);
        }
    } else if let Some((at, len)) = found {
        if search_ends(g, seed, max, None, found) {
            law_result_is_stable(g, seed, max as nat, at, len as nat, max as nat, at, len as nat);
        }
    }
}

/// A cycle that is detected within `max` steps is at most half as long, rounded up.
pub proof fn lemma_detected_length(
    g: spec_fn(state::Hash) -> state::Hash,
    seed: state::Hash,
    max: nat,
    at: state::Hash,
    len: nat,
)
    requires
        detected(g, seed, max, at, len),
    ensures
        0 < len,
        2 * len <= max + 1,
{
    let tail = choose|tail: nat|
        {
            &&& #[trigger] orbit::is_rho(g, seed, tail, len)
            &&& brent_steps(tail, len) <= max
            &&& at == orbit::iterate(g, seed, brent_anchor(tail, len))
        };
    lemma_doubled_to_reaches(1, brent_bound(tail, len));
}

/// Replaying a state on a cycle finds the length of that cycle.
pub proof fn law_replay_finds_length(
    g: spec_fn(state::Hash) -> state::Hash,
    witness: state::Hash,
    len: nat,
    max: nat,
)
    requires
        orbit::is_cycle_length(g, witness, len),
        max >= 3 * len,
    ensures
        !undetected(g, witness, max),
        forall|at: state::Hash, found: nat| #[trigger]
            detected(g, witness, max, at, found) ==> found == len,
{
    assert(orbit::is_rho(g, witness, 0, len));
    law_steps_are_few(0, len);
    assert forall|at: state::Hash, found: nat| #[trigger]
        detected(g, witness, max, at, found) implies found == len by {
        let tail = choose|tail: nat|
            {
                &&& #[trigger] orbit::is_rho(g, witness, tail, found)
                &&& brent_steps(tail, found) <= max
                &&& at == orbit::iterate(g, witness, brent_anchor(tail, found))
            };
        orbit::lemma_rho_unique(g, witness, 0, len, tail, found);
    }
}

/// The search asks at every multiple of 1048576 steps, and nowhere else.
pub proof fn law_asked_every_interval(step: u128)
    ensures
        asked(step) <==> step > 0 && exists|k: int| #[trigger] (1048576 * k) == step,
        step > 0 && step + 1048576 <= u128::MAX ==> asked(step) == asked((step + 1048576) as u128),
{
    if asked(step) {
        let k = step as int / 1048576;
        assert(1048576 * k == step);
    }
}

/// How a walk is detected, in terms of the walk alone: the slow runner waits one step before a
/// power of two, the first one that is above the tail and not below the cycle length, and the
/// fast one meets it one round of the cycle later.
pub proof fn law_detection(
    g: spec_fn(state::Hash) -> state::Hash,
    seed: state::Hash,
    tail: nat,
    len: nat,
    exponent: nat,
    max: nat,
)
    requires
        orbit::is_rho(g, seed, tail, len),
        tail < pow2(exponent),
        len <= pow2(exponent),
        exponent > 0 ==> tail >= pow2((exponent - 1) as nat) || len > pow2((exponent - 1) as nat),
    ensures
        pow2(exponent) - 1 + len <= max ==> detected(
            g,
            seed,
            max,
            orbit::iterate(g, seed, (pow2(exponent) - 1) as nat),
            len,
        ),
        pow2(exponent) - 1 + len <= max <==> !undetected(g, seed, max),
        forall|at: state::Hash, found: nat| #[trigger]
            detected(g, seed, max, at, found) ==> at == orbit::iterate(
                g,
                seed,
                (pow2(exponent) - 1) as nat,
            ) && found == len,
{
    let bound = brent_bound(tail, len);
    let power = brent_power(tail, len);
    lemma_pow2_doubles(exponent);
    lemma_doubled_to_reaches(1, bound);
    lemma_doubled_to_is_least(1, bound, pow2(exponent));
    assert(power == pow2(exponent)) by {
        if power < pow2(exponent) {
            lemma_doubles_gap(1, power, pow2(exponent));
            vstd::arithmetic::power2::lemma2_to64();
            if exponent > 0 {
                vstd::arithmetic::power2::lemma_pow2_unfold(exponent);
            }
        }
    }
    assert forall|at: state::Hash, found: nat| #[trigger]
        detected(g, seed, max, at, found) implies at == orbit::iterate(
        g,
        seed,
        (pow2(exponent) - 1) as nat,
    ) && found == len by {
        let tail2 = choose|tail2: nat|
            {
                &&& #[trigger] orbit::is_rho(g, seed, tail2, found)
                &&& brent_steps(tail2, found) <= max
                &&& at == orbit::iterate(g, seed, brent_anchor(tail2, found))
            };
        orbit::lemma_rho_unique(g, seed, tail, len, tail2, found);
    }
    assert forall|tail2: nat, len2: nat| #[trigger]
        orbit::is_rho(g, seed, tail2, len2) implies tail2 == tail && len2 == len by {
        orbit::lemma_rho_unique(g, seed, tail, len, tail2, len2);
    }
}

/// How a search may end, in terms of what is detected: with what is detected, or without a
/// result. Without a deadline, or within 1048576 steps, it ends without one only where nothing
/// is detected.
pub proof fn law_search_ends(
    g: spec_fn(state::Hash) -> state::Hash,
    seed: state::Hash,
    max: u128,
    deadline: Option<Instant>,
    found: Option<(state::Hash, u128)>,
)
    requires
        search_ends(g, seed, max, deadline, found),
    ensures
        found matches Some((at, len)) ==> {
            &&& detected(g, seed, max as nat, at, len as nat)
            &&& orbit::is_cycle_length(g, at, len as nat)
        },
        found is None && (deadline is None || max <= 1048576) ==> undetected(g, seed, max as nat),
        found is None && !undetected(g, seed, max as nat) ==> deadline is Some && undetected(
            g,
            seed,
            1048576,
        ),
{
}

/// A search that is told to give up does so at a multiple of 1048576 steps, below `max`, at
/// which the walk is not detected yet and at which it asked and was told so.
pub proof fn law_giving_up_is_told<C: Fn(u128) -> bool>(
    expired: C,
    g: spec_fn(state::Hash) -> state::Hash,
    seed: state::Hash,
    max: u128,
    step: u128,
)
    ensures
        gave_up(expired, g, seed, max, step) <==> {
            &&& 0 < step < max
            &&& step % 1048576 == 0
            &&& undetected(g, seed, step as nat)
            &&& call_ensures(expired, (step,), true)
        },
{
}

} // verus!
