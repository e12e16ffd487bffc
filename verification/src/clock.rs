//! Deadlines on the monotonic clock.

use std::time::{Duration, Instant};
use vstd::prelude::*;

verus! {

/// A reading of the monotonic clock, taken as it is.
#[verifier::external_type_specification]
#[verifier::external_body]
pub struct ExInstant(std::time::Instant);

/// `std::time::Instant::now` reads the clock. Nothing is claimed of what it reads.
pub assume_specification[ std::time::Instant::now ]() -> std::time::Instant
;

/// What `std::time::Instant::checked_add` returns: the reading that comes `by` after `start`,
/// where the clock can show it.
pub uninterp spec fn instant_after(start: Instant, by: Duration) -> Option<Instant>;

/// `std::time::Instant::checked_add` is a function of the two values that it adds.
pub assume_specification[ std::time::Instant::checked_add ](
    start: &std::time::Instant,
    by: std::time::Duration,
) -> (sum: Option<std::time::Instant>)
    ensures
        sum == instant_after(*start, by),
;

/// What the operator `>=` of `std::time::Instant` returns: the reading `now` is `deadline` or
/// a later one.
pub uninterp spec fn instant_reached(now: Instant, deadline: Instant) -> bool;

/// The operator `>=` of `std::time::Instant` is a function of the two readings that it
/// compares.
#[verifier::external_body]
fn reading_reached(now: &Instant, deadline: &Instant) -> (reached: bool)
    ensures
        reached == instant_reached(*now, *deadline),
{
    now >= deadline
}

/// `now` is a reading that the clock gives.
pub open spec fn was_read(now: Instant) -> bool {
    call_ensures(Instant::now, (), now)
}

/// Some reading of the clock has reached the deadline.
pub open spec fn may_expire(deadline: Option<Instant>) -> bool {
    match deadline {
        Some(at) => exists|now: Instant| was_read(now) && #[trigger] instant_reached(now, at),
        None => false,
    }
}

/// Some reading of the clock has not reached the deadline, or there is none.
pub open spec fn may_wait(deadline: Option<Instant>) -> bool {
    match deadline {
        Some(at) => exists|now: Instant| was_read(now) && !#[trigger] instant_reached(now, at),
        None => true,
    }
}

/// Reads a clock.
fn reading_of<C: Fn() -> Instant>(clock: C) -> (now: Instant)
    requires
        call_requires(clock, ()),
    ensures
        call_ensures(clock, (), now),
{
    clock()
}

/// Reads the clock.
pub fn read() -> (now: Instant)
    ensures
        was_read(now),
{
    reading_of(Instant::now)
}

/// Whether the reading `now` has reached the deadline, where there is one.
pub fn deadline_reached(now: Instant, deadline: Option<Instant>) -> (reached: bool)
    ensures
        reached == match deadline {
            Some(at) => instant_reached(now, at),
            None => false,
        },
{
    match deadline {
        Some(at) => reading_reached(&now, &at),
        None => false,
    }
}

/// Whether the clock has reached the deadline, where there is one.
pub fn expired(deadline: Option<Instant>) -> (reached: bool)
    ensures
        reached ==> may_expire(deadline),
        !reached ==> may_wait(deadline),
{
    match deadline {
        Some(_) => deadline_reached(read(), deadline),
        None => false,
    }
}

/// The deadline that lies `timeout` after `start`, where there is a timeout and the clock can
/// show it.
pub open spec fn deadline_of(start: Instant, timeout: Option<Duration>) -> Option<Instant> {
    match timeout {
        Some(by) => instant_after(start, by),
        None => None,
    }
}

/// The deadline that lies `timeout` after `start`. One that the clock can never show is none.
pub fn deadline_after(start: Instant, timeout: Option<Duration>) -> (deadline: Option<Instant>)
    ensures
        deadline == deadline_of(start, timeout),
{
    match timeout {
        Some(by) => start.checked_add(by),
        None => None,
    }
}

/// What is said of a deadline rests on a reading of the clock: it may be reached only where
/// there is one and some reading has reached it, and it may be waited for only where there is
/// none or some reading has not.
pub proof fn law_deadlines_go_by_readings(deadline: Option<Instant>)
    ensures
        may_expire(deadline) ==> deadline is Some && exists|now: Instant|
            call_ensures(Instant::now, (), now) && #[trigger] instant_reached(
                now,
                deadline->Some_0,
            ),
        may_wait(deadline) && deadline is Some ==> exists|now: Instant|
            call_ensures(Instant::now, (), now) && !#[trigger] instant_reached(
                now,
                deadline->Some_0,
            ),
        may_wait(None),
{
    if may_expire(deadline) {
        let at = deadline->Some_0;
        let now = choose|now: Instant| was_read(now) && #[trigger] instant_reached(now, at);
        assert(was_read(now));
    }
    if may_wait(deadline) && deadline is Some {
        let at = deadline->Some_0;
        let now = choose|now: Instant| was_read(now) && !#[trigger] instant_reached(now, at);
        assert(was_read(now));
    }
}

/// A deadline lies the timeout after the start, and without a timeout there is none.
pub proof fn law_deadline_lies_after_the_start(start: Instant, by: Duration)
    ensures
        deadline_of(start, Some(by)) == instant_after(start, by),
        deadline_of(start, None) is None,
{
}

} // verus!
