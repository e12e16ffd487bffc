//! Orbits of a map: iterates, cycles, and the tail that leads into a cycle.

use vstd::prelude::*;

verus! {

/// The state reached from `x` after `n` applications of `f`.
pub open spec fn iterate<T>(f: spec_fn(T) -> T, x: T, n: nat) -> T
    decreases n,
{
    if n == 0 {
        x
    } else {
        f(iterate(f, x, (n - 1) as nat))
    }
}

/// `x` comes back to itself after `p` steps.
pub open spec fn returns_after<T>(f: spec_fn(T) -> T, x: T, p: nat) -> bool {
    p > 0 && iterate(f, x, p) == x
}

/// `x` lies on a cycle of `f`.
pub open spec fn on_cycle<T>(f: spec_fn(T) -> T, x: T) -> bool {
    exists|p: nat| #[trigger] returns_after(f, x, p)
}

/// `x` lies on a cycle of `f`, and the cycle has exactly `len` states.
pub open spec fn is_cycle_length<T>(f: spec_fn(T) -> T, x: T, len: nat) -> bool {
    &&& returns_after(f, x, len)
    &&& forall|q: nat| q < len ==> !#[trigger] returns_after(f, x, q)
}

/// The walk from `x` spends exactly `tail` steps outside the cycle that it ends in, and
/// that cycle has exactly `len` states.
pub open spec fn is_rho<T>(f: spec_fn(T) -> T, x: T, tail: nat, len: nat) -> bool {
    &&& is_cycle_length(f, iterate(f, x, tail), len)
    &&& forall|j: nat| j < tail ==> !on_cycle(f, #[trigger] iterate(f, x, j))
}

/// Walking `a` steps and then `b` steps is walking `a + b` steps.
pub proof fn lemma_iterate_add<T>(f: spec_fn(T) -> T, x: T, a: nat, b: nat)
    ensures
        iterate(f, iterate(f, x, a), b) == iterate(f, x, a + b),
    decreases b,
{
    if b > 0 {
        lemma_iterate_add(f, x, a, (b - 1) as nat);
        assert((a + b - 1) as nat == a + (b - 1) as nat);
    }
}

/// Every state that a cycle state reaches lies on the same cycle: it has the same length.
pub proof fn lemma_cycle_length_ahead<T>(f: spec_fn(T) -> T, x: T, len: nat, n: nat)
    requires
        is_cycle_length(f, x, len),
    ensures
        is_cycle_length(f, iterate(f, x, n), len),
    decreases n,
{
    if n > 0 {
        let y = iterate(f, x, (n - 1) as nat);
        let z = iterate(f, x, n);
        lemma_cycle_length_ahead(f, x, len, (n - 1) as nat);
        assert(iterate(f, y, 1) == z) by {
            reveal_with_fuel(iterate, 2);
        }
        // z comes back after len steps
        lemma_iterate_add(f, y, 1, len);
        lemma_iterate_add(f, y, len, 1);
        assert(returns_after(f, z, len));
        assert forall|q: nat| q < len implies !#[trigger] returns_after(f, z, q) by {
            if returns_after(f, z, q) {
                // Going on from z to y, which is len - 1 steps ahead of it, brings y back too.
                let back = (len - 1) as nat;
                lemma_iterate_add(f, y, 1, back);
                assert(iterate(f, z, back) == y);
                lemma_iterate_add(f, z, q, back);
                lemma_iterate_add(f, z, back, q);
                assert(iterate(f, y, q) == y);
                assert(returns_after(f, y, q));
            }
        }
    }
}

/// A cycle has one length only.
pub proof fn lemma_cycle_length_unique<T>(f: spec_fn(T) -> T, x: T, a: nat, b: nat)
    requires
        is_cycle_length(f, x, a),
        is_cycle_length(f, x, b),
    ensures
        a == b,
{
    if a < b {
        assert(returns_after(f, x, a));
    } else if b < a {
        assert(returns_after(f, x, b));
    }
}

/// A walk has one tail and one cycle length only.
pub proof fn lemma_rho_unique<T>(
    f: spec_fn(T) -> T,
    x: T,
    tail: nat,
    len: nat,
    tail2: nat,
    len2: nat,
)
    requires
        is_rho(f, x, tail, len),
        is_rho(f, x, tail2, len2),
    ensures
        tail == tail2,
        len == len2,
{
    assert(on_cycle(f, iterate(f, x, tail))) by {
        assert(returns_after(f, iterate(f, x, tail), len));
    }
    assert(on_cycle(f, iterate(f, x, tail2))) by {
        assert(returns_after(f, iterate(f, x, tail2), len2));
    }
    assert(tail == tail2);
    lemma_cycle_length_unique(f, iterate(f, x, tail), len, len2);
}

/// From the end of its tail on, a walk is on its cycle.
pub proof fn lemma_rho_on_cycle<T>(f: spec_fn(T) -> T, x: T, tail: nat, len: nat, n: nat)
    requires
        is_rho(f, x, tail, len),
        n >= tail,
    ensures
        is_cycle_length(f, iterate(f, x, n), len),
{
    let ahead = (n - tail) as nat;
    lemma_cycle_length_ahead(f, iterate(f, x, tail), len, ahead);
    lemma_iterate_add(f, x, tail, ahead);
}

/// A walk that is on a cycle after `n` steps has a tail of at most `n` steps into it.
pub proof fn lemma_rho_from_cycle<T>(f: spec_fn(T) -> T, x: T, n: nat, len: nat) -> (tail: nat)
    requires
        is_cycle_length(f, iterate(f, x, n), len),
    ensures
        tail <= n,
        is_rho(f, x, tail, len),
    decreases n,
{
    if exists|j: nat| j < n && on_cycle(f, #[trigger] iterate(f, x, j)) {
        let j = choose|j: nat| j < n && on_cycle(f, #[trigger] iterate(f, x, j));
        let y = iterate(f, x, j);
        let len_y = lemma_cycle_length_exists(f, y);
        lemma_cycle_length_ahead(f, y, len_y, (n - j) as nat);
        lemma_iterate_add(f, x, j, (n - j) as nat);
        lemma_cycle_length_unique(f, iterate(f, x, n), len, len_y);
        lemma_rho_from_cycle(f, x, j, len)
    } else {
        n
    }
}

/// A state on a cycle has a cycle length.
pub proof fn lemma_cycle_length_exists<T>(f: spec_fn(T) -> T, x: T) -> (len: nat)
    requires
        on_cycle(f, x),
    ensures
        is_cycle_length(f, x, len),
{
    let p = choose|p: nat| #[trigger] returns_after(f, x, p);
    lemma_least_return(f, x, p)
}

proof fn lemma_least_return<T>(f: spec_fn(T) -> T, x: T, p: nat) -> (len: nat)
    requires
        returns_after(f, x, p),
    ensures
        is_cycle_length(f, x, len),
        len <= p,
    decreases p,
{
    if exists|q: nat| q < p && #[trigger] returns_after(f, x, q) {
        let q = choose|q: nat| q < p && #[trigger] returns_after(f, x, q);
        lemma_least_return(f, x, q)
    } else {
        p
    }
}

/// A walk that repeats a state has a tail and a cycle: if the states after `a` and after
/// `b` steps are the same and `a < b`, the tail is at most `a` and the cycle at most `b - a`.
pub proof fn lemma_rho_from_repeat<T>(f: spec_fn(T) -> T, x: T, a: nat, b: nat) -> (r: (nat, nat))
    requires
        a < b,
        iterate(f, x, a) == iterate(f, x, b),
    ensures
        is_rho(f, x, r.0, r.1),
        r.0 <= a,
        r.1 <= b - a,
{
    let y = iterate(f, x, a);
    let p = (b - a) as nat;
    lemma_iterate_add(f, x, a, p);
    assert(returns_after(f, y, p));
    let len = lemma_least_return(f, y, p);
    let tail = lemma_rho_from_cycle(f, x, a, len);
    (tail, len)
}

/// Walking no steps stays, and walking one step more is one more application of the map.
pub proof fn law_walks_go_step_by_step<T>(f: spec_fn(T) -> T, x: T, n: nat)
    ensures
        iterate(f, x, 0) == x,
        iterate(f, x, n + 1) == f(iterate(f, x, n)),
        iterate(f, x, n + 1) == iterate(f, f(x), n),
{
    assert(iterate(f, x, 1) == f(x)) by {
        reveal_with_fuel(iterate, 2);
    }
    lemma_iterate_add(f, x, 1, n);
}

/// A cycle of `len` states is a walk that comes back after `len` steps and meets no state twice
/// before.
pub proof fn law_cycles_meet_no_state_twice<T>(f: spec_fn(T) -> T, x: T, len: nat)
    ensures
        is_cycle_length(f, x, len) <==> {
            &&& len > 0
            &&& iterate(f, x, len) == x
            &&& forall|i: nat, j: nat|
                i < j < len ==> #[trigger] iterate(f, x, i) != #[trigger] iterate(f, x, j)
        },
{
    if is_cycle_length(f, x, len) {
        assert forall|i: nat, j: nat| i < j < len implies #[trigger] iterate(f, x, i)
            != #[trigger] iterate(f, x, j) by {
            if iterate(f, x, i) == iterate(f, x, j) {
                let p = (j - i) as nat;
                let y = iterate(f, x, i);
                lemma_cycle_length_ahead(f, x, len, i);
                lemma_iterate_add(f, x, i, p);
                assert(returns_after(f, y, p));
            }
        }
    }
    if len > 0 && iterate(f, x, len) == x && forall|i: nat, j: nat|
        i < j < len ==> #[trigger] iterate(f, x, i) != #[trigger] iterate(f, x, j) {
        assert forall|q: nat| q < len implies !#[trigger] returns_after(f, x, q) by {
            if returns_after(f, x, q) {
                assert(iterate(f, x, 0) != iterate(f, x, q));
            }
        }
    }
}

/// The tail of a walk is as long as the walk takes to the first state that it meets again, and
/// the walk comes back there after one round of the cycle.
pub proof fn law_tail_leads_to_the_cycle<T>(f: spec_fn(T) -> T, x: T, tail: nat, len: nat)
    requires
        is_rho(f, x, tail, len),
    ensures
        len > 0,
        iterate(f, x, tail) == iterate(f, x, tail + len),
        forall|i: nat, j: nat|
            i < j < tail + len ==> #[trigger] iterate(f, x, i) != #[trigger] iterate(f, x, j),
{
    let entry = iterate(f, x, tail);
    lemma_iterate_add(f, x, tail, len);
    assert forall|i: nat, j: nat| i < j < tail + len implies #[trigger] iterate(f, x, i)
        != #[trigger] iterate(f, x, j) by {
        if iterate(f, x, i) == iterate(f, x, j) {
            let p = (j - i) as nat;
            lemma_iterate_add(f, x, i, p);
            assert(returns_after(f, iterate(f, x, i), p));
            assert(on_cycle(f, iterate(f, x, i)));
            assert(i >= tail);
            let a = (i - tail) as nat;
            let b = (j - tail) as nat;
            lemma_iterate_add(f, x, tail, a);
            lemma_iterate_add(f, x, tail, b);
            law_cycles_meet_no_state_twice(f, entry, len);
            assert(iterate(f, entry, a) != iterate(f, entry, b));
        }
    }
}

} // verus!
