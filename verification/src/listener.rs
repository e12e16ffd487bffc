//! Who is told what a search finds while it goes on.

use vstd::prelude::*;

verus! {

/// What a search tells while it goes on. `T` is what it calls a state.
pub enum Heard<T> {
    /// A cycle that is shorter than those before it: a state on it, and its length.
    NewBest(T, u64),
    /// The number of starts processed and the number of all, where the search goes on.
    Checkpoint(u64, u64),
}

/// The new best cycles among what is told, in order.
pub open spec fn new_bests<T>(log: Seq<Heard<T>>) -> Seq<(T, u64)>
    decreases log.len(),
{
    if log.len() == 0 {
        Seq::empty()
    } else {
        let before = new_bests(log.drop_last());
        match log.last() {
            Heard::NewBest(at, length) => before.push((at, length)),
            Heard::Checkpoint(_, _) => before,
        }
    }
}

/// The new best cycles of what is told first are those that are told first.
pub proof fn lemma_new_bests_add<T>(first: Seq<Heard<T>>, rest: Seq<Heard<T>>)
    ensures
        new_bests(first + rest) == new_bests(first) + new_bests(rest),
    decreases rest.len(),
{
    if rest.len() == 0 {
        assert(first + rest =~= first);
    } else {
        lemma_new_bests_add(first, rest.drop_last());
        assert((first + rest).drop_last() =~= first + rest.drop_last());
    }
}

/// A listener: `on_new_best` is told of each new best cycle, and `on_checkpoint` of each
/// checkpoint. All that it is told is kept, in order, for the proofs.
pub struct Listener<T, F: FnMut(T, u64), G: FnMut(u64, u64)> {
    on_new_best: F,
    on_checkpoint: G,
    log: Ghost<Seq<Heard<T>>>,
}

impl<T, F: FnMut(T, u64), G: FnMut(u64, u64)> Listener<T, F, G> {
    /// All that the listener has been told, in order.
    pub closed spec fn heard(&self) -> Seq<Heard<T>> {
        self.log@
    }

    /// What is called on a new best cycle.
    pub closed spec fn on_new_best(&self) -> F {
        self.on_new_best
    }

    /// What is called at a checkpoint.
    pub closed spec fn on_checkpoint(&self) -> G {
        self.on_checkpoint
    }

    /// The listener may be told this.
    pub open spec fn can_hear(&self, event: Heard<T>) -> bool {
        match event {
            Heard::NewBest(at, length) => call_requires(self.on_new_best(), (at, length)),
            Heard::Checkpoint(count, total) => call_requires(self.on_checkpoint(), (count, total)),
        }
    }

    /// The listener calls what `other` calls.
    pub open spec fn same_ears(&self, other: &Self) -> bool {
        self.on_new_best() == other.on_new_best() && self.on_checkpoint() == other.on_checkpoint()
    }

    /// A listener that has been told nothing.
    pub fn new(on_new_best: F, on_checkpoint: G) -> (listener: Self)
        ensures
            listener.heard() == Seq::<Heard<T>>::empty(),
            listener.on_new_best() == on_new_best,
            listener.on_checkpoint() == on_checkpoint,
    {
        Listener { on_new_best, on_checkpoint, log: Ghost(Seq::empty()) }
    }

    /// Tells of a new best cycle.
    pub fn new_best(&mut self, at: T, length: u64)
        requires
            old(self).can_hear(Heard::NewBest(at, length)),
        ensures
            final(self).heard() == old(self).heard().push(Heard::NewBest(at, length)),
            final(self).same_ears(old(self)),
            call_ensures(old(self).on_new_best(), (at, length), ()),
    {
        let ghost before = at;
        (self.on_new_best)(at, length);
        self.log = Ghost(self.log@.push(Heard::NewBest(before, length)));
    }

    /// Tells of a checkpoint.
    pub fn checkpoint(&mut self, count: u64, total: u64)
        requires
            old(self).can_hear(Heard::Checkpoint(count, total)),
        ensures
            final(self).heard() == old(self).heard().push(Heard::Checkpoint(count, total)),
            final(self).same_ears(old(self)),
            call_ensures(old(self).on_checkpoint(), (count, total), ()),
    {
        (self.on_checkpoint)(count, total);
        self.log = Ghost(self.log@.push(Heard::Checkpoint(count, total)));
    }
}

/// A new best cycle that is told counts once, and a checkpoint not at all.
pub proof fn law_new_bests_are_counted<T>(
    log: Seq<Heard<T>>,
    at: T,
    length: u64,
    count: u64,
    total: u64,
)
    ensures
        new_bests(log.push(Heard::NewBest(at, length))) == new_bests(log).push((at, length)),
        new_bests(log.push(Heard::Checkpoint(count, total))) == new_bests(log),
        new_bests(Seq::<Heard<T>>::empty()) == Seq::<(T, u64)>::empty(),
{
    assert(log.push(Heard::NewBest(at, length)).drop_last() =~= log);
    assert(log.push(Heard::Checkpoint(count, total)).drop_last() =~= log);
}

} // verus!
