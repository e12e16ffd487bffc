//! What is handed to the CUDA kernels, and what is read from their results.
//!
//! A trial takes five words of seed and seventeen words of state, and gives eight words of
//! result: five words of a state on the cycle, two words of its length, the low one first,
//! and a status. The status is zero while the trial runs, and one where it found a cycle.

use crate::sample;
use crate::state;
use crate::words;
use crate::words::{word_from_bytes, word_to_bytes};
use vstd::prelude::*;

verus! {

/// The words of a seed.
pub const SEED_WORDS: usize = 5;

/// The words of a trial's state.
pub const STATE_WORDS: usize = 17;

/// The words of a trial's result.
pub const RESULT_WORDS: usize = 8;

/// The last word of the state of a trial that has not begun.
pub const NOT_BEGUN: u32 = 4;

/// Word `w` of a state.
pub open spec fn hash_word(hash: state::Hash, w: int) -> u32 {
    words::be_word(hash@[4 * w], hash@[4 * w + 1], hash@[4 * w + 2], hash@[4 * w + 3]) as u32
}

/// The words of some seeds, one after the other.
pub open spec fn seed_words(seeds: Seq<state::Hash>) -> Seq<u32> {
    Seq::new(5 * seeds.len(), |i: int| hash_word(seeds[i / 5], i % 5))
}

/// The state of which five words are given.
pub open spec fn hash_of_words(five: Seq<u32>) -> state::Hash {
    state::hash_of(Seq::new(20, |i: int| words::be_bytes(five[i / 4] as nat)[i % 4]))
}

/// The states of trials that have not begun: their seeds, and [`NOT_BEGUN`] at the end.
pub open spec fn fresh_states(seeds: Seq<u32>) -> Seq<u32> {
    Seq::new(
        17 * (seeds.len() / 5),
        |i: int|
            if i % 17 < 5 {
                seeds[5 * (i / 17) + i % 17]
            } else if i % 17 == 16 {
                NOT_BEGUN
            } else {
                0
            },
    )
}

/// Appends the words of a seed to those of the seeds before it.
pub(crate) fn push_words(
    flat: &mut Vec<u32>,
    seed: &state::Hash,
    Ghost(before): Ghost<Seq<state::Hash>>,
)
    requires
        old(flat)@ == seed_words(before),
    ensures
        final(flat)@ == seed_words(before.push(*seed)),
{
    proof {
        words::law_bytes_of_their_word(seed@[0], seed@[1], seed@[2], seed@[3]);
        words::law_bytes_of_their_word(seed@[4], seed@[5], seed@[6], seed@[7]);
        words::law_bytes_of_their_word(seed@[8], seed@[9], seed@[10], seed@[11]);
        words::law_bytes_of_their_word(seed@[12], seed@[13], seed@[14], seed@[15]);
        words::law_bytes_of_their_word(seed@[16], seed@[17], seed@[18], seed@[19]);
    }
    flat.push(word_from_bytes(seed[0], seed[1], seed[2], seed[3]));
    flat.push(word_from_bytes(seed[4], seed[5], seed[6], seed[7]));
    flat.push(word_from_bytes(seed[8], seed[9], seed[10], seed[11]));
    flat.push(word_from_bytes(seed[12], seed[13], seed[14], seed[15]));
    flat.push(word_from_bytes(seed[16], seed[17], seed[18], seed[19]));
    assert(flat@ =~= seed_words(before.push(*seed)));
}

/// The words of some seeds, one after the other, for the kernels.
pub fn flatten_seeds(seeds: &[state::Hash]) -> (flat: Vec<u32>)
    ensures
        flat@ == seed_words(seeds@),
{
    let mut flat: Vec<u32> = Vec::new();
    let mut index: usize = 0;
    while index < seeds.len()
        invariant
            index <= seeds@.len(),
            flat@ == seed_words(seeds@.take(index as int)),
        decreases seeds@.len() - index,
    {
        push_words(&mut flat, &seeds[index], Ghost(seeds@.take(index as int)));
        index += 1;
        assert(seeds@.take(index as int) =~= seeds@.take(index - 1).push(seeds@[index - 1]));
    }
    assert(seeds@.take(index as int) =~= seeds@);
    flat
}

/// The states of trials that have not begun, from the words of their seeds.
pub fn initial_states(seeds: &[u32]) -> (states: Vec<u32>)
    requires
        seeds@.len() % 5 == 0,
    ensures
        states@ == fresh_states(seeds@),
{
    let mut states: Vec<u32> = Vec::new();
    let count = seeds.len();
    let trials = count / SEED_WORDS;
    let mut trial: usize = 0;
    while trial < trials
        invariant
            count == seeds@.len(),
            count % 5 == 0,
            trials == seeds@.len() / 5,
            trial <= trials,
            states@ == fresh_states(seeds@.take(5 * trial as int)),
        decreases trials - trial,
    {
        let mut word: usize = 0;
        let ghost before = states@;
        while word < STATE_WORDS
            invariant
                count == seeds@.len(),
                trials == seeds@.len() / 5,
                trial < trials,
                word <= STATE_WORDS,
                before == fresh_states(seeds@.take(5 * trial as int)),
                states@.len() == 17 * trial + word,
                forall|i: int| 0 <= i < 17 * trial ==> #[trigger] states@[i] == before[i],
                forall|i: int|
                    17 * trial <= i < 17 * trial + word ==> #[trigger] states@[i]
                        == fresh_states(seeds@.take(5 * trial + 5))[i],
            decreases STATE_WORDS - word,
        {
            let value = if word < SEED_WORDS {
                seeds[trial * SEED_WORDS + word]
            } else if word == STATE_WORDS - 1 {
                NOT_BEGUN
            } else {
                0
            };
            states.push(value);
            word += 1;
        }
        trial += 1;
        assert forall|i: int| 0 <= i < 17 * trial implies #[trigger] states@[i] == fresh_states(
            seeds@.take(5 * trial as int),
        )[i] by {
            if i < 17 * (trial - 1) {
                assert(states@[i] == before[i]);
            }
        }
        assert(states@ =~= fresh_states(seeds@.take(5 * trial as int)));
    }
    assert(seeds@.take(5 * trial as int) =~= seeds@);
    states
}

/// A seed is read back from its words.
pub proof fn law_seed_from_its_words(hash: state::Hash)
    ensures
        hash_of_words(seed_words(seq![hash])) == hash,
{
    let flat = seed_words(seq![hash]);
    let bytes = Seq::new(20, |i: int| words::be_bytes(flat[i / 4] as nat)[i % 4]);
    assert forall|i: int| 0 <= i < 20 implies #[trigger] bytes[i] == hash@[i] by {
        let w = i / 4;
        words::law_bytes_of_their_word(
            hash@[4 * w],
            hash@[4 * w + 1],
            hash@[4 * w + 2],
            hash@[4 * w + 3],
        );
        assert(flat[w] == hash_word(hash, w));
    }
    state::lemma_hash_of(bytes);
    assert(bytes =~= hash@);
    state::lemma_same_bytes(state::hash_of(bytes), hash);
}

/// The status of trial `k`.
pub open spec fn trial_status(results: Seq<u32>, k: int) -> u32 {
    results[8 * k + 7]
}

/// The cycle in the result of trial `k`.
pub open spec fn trial_cycle(results: Seq<u32>, k: int) -> sample::Cycle {
    (
        hash_of_words(results.subrange(8 * k, 8 * k + 5)),
        (results[8 * k + 5] + results[8 * k + 6] * 0x1_0000_0000) as u128,
    )
}

/// How many of the first `n` trials have ended.
pub open spec fn ended(results: Seq<u32>, n: nat) -> nat
    decreases n,
{
    if n == 0 {
        0
    } else {
        ended(results, (n - 1) as nat) + (if trial_status(results, n - 1) != 0 {
            1nat
        } else {
            0nat
        })
    }
}

/// The last of the improvements, or what was best before them.
pub open spec fn best_after(
    best: Option<sample::Cycle>,
    improvements: Seq<sample::Cycle>,
) -> Option<sample::Cycle> {
    if improvements.len() == 0 {
        best
    } else {
        Some(improvements.last())
    }
}

/// The cycles that the first `n` trials found, each shorter than what was best before it.
pub open spec fn batch_improvements(
    best: Option<sample::Cycle>,
    results: Seq<u32>,
    n: nat,
) -> Seq<sample::Cycle>
    decreases n,
{
    if n == 0 {
        Seq::empty()
    } else {
        let before = batch_improvements(best, results, (n - 1) as nat);
        let current = best_after(best, before);
        let cycle = trial_cycle(results, n - 1);
        if trial_status(results, n - 1) == 1 && (current is None || cycle.1 < current->Some_0.1) {
            before.push(cycle)
        } else {
            before
        }
    }
}

/// The number of items in the batch that begins at `start`, out of `total`.
pub open spec fn batch_at(total: int, start: int, batch_size: int) -> int {
    if total - start < batch_size {
        total - start
    } else {
        batch_size
    }
}

/// A search on the GPU: its limits, how far it is, and the best cycle so far.
#[derive(Clone, Copy)]
pub struct GpuSearch {
    /// The number of steps in which a cycle must be detected.
    pub max: u64,
    /// The length that a cycle must be shorter than.
    pub cycle_limit: u64,
    /// The best cycle so far.
    pub best: Option<sample::Cycle>,
    /// The number of seeds.
    pub seed_count: usize,
    /// The number of seeds in one batch.
    pub batch_size: usize,
    /// Where the batch that is running or the one to come begins.
    pub start: usize,
    /// The number of seeds in the batch that is running, or zero where none is.
    pub running: usize,
}

/// What a search on the GPU has to do next.
#[derive(Clone, Copy, Debug, PartialEq, Eq)]
pub enum GpuAction {
    /// Upload the seeds of the next batch and the states of its trials.
    Load {
        /// Where the batch begins.
        start: usize,
        /// The number of its seeds.
        len: usize,
    },
    /// Run the kernel once, and read the results.
    Dispatch,
    /// Leave the batch that is running.
    Leave,
    /// End with the best cycle so far.
    Finish,
}

/// What a search does next, and what becomes of it. Between two batches it ends where no
/// seeds are left or the time is up, and else takes the next batch. A batch runs until the
/// time is up.
pub open spec fn decided(search: GpuSearch, expired: bool) -> (GpuSearch, GpuAction) {
    if search.running == 0 {
        if search.start >= search.seed_count || expired {
            (search, GpuAction::Finish)
        } else {
            let len = batch_at(
                search.seed_count as int,
                search.start as int,
                search.batch_size as int,
            ) as usize;
            (
                GpuSearch { running: len, ..search },
                GpuAction::Load { start: search.start, len },
            )
        }
    } else if expired {
        (
            GpuSearch { start: (search.start + search.running) as usize, running: 0, ..search },
            GpuAction::Leave,
        )
    } else {
        (search, GpuAction::Dispatch)
    }
}

/// What becomes of a search that has read some results: the last improvement is the best
/// cycle and its length the limit, and the batch is left where all of its trials have ended.
pub open spec fn absorbed(search: GpuSearch, results: Seq<u32>) -> GpuSearch {
    let trials = results.len() / 8;
    let found = batch_improvements(search.best, results, trials);
    let done = search.running > 0 && ended(results, trials) == search.running;
    GpuSearch {
        best: best_after(search.best, found),
        cycle_limit: if found.len() == 0 {
            search.cycle_limit
        } else {
            found.last().1 as u64
        },
        start: if done {
            (search.start + search.running) as usize
        } else {
            search.start
        },
        running: if done {
            0
        } else {
            search.running
        },
        ..search
    }
}

impl GpuSearch {
    /// The batches are not empty, the one that is running is the one that begins where the
    /// search is, and once there is a best cycle its length is the limit.
    pub open spec fn well_formed(&self) -> bool {
        &&& self.batch_size > 0
        &&& self.best is Some ==> self.cycle_limit == self.best->Some_0.1
        &&& self.start <= self.seed_count
        &&& self.running > 0 ==> self.running == batch_at(
            self.seed_count as int,
            self.start as int,
            self.batch_size as int,
        )
    }

    /// A search that has found nothing yet.
    ///
    /// The kernels count in 64 bits and number the trials of a dispatch in 32 bits.
    pub fn new(
        max: u128,
        max_cycle_length: Option<u128>,
        seed_count: usize,
        batch_size: usize,
    ) -> (search: Result<GpuSearch, String>)
        ensures
            match search {
                Ok(search) => {
                    &&& batch_size > 0 ==> search.well_formed()
                    &&& search.seed_count == seed_count && search.batch_size == batch_size
                    &&& search.start == 0 && search.running == 0
                    &&& max <= u64::MAX
                    &&& max_cycle_length is Some ==> max_cycle_length->Some_0 <= u64::MAX
                    &&& seed_count <= u32::MAX && batch_size <= u32::MAX
                    &&& search.max == max
                    &&& search.cycle_limit == (match max_cycle_length {
                        Some(length) => length,
                        None => u64::MAX as u128,
                    })
                    &&& search.best is None
                },
                Err(message) => if max > u64::MAX {
                    message@ == "CUDA search supports maximum lengths up to 2^64 - 1"@
                } else if max_cycle_length is Some && max_cycle_length->Some_0 > u64::MAX {
                    message@ == "CUDA cycle-length cutoff supports values up to 2^64 - 1"@
                } else {
                    &&& seed_count > u32::MAX || batch_size > u32::MAX
                    &&& message@ == "CUDA search supports at most 2^32 - 1 trials per dispatch"@
                },
            },
    {
        if max > u64::MAX as u128 {
            return Err("CUDA search supports maximum lengths up to 2^64 - 1".to_string());
        }
        let cycle_limit = match max_cycle_length {
            Some(length) => {
                if length > u64::MAX as u128 {
                    return Err("CUDA cycle-length cutoff supports values up to 2^64 - 1".to_string());
                }
                length as u64
            },
            None => u64::MAX,
        };
        if seed_count > u32::MAX as usize || batch_size > u32::MAX as usize {
            return Err("CUDA search supports at most 2^32 - 1 trials per dispatch".to_string());
        }
        Ok(
            GpuSearch {
                max: max as u64,
                cycle_limit,
                best: None,
                seed_count,
                batch_size,
                start: 0,
                running: 0,
            },
        )
    }

    /// Decides what to do next, told whether the time is up.
    pub fn decide(&mut self, expired: bool) -> (action: GpuAction)
        requires
            old(self).well_formed(),
        ensures
            final(self).well_formed(),
            (*final(self), action) == decided(*old(self), expired),
    {
        if self.running == 0 {
            if self.start >= self.seed_count || expired {
                GpuAction::Finish
            } else {
                let len = batch_len(self.seed_count, self.start, self.batch_size);
                self.running = len;
                GpuAction::Load { start: self.start, len }
            }
        } else if expired {
            self.leave_batch();
            GpuAction::Leave
        } else {
            GpuAction::Dispatch
        }
    }

    fn leave_batch(&mut self)
        requires
            old(self).well_formed(),
            old(self).running > 0,
        ensures
            final(self).well_formed(),
            *final(self) == (GpuSearch {
                start: (old(self).start + old(self).running) as usize,
                running: 0,
                ..*old(self)
            }),
    {
        self.start = self.start + self.running;
        self.running = 0;
    }

    /// Reads the results of one dispatch, and returns the cycles in them that are shorter
    /// than all before them.
    pub fn absorb(&mut self, results: &[u32]) -> (improvements: Vec<sample::Cycle>)
        requires
            old(self).well_formed(),
        ensures
            final(self).well_formed(),
            *final(self) == absorbed(*old(self), results@),
            improvements@ == batch_improvements(old(self).best, results@, results@.len() / 8),
    {
        let mut completed: usize = 0;
        let mut improvements: Vec<sample::Cycle> = Vec::new();
        let count = results.len();
        let trials = count / RESULT_WORDS;
        let mut trial: usize = 0;
        let ghost before = *self;
        while trial < trials
            invariant
                count == results@.len(),
                trials == results@.len() / 8,
                trial <= trials,
                completed <= trial,
                completed == ended(results@, trial as nat),
                improvements@ == batch_improvements(before.best, results@, trial as nat),
                self.best == best_after(before.best, improvements@),
                self.cycle_limit == (if improvements@.len() == 0 {
                    before.cycle_limit as int
                } else {
                    improvements@.last().1 as int
                }),
                *self == (GpuSearch { best: self.best, cycle_limit: self.cycle_limit, ..before }),
                before.well_formed(),
            decreases trials - trial,
        {
            let at = trial * RESULT_WORDS;
            let status = results[at + 7];
            if status != 0 {
                completed += 1;
            }
            if status == 1 {
                let cycle = read_cycle(results, trial);
                let better = match self.best {
                    Some((_, best_length)) => cycle.1 < best_length,
                    None => true,
                };
                if better {
                    improvements.push(cycle);
                    self.best = Some(cycle);
                    self.cycle_limit = cycle.1 as u64;
                }
            }
            trial += 1;
        }
        if self.running > 0 && completed == self.running {
            self.leave_batch();
        }
        improvements
    }

    /// The limits as the kernels take them: the low and the high word of each.
    pub fn limit_words(&self) -> (limits: [u32; 4])
        ensures
            limits@ == seq![
                (self.max % 0x1_0000_0000) as u32,
                (self.max / 0x1_0000_0000) as u32,
                (self.cycle_limit % 0x1_0000_0000) as u32,
                (self.cycle_limit / 0x1_0000_0000) as u32,
            ],
    {
        let limits = [
            (self.max % 0x1_0000_0000) as u32,
            (self.max / 0x1_0000_0000) as u32,
            (self.cycle_limit % 0x1_0000_0000) as u32,
            (self.cycle_limit / 0x1_0000_0000) as u32,
        ];
        assert(limits@ =~= seq![
            (self.max % 0x1_0000_0000) as u32,
            (self.max / 0x1_0000_0000) as u32,
            (self.cycle_limit % 0x1_0000_0000) as u32,
            (self.cycle_limit / 0x1_0000_0000) as u32,
        ]);
        limits
    }
}

/// Reads the cycle in the result of a trial.
pub fn read_cycle(results: &[u32], trial: usize) -> (cycle: sample::Cycle)
    requires
        trial < results@.len() / 8,
    ensures
        cycle == trial_cycle(results@, trial as int),
{
    let count = results.len();
    assert(trial < count / 8);
    let at = trial * RESULT_WORDS;
    let ghost five = results@.subrange(at as int, at + 5);
    let ghost bytes = Seq::new(20, |i: int| words::be_bytes(five[i / 4] as nat)[i % 4]);
    let mut hash: state::Hash = [0u8;20];
    let mut word: usize = 0;
    while word < SEED_WORDS
        invariant
            at == 8 * trial,
            trial < results@.len() / 8,
            word <= SEED_WORDS,
            five == results@.subrange(at as int, at + 5),
            bytes == Seq::new(20, |i: int| words::be_bytes(five[i / 4] as nat)[i % 4]),
            forall|i: int| 0 <= i < 4 * word ==> #[trigger] hash@[i] == bytes[i],
        decreases SEED_WORDS - word,
    {
        let four = word_to_bytes(results[at + word]);
        assert(five[word as int] == results@[at + word]);
        hash[4 * word] = four[0];
        hash[4 * word + 1] = four[1];
        hash[4 * word + 2] = four[2];
        hash[4 * word + 3] = four[3];
        word += 1;
    }
    proof {
        assert(hash@ =~= bytes);
        state::lemma_hash_of(bytes);
        state::lemma_same_bytes(hash, state::hash_of(bytes));
    }
    let length = (results[at + 5] as u128) + (results[at + 6] as u128) * 0x1_0000_0000;
    (hash, length)
}

/// No cycle that the first `n` trials found is shorter than the best one after them, and the
/// best one before them is not either.
proof fn lemma_best_after_is_least(best: Option<sample::Cycle>, results: Seq<u32>, n: nat)
    ensures
        ({
            let after = best_after(best, batch_improvements(best, results, n));
            &&& best is Some ==> after is Some && after->Some_0.1 <= best->Some_0.1
            &&& forall|k: int|
                0 <= k < n && #[trigger] trial_status(results, k) == 1 ==> after is Some
                    && after->Some_0.1 <= trial_cycle(results, k).1
        }),
    decreases n,
{
    if n > 0 {
        lemma_best_after_is_least(best, results, (n - 1) as nat);
    }
}

/// The best cycle after some results is the shortest of what was best and what they hold.
pub proof fn law_absorbing_keeps_the_shortest(
    best: Option<sample::Cycle>,
    results: Seq<u32>,
    n: nat,
    k: int,
)
    ensures
        ({
            let after = best_after(best, batch_improvements(best, results, n));
            &&& best is Some ==> after is Some && after->Some_0.1 <= best->Some_0.1
            &&& 0 <= k < n && trial_status(results, k) == 1 ==> after is Some && after->Some_0.1
                <= trial_cycle(results, k).1
            &&& after == best || exists|j: int|
                0 <= j < n && trial_status(results, j) == 1 && after == Some(
                    #[trigger] trial_cycle(results, j),
                )
        }),
    decreases n,
{
    lemma_best_after_is_least(best, results, n);
    if n > 0 {
        law_absorbing_keeps_the_shortest(best, results, (n - 1) as nat, k);
        let after = best_after(best, batch_improvements(best, results, n));
        let before = best_after(best, batch_improvements(best, results, (n - 1) as nat));
        if after != before {
            assert(after == Some(trial_cycle(results, n - 1)));
        }
    }
}

/// Results that have been read once hold no improvement when they are read again.
pub proof fn law_absorbing_again_changes_nothing(
    best: Option<sample::Cycle>,
    results: Seq<u32>,
    n: nat,
)
    ensures
        batch_improvements(
            best_after(best, batch_improvements(best, results, n)),
            results,
            n,
        ) == Seq::<sample::Cycle>::empty(),
{
    lemma_best_after_is_least(best, results, n);
    lemma_nothing_shorter(best_after(best, batch_improvements(best, results, n)), results, n);
}

proof fn lemma_nothing_shorter(best: Option<sample::Cycle>, results: Seq<u32>, n: nat)
    requires
        forall|k: int|
            0 <= k < n && #[trigger] trial_status(results, k) == 1 ==> best is Some
                && best->Some_0.1 <= trial_cycle(results, k).1,
    ensures
        batch_improvements(best, results, n) == Seq::<sample::Cycle>::empty(),
    decreases n,
{
    if n > 0 {
        lemma_nothing_shorter(best, results, (n - 1) as nat);
        assert(trial_status(results, n - 1) == trial_status(results, n - 1));
    }
}

/// All of the first `n` trials have ended exactly where that many have.
pub proof fn law_all_ended(results: Seq<u32>, n: nat)
    ensures
        ended(results, n) <= n,
        ended(results, n) == n <==> forall|k: int|
            0 <= k < n ==> #[trigger] trial_status(results, k) != 0,
    decreases n,
{
    if n > 0 {
        law_all_ended(results, (n - 1) as nat);
        assert(ended(results, n) == n ==> trial_status(results, n - 1) != 0);
    }
}

/// A search takes its batches one after the other: it never goes back, a batch that is loaded
/// begins where the search is, and one that is left is behind it.
pub proof fn law_batches_follow_each_other(search: GpuSearch, expired: bool, results: Seq<u32>)
    requires
        search.well_formed(),
    ensures
        ({
            let (next, action) = decided(search, expired);
            &&& next.well_formed()
            &&& next.start == if action == GpuAction::Leave {
                search.start + search.running
            } else {
                search.start as int
            }
            &&& next.start + next.running <= next.seed_count
            &&& next.best == search.best
            &&& action matches GpuAction::Load { start, len } ==> {
                &&& start == search.start
                &&& 0 < len <= search.batch_size
                &&& start + len <= search.seed_count
            }
        }),
        ({
            let next = absorbed(search, results);
            &&& next.start == search.start || next.start == search.start + search.running
            &&& next.start + next.running <= next.seed_count
        }),
{
}

/// A search that is given time ends only once every batch has been left.
pub proof fn law_search_ends_after_all_seeds(search: GpuSearch)
    requires
        search.well_formed(),
    ensures
        decided(search, false).1 == GpuAction::Finish <==> search.start == search.seed_count
            && search.running == 0,
{
}

/// The shape of a kernel launch.
pub struct LaunchConfig {
    /// The blocks of the grid.
    pub grid_dim: (u32, u32, u32),
    /// The threads of a block.
    pub block_dim: (u32, u32, u32),
    /// The bytes of shared memory.
    pub shared_mem_bytes: u32,
}

/// The launch with one thread for each trial, and as few blocks as hold them. The trials are
/// counted in 32 bits.
pub fn cuda_launch_config(trials: usize, block_size: u32) -> (config: LaunchConfig)
    requires
        block_size > 0,
        (trials as u32) + block_size - 1 <= u32::MAX,
    ensures
        config.block_dim == (block_size, 1u32, 1u32),
        config.grid_dim.1 == 1 && config.grid_dim.2 == 1,
        config.grid_dim.0 * block_size >= trials as u32,
        config.grid_dim.0 * block_size < (trials as u32) + block_size,
        config.shared_mem_bytes == 0,
{
    let threads = (trials as u32) + (block_size - 1);
    let blocks = threads / block_size;
    proof {
        vstd::arithmetic::div_mod::lemma_fundamental_div_mod(threads as int, block_size as int);
        vstd::arithmetic::div_mod::lemma_mod_bound(threads as int, block_size as int);
        assert(blocks * block_size == block_size * blocks) by (nonlinear_arith);
    }
    LaunchConfig {
        grid_dim: (blocks, 1, 1),
        block_dim: (block_size, 1, 1),
        shared_mem_bytes: 0,
    }
}

/// The number of items in the batch that begins at `start`, out of `total`.
pub fn batch_len(total: usize, start: usize, batch_size: usize) -> (len: usize)
    requires
        start <= total,
    ensures
        len == batch_at(total as int, start as int, batch_size as int),
        start < total && batch_size > 0 ==> len > 0,
        start + len <= total,
{
    if total - start < batch_size {
        total - start
    } else {
        batch_size
    }
}

/// The words of seed `i` hold its bytes in order: word `w` holds the four from `4 w` on, the
/// most significant one first.
pub proof fn law_seed_words_hold_bytes(seeds: Seq<state::Hash>, i: int, w: int)
    requires
        0 <= i < seeds.len(),
        0 <= w < 5,
    ensures
        seed_words(seeds).len() == 5 * seeds.len(),
        words::be_bytes(seed_words(seeds)[5 * i + w] as nat) == seeds[i]@.subrange(
            4 * w,
            4 * w + 4,
        ),
{
    let bytes = seeds[i]@;
    let at = 5 * i + w;
    assert(at / 5 == i && at % 5 == w);
    words::law_bytes_of_their_word(
        bytes[4 * w],
        bytes[4 * w + 1],
        bytes[4 * w + 2],
        bytes[4 * w + 3],
    );
    assert(bytes.subrange(4 * w, 4 * w + 4) =~= seq![
        bytes[4 * w],
        bytes[4 * w + 1],
        bytes[4 * w + 2],
        bytes[4 * w + 3],
    ]);
}

/// The words of some seeds are those of the first ones and then those of the others.
pub proof fn law_seed_words_of_parts(first: Seq<state::Hash>, rest: Seq<state::Hash>)
    ensures
        seed_words(first + rest) == seed_words(first) + seed_words(rest),
{
    let all = first + rest;
    let f = 5 * first.len() as int;
    assert forall|i: int| 0 <= i < 5 * all.len() implies seed_words(all)[i] == (seed_words(first)
        + seed_words(rest))[i] by {
        if i < f {
            assert(all[i / 5] == first[i / 5]);
        } else {
            assert((i - f) / 5 == i / 5 - first.len() && (i - f) % 5 == i % 5);
            assert(all[i / 5] == rest[(i - f) / 5]);
        }
    }
    assert(seed_words(all) =~= seed_words(first) + seed_words(rest));
}

/// The state that five words make up holds their bytes in order, the most significant one of
/// each first.
pub proof fn law_state_of_words_holds_bytes(five: Seq<u32>, w: int)
    requires
        five.len() == 5,
        0 <= w < 5,
    ensures
        hash_of_words(five)@.subrange(4 * w, 4 * w + 4) == words::be_bytes(five[w] as nat),
{
    let bytes = Seq::new(20, |i: int| words::be_bytes(five[i / 4] as nat)[i % 4]);
    state::lemma_hash_of(bytes);
    assert forall|b: int| 0 <= b < 4 implies bytes.subrange(4 * w, 4 * w + 4)[b]
        == words::be_bytes(five[w] as nat)[b] by {
        assert((4 * w + b) / 4 == w && (4 * w + b) % 4 == b);
    }
    assert(bytes.subrange(4 * w, 4 * w + 4) =~= words::be_bytes(five[w] as nat));
}

/// Words that were made from a state make it up again.
pub proof fn law_words_make_up_the_state(hash: state::Hash, five: Seq<u32>)
    requires
        five.len() == 5,
        forall|w: int|
            0 <= w < 5 ==> words::be_bytes((#[trigger] five[w]) as nat) == hash@.subrange(
                4 * w,
                4 * w + 4,
            ),
    ensures
        hash_of_words(five) == hash,
        five == seed_words(seq![hash]),
{
    let made = hash_of_words(five);
    assert forall|i: int| 0 <= i < 20 implies #[trigger] made@[i] == hash@[i] by {
        let w = i / 4;
        law_state_of_words_holds_bytes(five, w);
        assert(words::be_bytes(five[w] as nat) == hash@.subrange(4 * w, 4 * w + 4));
        assert(made@.subrange(4 * w, 4 * w + 4)[i % 4] == made@[i]);
        assert(hash@.subrange(4 * w, 4 * w + 4)[i % 4] == hash@[i]);
    }
    assert(made@ =~= hash@);
    state::lemma_same_bytes(made, hash);
    let flat = seed_words(seq![hash]);
    assert forall|w: int| 0 <= w < 5 implies five[w] == flat[w] by {
        law_seed_words_hold_bytes(seq![hash], 0, w);
        assert(words::be_bytes(five[w] as nat) == words::be_bytes(flat[w] as nat));
        words::law_word_from_its_bytes(five[w]);
        words::law_word_from_its_bytes(flat[w]);
    }
    assert(five =~= flat);
}

/// The state of a trial that has not begun is its own seed, eleven zeros, and the mark that it
/// has not begun. There is one for each seed, in the order of the seeds.
pub proof fn law_trials_begin_with_their_seeds(seeds: Seq<state::Hash>, i: int)
    requires
        0 <= i < seeds.len(),
    ensures
        ({
            let states = fresh_states(seed_words(seeds));
            &&& states.len() == 17 * seeds.len()
            &&& hash_of_words(states.subrange(17 * i, 17 * i + 5)) == seeds[i]
            &&& forall|w: int| 5 <= w < 16 ==> #[trigger] states[17 * i + w] == 0
            &&& states[17 * i + 16] == 4
        }),
{
    let flat = seed_words(seeds);
    let states = fresh_states(flat);
    let five = states.subrange(17 * i, 17 * i + 5);
    assert forall|w: int| 0 <= w < 5 implies words::be_bytes((#[trigger] five[w]) as nat)
        == seeds[i]@.subrange(4 * w, 4 * w + 4) by {
        let at = 17 * i + w;
        assert(at / 17 == i && at % 17 == w);
        law_seed_words_hold_bytes(seeds, i, w);
    }
    law_words_make_up_the_state(seeds[i], five);
    assert forall|w: int| 5 <= w < 16 implies #[trigger] states[17 * i + w] == 0 by {
        let at = 17 * i + w;
        assert(at / 17 == i && at % 17 == w);
    }
    let last = 17 * i + 16;
    assert(last / 17 == i && last % 17 == 16);
}

/// A trial is read from its own eight words and from nothing else: if they are the words of a
/// state, the low and the high word of a length and a status, then that is its cycle and its
/// status.
pub proof fn law_trial_is_read_from_its_words(
    results: Seq<u32>,
    k: int,
    hash: state::Hash,
    length: u64,
    status: u32,
)
    requires
        0 <= k,
        8 * k + 8 <= results.len(),
        results.subrange(8 * k, 8 * k + 8) == seed_words(seq![hash]) + seq![
            (length % 0x1_0000_0000) as u32,
            (length / 0x1_0000_0000) as u32,
            status,
        ],
    ensures
        trial_cycle(results, k) == (hash, length as u128),
        trial_status(results, k) == status,
{
    let own = results.subrange(8 * k, 8 * k + 8);
    let five = seed_words(seq![hash]);
    law_seed_from_its_words(hash);
    assert(results.subrange(8 * k, 8 * k + 5) =~= five) by {
        assert forall|w: int| 0 <= w < 5 implies results[8 * k + w] == five[w] by {
            assert(own[w] == results[8 * k + w]);
        }
    }
    assert(own[5] == results[8 * k + 5]);
    assert(own[6] == results[8 * k + 6]);
    assert(own[7] == results[8 * k + 7]);
}

/// Trials with the same words have the same cycle and the same status, wherever they stand.
pub proof fn law_same_words_same_trial(a: Seq<u32>, i: int, b: Seq<u32>, j: int)
    requires
        0 <= i,
        8 * i + 8 <= a.len(),
        0 <= j,
        8 * j + 8 <= b.len(),
        a.subrange(8 * i, 8 * i + 8) == b.subrange(8 * j, 8 * j + 8),
    ensures
        trial_cycle(a, i) == trial_cycle(b, j),
        trial_status(a, i) == trial_status(b, j),
{
    let x = a.subrange(8 * i, 8 * i + 8);
    let y = b.subrange(8 * j, 8 * j + 8);
    assert(a.subrange(8 * i, 8 * i + 5) =~= x.take(5));
    assert(b.subrange(8 * j, 8 * j + 5) =~= y.take(5));
    assert(x[5] == a[8 * i + 5] && x[6] == a[8 * i + 6] && x[7] == a[8 * i + 7]);
    assert(y[5] == b[8 * j + 5] && y[6] == b[8 * j + 6] && y[7] == b[8 * j + 7]);
}

/// A trial adds its cycle to the improvements exactly where it found one that is shorter than
/// the best one at first and than all that the trials before it found.
pub proof fn law_shorter_trials_are_improvements(
    best: Option<sample::Cycle>,
    results: Seq<u32>,
    n: nat,
)
    requires
        8 * n + 8 <= results.len(),
    ensures
        ({
            let cycle = trial_cycle(results, n as int);
            let shorter = {
                &&& results[8 * n as int + 7] == 1
                &&& best is Some ==> cycle.1 < best->Some_0.1
                &&& forall|j: int|
                    0 <= j < n && results[8 * j + 7] == 1 ==> cycle.1 < (#[trigger] trial_cycle(
                        results,
                        j,
                    )).1
            };
            batch_improvements(best, results, n + 1) == if shorter {
                batch_improvements(best, results, n).push(cycle)
            } else {
                batch_improvements(best, results, n)
            }
        }),
        batch_improvements(best, results, 0) == Seq::<sample::Cycle>::empty(),
{
    let cycle = trial_cycle(results, n as int);
    let before = batch_improvements(best, results, n);
    let current = best_after(best, before);
    lemma_best_after_is_least(best, results, n);
    law_absorbing_keeps_the_shortest(best, results, n, 0);
    assert forall|j: int| 0 <= j < n && results[8 * j + 7] == 1 implies current is Some
        && current->Some_0.1 <= (#[trigger] trial_cycle(results, j)).1 by {
        assert(trial_status(results, j) == 1);
    }
    if current is Some && cycle.1 >= current->Some_0.1 && current != best {
        let j = choose|j: int|
            0 <= j < n && trial_status(results, j) == 1 && current == Some(
                #[trigger] trial_cycle(results, j),
            );
        assert(results[8 * j + 7] == 1);
    }
    assert(batch_improvements(best, results, (n + 1) as nat) =~= if trial_status(
        results,
        n as int,
    ) == 1 && (current is None || cycle.1 < current->Some_0.1) {
        before.push(cycle)
    } else {
        before
    });
}

/// What reading the results of a running batch does to a search: the last improvement is its
/// best cycle and the limit, the batch is left exactly where no trial is running any more, and
/// nothing else changes.
pub proof fn law_absorbing(search: GpuSearch, results: Seq<u32>)
    requires
        search.well_formed(),
        search.running > 0,
        results.len() == 8 * search.running,
    ensures
        ({
            let after = absorbed(search, results);
            let found = batch_improvements(search.best, results, search.running as nat);
            let all_ended = forall|k: int|
                0 <= k < search.running ==> #[trigger] results[8 * k + 7] != 0;
            &&& found.len() == 0 ==> after.best == search.best && after.cycle_limit
                == search.cycle_limit
            &&& found.len() > 0 ==> after.best == Some(found.last()) && after.cycle_limit
                == found.last().1
            &&& all_ended ==> after.running == 0 && after.start == search.start + search.running
            &&& !all_ended ==> after.running == search.running && after.start == search.start
            &&& after.max == search.max && after.seed_count == search.seed_count
                && after.batch_size == search.batch_size
        }),
{
    let n = search.running as nat;
    let after = absorbed(search, results);
    let found = batch_improvements(search.best, results, n);
    assert(results.len() / 8 == n);
    law_all_ended(results, n);
    law_absorbing_keeps_the_shortest(search.best, results, n, 0);
    if forall|k: int| 0 <= k < search.running ==> #[trigger] results[8 * k + 7] != 0 {
        assert forall|k: int| 0 <= k < n implies #[trigger] trial_status(results, k) != 0 by {
            assert(results[8 * k + 7] != 0);
        }
    } else {
        let k = choose|k: int| 0 <= k < search.running && #[trigger] results[8 * k + 7] == 0;
        assert(trial_status(results, k) == 0);
    }
    assert(search.start + search.running <= search.seed_count);
    if found.len() > 0 && after.best != search.best {
        let j = choose|j: int|
            0 <= j < n && trial_status(results, j) == 1 && after.best == Some(
                #[trigger] trial_cycle(results, j),
            );
        assert(found.last() == trial_cycle(results, j));
    }
}

/// A batch is as large as a batch may be, and as there are items left.
pub proof fn law_batches_are_full(total: int, start: int, batch_size: int)
    ensures
        batch_at(total, start, batch_size) <= batch_size,
        batch_at(total, start, batch_size) <= total - start,
        batch_at(total, start, batch_size) == batch_size || batch_at(total, start, batch_size)
            == total - start,
{
}

/// What a search does next: it ends between two batches where no seeds are left or the time is
/// up, leaves a batch that is running where the time is up, and else loads the next batch or
/// goes on with the one that is running. Only what is running and where the search is change.
pub proof fn law_decisions(search: GpuSearch, expired: bool)
    requires
        search.well_formed(),
    ensures
        ({
            let (next, action) = decided(search, expired);
            let left = search.seed_count - search.start;
            &&& action is Finish <==> search.running == 0 && (left == 0 || expired)
            &&& action is Leave <==> search.running > 0 && expired
            &&& action is Dispatch <==> search.running > 0 && !expired
            &&& action matches GpuAction::Load { start, len } ==> {
                &&& start == search.start
                &&& len == next.running
                &&& len == search.batch_size || len == left
                &&& len <= search.batch_size && len <= left
            }
            &&& action is Finish || action is Dispatch ==> next == search
            &&& action is Leave ==> next.running == 0 && next.start == search.start
                + search.running
            &&& action is Load ==> next.start == search.start
            &&& next.best == search.best && next.cycle_limit == search.cycle_limit
            &&& next.max == search.max && next.seed_count == search.seed_count
                && next.batch_size == search.batch_size
        }),
{
}

} // verus!
