//! A measurement of the GPU: its limits, its batches, and what it folds from their results.

use crate::gpu;
use crate::gpu::{batch_len, push_words};
use crate::state;
use crate::state::fresh_draw;
use vstd::prelude::*;

verus! {

/// The limits of a benchmark: the kernels number the trials of a dispatch in 32 bits.
pub fn check_benchmark(trials: usize, batch_size: usize, iterations: u32) -> (checked: Result<
    (),
    String,
>)
    ensures
        match checked {
            Ok(_) => trials <= u32::MAX && batch_size <= u32::MAX && iterations > 0,
            Err(message) => if trials > u32::MAX || batch_size > u32::MAX {
                message@ == "CUDA benchmark supports at most 2^32 - 1 trials per dispatch"@
            } else {
                &&& iterations == 0
                &&& message@ == "GPU benchmark iterations must be greater than zero"@
            },
        },
{
    if trials > u32::MAX as usize || batch_size > u32::MAX as usize {
        return Err("CUDA benchmark supports at most 2^32 - 1 trials per dispatch".to_string());
    }
    if iterations == 0 {
        return Err("GPU benchmark iterations must be greater than zero".to_string());
    }
    Ok(())
}

/// The exclusive or of all words and `start`.
pub open spec fn xor_all(start: u32, values: Seq<u32>) -> u32
    decreases values.len(),
{
    if values.len() == 0 {
        start
    } else {
        xor_all(start, values.drop_last()) ^ values.last()
    }
}

/// The exclusive or of all results of a benchmark batch and of those before it.
pub fn fold_sink(sink: u32, results: &[u32]) -> (folded: u32)
    ensures
        folded == xor_all(sink, results@),
{
    let mut folded = sink;
    let mut index: usize = 0;
    while index < results.len()
        invariant
            index <= results@.len(),
            folded == xor_all(sink, results@.take(index as int)),
        decreases results@.len() - index,
    {
        folded = folded ^ results[index];
        index += 1;
        assert(results@.take(index as int).drop_last() =~= results@.take(index - 1));
    }
    assert(results@.take(index as int) =~= results@);
    folded
}

/// Batches fold like the whole: folding some results and then others is folding all of them.
pub proof fn law_fold_of_parts(start: u32, first: Seq<u32>, rest: Seq<u32>)
    ensures
        xor_all(start, first + rest) == xor_all(xor_all(start, first), rest),
    decreases rest.len(),
{
    if rest.len() == 0 {
        assert(first + rest =~= first);
    } else {
        law_fold_of_parts(start, first, rest.drop_last());
        assert((first + rest).drop_last() =~= first + rest.drop_last());
    }
}

/// A benchmark that has measured some of its trials.
#[derive(Clone, Copy)]
pub struct Benchmark {
    /// The number of trials.
    pub trials: usize,
    /// The number of trials in one batch.
    pub batch_size: usize,
    /// The number of trials measured.
    pub start: usize,
    /// The exclusive or of all results.
    pub sink: u32,
}

/// What becomes of a benchmark that has measured its next batch, with the given results.
pub open spec fn measured(benchmark: Benchmark, results: Seq<u32>) -> Benchmark {
    Benchmark {
        start: (benchmark.start + gpu::batch_at(
            benchmark.trials as int,
            benchmark.start as int,
            benchmark.batch_size as int,
        )) as usize,
        sink: xor_all(benchmark.sink, results),
        ..benchmark
    }
}

/// What becomes of a benchmark that has measured some batches, one after the other.
pub open spec fn measured_all(benchmark: Benchmark, batches: Seq<Seq<u32>>) -> Benchmark
    decreases batches.len(),
{
    if batches.len() == 0 {
        benchmark
    } else {
        measured(measured_all(benchmark, batches.drop_last()), batches.last())
    }
}

impl Benchmark {
    /// The batches are not empty, and no more trials are measured than there are.
    pub open spec fn well_formed(&self) -> bool {
        self.batch_size > 0 && self.start <= self.trials
    }

    /// A benchmark that has measured nothing yet.
    pub fn new(trials: usize, batch_size: usize) -> (benchmark: Benchmark)
        requires
            batch_size > 0,
        ensures
            benchmark.well_formed(),
            benchmark == (Benchmark { trials, batch_size, start: 0, sink: 0 }),
    {
        Benchmark { trials, batch_size, start: 0, sink: 0 }
    }

    /// Where the next batch begins and how many trials it has, or that none is left.
    pub fn next_batch(&self) -> (batch: Option<(usize, usize)>)
        requires
            self.well_formed(),
        ensures
            match batch {
                Some((start, len)) => {
                    &&& start == self.start
                    &&& len == gpu::batch_at(
                        self.trials as int,
                        self.start as int,
                        self.batch_size as int,
                    )
                    &&& 0 < len && start + len <= self.trials
                },
                None => self.start == self.trials,
            },
    {
        if self.start < self.trials {
            Some((self.start, batch_len(self.trials, self.start, self.batch_size)))
        } else {
            None
        }
    }

    /// Takes the results of the next batch.
    pub fn measure(&mut self, results: &[u32])
        requires
            old(self).well_formed(),
        ensures
            final(self).well_formed(),
            *final(self) == measured(*old(self), results@),
    {
        self.start = self.start + batch_len(self.trials, self.start, self.batch_size);
        self.sink = fold_sink(self.sink, results);
    }
}

/// What a benchmark folds from its batches is what it would fold from all results at once.
pub proof fn law_benchmark_folds_all(benchmark: Benchmark, batches: Seq<Seq<u32>>)
    ensures
        measured_all(benchmark, batches).sink == xor_all(benchmark.sink, batches.flatten()),
    decreases batches.len(),
{
    if batches.len() == 0 {
        assert(batches.flatten() =~= Seq::<u32>::empty());
    } else {
        let before = batches.drop_last();
        law_benchmark_folds_all(benchmark, before);
        assert(batches =~= before.push(batches.last()));
        assert(batches.flatten() == before.flatten() + batches.last()) by {
            before.lemma_flatten_push(batches.last());
        }
        law_fold_of_parts(benchmark.sink, before.flatten(), batches.last());
    }
}

/// Some batches measure as many trials as fit into them, or all.
pub proof fn law_benchmark_measures_all(benchmark: Benchmark, batches: Seq<Seq<u32>>)
    requires
        benchmark.well_formed(),
    ensures
        measured_all(benchmark, batches).well_formed(),
        measured_all(benchmark, batches).trials == benchmark.trials,
        measured_all(benchmark, batches).batch_size == benchmark.batch_size,
        ({
            let fit = benchmark.start + batches.len() * benchmark.batch_size;
            measured_all(benchmark, batches).start == if fit < benchmark.trials {
                fit
            } else {
                benchmark.trials as int
            }
        }),
    decreases batches.len(),
{
    if batches.len() > 0 {
        law_benchmark_measures_all(benchmark, batches.drop_last());
        let n = batches.len() as int;
        assert(n * benchmark.batch_size == (n - 1) * benchmark.batch_size + benchmark.batch_size)
            by (nonlinear_arith);
    } else {
        assert(batches.len() * benchmark.batch_size == 0) by (nonlinear_arith)
            requires
                batches.len() == 0,
        ;
    }
}

/// The number of hashes that a benchmark computes.
pub fn benchmark_hashes(trials: usize, iterations: u32) -> (total: u128)
    ensures
        total == trials * iterations,
{
    assert(trials * iterations <= u128::MAX) by (nonlinear_arith)
        requires
            trials <= 0xffff_ffff_ffff_ffff,
            iterations <= 0xffff_ffff,
    ;
    (trials as u128) * (iterations as u128)
}

/// Each of the states is drawn at random.
pub open spec fn all_drawn(seeds: Seq<state::Hash>) -> bool {
    forall|i: int| 0 <= i < seeds.len() ==> state::was_drawn(#[trigger] seeds[i])
}

/// Trial `i` has a draw of its own, and its seed is that draw.
pub open spec fn each_drawn(seeds: Seq<state::Hash>) -> bool {
    forall|i: int|
        0 <= i < seeds.len() ==> state::was_drawn_for(i as usize, #[trigger] seeds[i])
}

/// The words of random seeds, one for each trial of a benchmark.
pub fn random_seed_words(trials: usize) -> (drawn: Vec<u32>)
    ensures
        exists|seeds: Seq<state::Hash>|
            {
                &&& seeds.len() == trials
                &&& all_drawn(seeds)
                &&& each_drawn(seeds)
                &&& drawn@ == #[trigger] gpu::seed_words(seeds)
            },
{
    let mut drawn: Vec<u32> = Vec::new();
    let ghost mut seeds: Seq<state::Hash> = Seq::empty();
    let mut trial: usize = 0;
    assert(drawn@ =~= gpu::seed_words(seeds));
    while trial < trials
        invariant
            trial <= trials,
            seeds.len() == trial,
            all_drawn(seeds),
            each_drawn(seeds),
            drawn@ == gpu::seed_words(seeds),
        decreases trials - trial,
    {
        let seed = fresh_draw(trial);
        push_words(&mut drawn, &seed, Ghost(seeds));
        proof {
            seeds = seeds.push(seed);
        }
        trial += 1;
    }
    drawn
}

/// Every trial of a benchmark has a draw of its own: its five words are those of a state that
/// was drawn for this trial, in the order of the trials, and there are no others.
pub proof fn law_each_trial_has_its_draw(
    drawn: Seq<u32>,
    trials: usize,
    seeds: Seq<state::Hash>,
    i: usize,
)
    requires
        seeds.len() == trials,
        each_drawn(seeds),
        drawn == gpu::seed_words(seeds),
        i < trials,
    ensures
        drawn.len() == 5 * trials,
        call_ensures(state::draw_for, (i,), seeds[i as int]),
        gpu::hash_of_words(drawn.subrange(5 * i as int, 5 * i + 5)) == seeds[i as int],
{
    assert(state::was_drawn_for(i, seeds[i as int]));
    let five = drawn.subrange(5 * i as int, 5 * i + 5);
    assert forall|w: int| 0 <= w < 5 implies crate::words::be_bytes((#[trigger] five[w]) as nat)
        == seeds[i as int]@.subrange(4 * w, 4 * w + 4) by {
        gpu::law_seed_words_hold_bytes(seeds, i as int, w);
    }
    gpu::law_words_make_up_the_state(seeds[i as int], five);
}

/// One result is folded by one exclusive or, and no results leave the sink as it is.
pub proof fn law_fold_of_one(sink: u32, value: u32)
    ensures
        xor_all(sink, seq![value]) == sink ^ value,
        xor_all(sink, Seq::empty()) == sink,
{
    reveal_with_fuel(xor_all, 2);
    assert(seq![value].drop_last() =~= Seq::<u32>::empty());
}

} // verus!
