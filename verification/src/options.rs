//! The options of a search, and which of them go together.

use vstd::arithmetic::power2::is_pow2;
use vstd::prelude::*;

verus! {

/// The default number of steps in which a cycle must be detected.
pub const DEFAULT_MAX: u128 = 34359738368;

/// What to search, and how.
pub struct Options {
    /// The number of steps in which a cycle must be detected.
    pub max: u128,
    /// Cycles that are not shorter than this are ignored.
    pub max_cycle_length: Option<u128>,
    /// The number of leading SHA-1 bits that a state keeps.
    pub bits: u8,
    /// The number of independent seeds.
    pub trials: u64,
    /// The number of fresh batches of seeds on the GPU.
    pub gpu_restarts: u64,
    /// A state to replay instead of random seeds.
    pub seed: Option<String>,
    /// Whether to follow every state.
    pub exhaustive: bool,
    /// The number of seconds after which the search stops.
    pub timeout_secs: Option<u64>,
    /// Whether to run the trials on the GPU.
    pub gpu: bool,
    /// The number of trials in one dispatch on the GPU.
    pub gpu_batch_size: u64,
    /// Whether to measure the GPU instead of searching.
    pub gpu_benchmark: bool,
    /// The number of hashes per trial of a benchmark.
    pub gpu_benchmark_hashes: u32,
    /// The number of threads per block on the GPU.
    pub gpu_block_size: u32,
    /// The number of steps per dispatch and trial on the GPU.
    pub gpu_steps_per_dispatch: u32,
    /// Whether to print more.
    pub verbose: bool,
}

impl Default for Options {
    fn default() -> (options: Options)
        ensures
            options.max == DEFAULT_MAX,
            options.max_cycle_length is None,
            options.bits == 32,
            options.trials == 1,
            options.gpu_restarts == 4,
            options.seed is None,
            !options.exhaustive,
            options.timeout_secs is None,
            !options.gpu,
            options.gpu_batch_size == 65536,
            !options.gpu_benchmark,
            options.gpu_benchmark_hashes == 256,
            options.gpu_block_size == 256,
            options.gpu_steps_per_dispatch == 65536,
            !options.verbose,
    {
        Options {
            max: DEFAULT_MAX,
            max_cycle_length: None,
            bits: 32,
            trials: 1,
            gpu_restarts: 4,
            seed: None,
            exhaustive: false,
            timeout_secs: None,
            gpu: false,
            gpu_batch_size: 65536,
            gpu_benchmark: false,
            gpu_benchmark_hashes: 256,
            gpu_block_size: 256,
            gpu_steps_per_dispatch: 65536,
            verbose: false,
        }
    }
}

/// What is wrong with some options. The first of these that applies is reported.
#[derive(Clone, Copy, Debug, PartialEq, Eq)]
pub enum OptionsError {
    /// No steps.
    ZeroMax,
    /// A limit that no cycle is shorter than.
    ZeroMaxCycleLength,
    /// No trials.
    ZeroTrials,
    /// No batches of seeds on the GPU.
    ZeroGpuRestarts,
    /// A seed, and more or less than one trial.
    SeedNeedsOneTrial,
    /// A seed on the GPU, and more or less than one batch.
    GpuSeedNeedsOneRestart,
    /// A number of bits that no state has.
    BitsOutOfRange,
    /// An exhaustive search from a seed.
    ExhaustiveWithSeed,
    /// An exhaustive search of too many states.
    ExhaustiveTooWide,
    /// No trials in one dispatch.
    ZeroGpuBatchSize,
    /// No steps in one dispatch.
    ZeroGpuStepsPerDispatch,
    /// An exhaustive search on the GPU.
    GpuExhaustive,
    /// A number of threads that a block cannot have.
    BadGpuBlockSize,
    /// A benchmark of no hashes.
    ZeroGpuBenchmarkHashes,
    /// A benchmark that is an exhaustive search.
    GpuBenchmarkExhaustive,
    /// A benchmark from a seed.
    GpuBenchmarkWithSeed,
}

/// The place of an error in the order in which they are looked for.
pub open spec fn rank(error: OptionsError) -> int {
    match error {
        OptionsError::ZeroMax => 0,
        OptionsError::ZeroMaxCycleLength => 1,
        OptionsError::ZeroTrials => 2,
        OptionsError::ZeroGpuRestarts => 3,
        OptionsError::SeedNeedsOneTrial => 4,
        OptionsError::GpuSeedNeedsOneRestart => 5,
        OptionsError::BitsOutOfRange => 6,
        OptionsError::ExhaustiveWithSeed => 7,
        OptionsError::ExhaustiveTooWide => 8,
        OptionsError::ZeroGpuBatchSize => 9,
        OptionsError::ZeroGpuStepsPerDispatch => 10,
        OptionsError::GpuExhaustive => 11,
        OptionsError::BadGpuBlockSize => 12,
        OptionsError::ZeroGpuBenchmarkHashes => 13,
        OptionsError::GpuBenchmarkExhaustive => 14,
        OptionsError::GpuBenchmarkWithSeed => 15,
    }
}

/// A number of threads that a block can have.
pub open spec fn is_block_size(size: u32) -> bool {
    32 <= size <= 1024 && is_pow2(size as int)
}

/// The error applies to the options.
pub open spec fn applies(options: &Options, error: OptionsError) -> bool {
    match error {
        OptionsError::ZeroMax => options.max == 0,
        OptionsError::ZeroMaxCycleLength => options.max_cycle_length == Some(0u128),
        OptionsError::ZeroTrials => options.trials == 0,
        OptionsError::ZeroGpuRestarts => options.gpu_restarts == 0,
        OptionsError::SeedNeedsOneTrial => options.seed is Some && options.trials != 1,
        OptionsError::GpuSeedNeedsOneRestart => options.gpu && options.seed is Some
            && options.gpu_restarts != 1,
        OptionsError::BitsOutOfRange => !(1 <= options.bits <= 160),
        OptionsError::ExhaustiveWithSeed => options.exhaustive && options.seed is Some,
        OptionsError::ExhaustiveTooWide => options.exhaustive && options.bits > 31,
        OptionsError::ZeroGpuBatchSize => options.gpu_batch_size == 0,
        OptionsError::ZeroGpuStepsPerDispatch => options.gpu_steps_per_dispatch == 0,
        OptionsError::GpuExhaustive => options.gpu && options.exhaustive,
        OptionsError::BadGpuBlockSize => (options.gpu || options.gpu_benchmark) && !is_block_size(
            options.gpu_block_size,
        ),
        OptionsError::ZeroGpuBenchmarkHashes => options.gpu_benchmark_hashes == 0,
        OptionsError::GpuBenchmarkExhaustive => options.gpu_benchmark && options.exhaustive,
        OptionsError::GpuBenchmarkWithSeed => options.gpu_benchmark && options.seed is Some,
    }
}

/// The kind of search that the options ask for.
#[derive(Clone, Copy, Debug, PartialEq, Eq)]
pub enum Mode {
    /// Follow every state.
    Exhaustive,
    /// Measure the GPU.
    GpuBenchmark,
    /// Run trials on the GPU.
    Gpu,
    /// Replay one state.
    Replay,
    /// Run trials from random seeds.
    Sample,
}

impl OptionsError {
    /// The error in words.
    pub fn message(&self) -> (message: &'static str)
        ensures
            message@ == match *self {
                OptionsError::ZeroMax => "max must be greater than zero"@,
                OptionsError::ZeroMaxCycleLength => "max-cycle-length must be greater than zero"@,
                OptionsError::ZeroTrials => "trials must be greater than zero"@,
                OptionsError::ZeroGpuRestarts => "gpu-restarts must be greater than zero"@,
                OptionsError::SeedNeedsOneTrial => "seed replay requires exactly one trial"@,
                OptionsError::GpuSeedNeedsOneRestart => "GPU seed replay requires exactly one GPU restart"@,
                OptionsError::BitsOutOfRange => "bits must be between 1 and 160"@,
                OptionsError::ExhaustiveWithSeed => "exhaustive search does not accept a seed"@,
                OptionsError::ExhaustiveTooWide => "exhaustive search only supports bits <= 31 (2^31 states)"@,
                OptionsError::ZeroGpuBatchSize => "gpu-batch-size must be greater than zero"@,
                OptionsError::ZeroGpuStepsPerDispatch => "gpu-steps-per-dispatch must be greater than zero"@,
                OptionsError::GpuExhaustive => "GPU acceleration is available for sampled trials, not exhaustive search"@,
                OptionsError::BadGpuBlockSize => "gpu-block-size must be a power of two between 32 and 1024"@,
                OptionsError::ZeroGpuBenchmarkHashes => "gpu-benchmark-hashes must be greater than zero"@,
                OptionsError::GpuBenchmarkExhaustive => "GPU benchmark does not support exhaustive search"@,
                OptionsError::GpuBenchmarkWithSeed => "GPU benchmark does not accept a seed"@,
            },
    {
        match *self {
            OptionsError::ZeroMax => "max must be greater than zero",
            OptionsError::ZeroMaxCycleLength => "max-cycle-length must be greater than zero",
            OptionsError::ZeroTrials => "trials must be greater than zero",
            OptionsError::ZeroGpuRestarts => "gpu-restarts must be greater than zero",
            OptionsError::SeedNeedsOneTrial => "seed replay requires exactly one trial",
            OptionsError::GpuSeedNeedsOneRestart => "GPU seed replay requires exactly one GPU restart",
            OptionsError::BitsOutOfRange => "bits must be between 1 and 160",
            OptionsError::ExhaustiveWithSeed => "exhaustive search does not accept a seed",
            OptionsError::ExhaustiveTooWide => "exhaustive search only supports bits <= 31 (2^31 states)",
            OptionsError::ZeroGpuBatchSize => "gpu-batch-size must be greater than zero",
            OptionsError::ZeroGpuStepsPerDispatch => "gpu-steps-per-dispatch must be greater than zero",
            OptionsError::GpuExhaustive => "GPU acceleration is available for sampled trials, not exhaustive search",
            OptionsError::BadGpuBlockSize => "gpu-block-size must be a power of two between 32 and 1024",
            OptionsError::ZeroGpuBenchmarkHashes => "gpu-benchmark-hashes must be greater than zero",
            OptionsError::GpuBenchmarkExhaustive => "GPU benchmark does not support exhaustive search",
            OptionsError::GpuBenchmarkWithSeed => "GPU benchmark does not accept a seed",
        }
    }
}

/// Whether a block can have this number of threads.
pub fn check_block_size(size: u32) -> (fits: bool)
    ensures
        fits == is_block_size(size),
{
    proof {
        lemma_block_sizes(size as int);
    }
    size == 32 || size == 64 || size == 128 || size == 256 || size == 512 || size == 1024
}

proof fn lemma_block_sizes(size: int)
    requires
        size >= 0,
    ensures
        32 <= size <= 1024 && is_pow2(size) <==> size == 32 || size == 64 || size == 128 || size
            == 256 || size == 512 || size == 1024,
{
    reveal_with_fuel(is_pow2, 11);
}

impl Options {
    /// Whether the options go together, and the first error that applies where they do not.
    pub fn validate(&self) -> (checked: Result<(), OptionsError>)
        ensures
            match checked {
                Ok(_) => forall|error: OptionsError| !#[trigger] applies(self, error),
                Err(error) => applies(self, error) && forall|earlier: OptionsError|
                    rank(earlier) < rank(error) ==> !#[trigger] applies(self, earlier),
            },
    {
        let has_seed = self.seed.is_some();
        if self.max == 0 {
            return Err(OptionsError::ZeroMax);
        }
        if let Some(limit) = self.max_cycle_length {
            if limit == 0 {
                return Err(OptionsError::ZeroMaxCycleLength);
            }
        }
        if self.trials == 0 {
            return Err(OptionsError::ZeroTrials);
        }
        if self.gpu_restarts == 0 {
            return Err(OptionsError::ZeroGpuRestarts);
        }
        if has_seed && self.trials != 1 {
            return Err(OptionsError::SeedNeedsOneTrial);
        }
        if self.gpu && has_seed && self.gpu_restarts != 1 {
            return Err(OptionsError::GpuSeedNeedsOneRestart);
        }
        if self.bits < 1 || self.bits > 160 {
            return Err(OptionsError::BitsOutOfRange);
        }
        if self.exhaustive && has_seed {
            return Err(OptionsError::ExhaustiveWithSeed);
        }
        if self.exhaustive && self.bits > 31 {
            return Err(OptionsError::ExhaustiveTooWide);
        }
        if self.gpu_batch_size == 0 {
            return Err(OptionsError::ZeroGpuBatchSize);
        }
        if self.gpu_steps_per_dispatch == 0 {
            return Err(OptionsError::ZeroGpuStepsPerDispatch);
        }
        if self.gpu && self.exhaustive {
            return Err(OptionsError::GpuExhaustive);
        }
        if (self.gpu || self.gpu_benchmark) && !check_block_size(self.gpu_block_size) {
            return Err(OptionsError::BadGpuBlockSize);
        }
        if self.gpu_benchmark_hashes == 0 {
            return Err(OptionsError::ZeroGpuBenchmarkHashes);
        }
        if self.gpu_benchmark && self.exhaustive {
            return Err(OptionsError::GpuBenchmarkExhaustive);
        }
        if self.gpu_benchmark && has_seed {
            return Err(OptionsError::GpuBenchmarkWithSeed);
        }
        Ok(())
    }

    /// The kind of search that the options ask for.
    pub fn mode(&self) -> (mode: Mode)
        ensures
            mode == if self.exhaustive {
                Mode::Exhaustive
            } else if self.gpu_benchmark {
                Mode::GpuBenchmark
            } else if self.gpu {
                Mode::Gpu
            } else if self.seed is Some {
                Mode::Replay
            } else {
                Mode::Sample
            },
    {
        if self.exhaustive {
            Mode::Exhaustive
        } else if self.gpu_benchmark {
            Mode::GpuBenchmark
        } else if self.gpu {
            Mode::Gpu
        } else if self.seed.is_some() {
            Mode::Replay
        } else {
            Mode::Sample
        }
    }

    /// The number of seeds that a search on the GPU draws, where it can be counted.
    pub fn gpu_trials(&self) -> (total: Option<u64>)
        ensures
            total == if self.trials * self.gpu_restarts <= u64::MAX {
                Some((self.trials * self.gpu_restarts) as u64)
            } else {
                None
            },
    {
        self.trials.checked_mul(self.gpu_restarts)
    }

    /// The number of trials that the result of a sampled search is reported with.
    pub fn reported_trials(&self) -> (trials: u64)
        ensures
            trials == if !self.gpu {
                self.trials as int
            } else if self.trials * self.gpu_restarts <= u64::MAX {
                self.trials * self.gpu_restarts
            } else {
                u64::MAX as int
            },
    {
        if self.gpu {
            match self.gpu_trials() {
                Some(total) => total,
                None => u64::MAX,
            }
        } else {
            self.trials
        }
    }
}

/// A count as this platform holds it, where it can and where there is anything to count.
pub fn platform_count(count: u64) -> (held: Option<usize>)
    ensures
        held == if 0 < count <= usize::MAX {
            Some(count as usize)
        } else {
            None
        },
{
    if 0 < count && count <= usize::MAX as u64 {
        Some(count as usize)
    } else {
        None
    }
}

/// Options that go together ask for searches that can be made.
pub proof fn law_valid_options_can_be_searched(options: &Options)
    requires
        forall|error: OptionsError| !#[trigger] applies(options, error),
    ensures
        crate::state::can_truncate(options.bits),
        options.bits >= 1,
        options.exhaustive ==> options.bits <= 31,
        options.gpu || options.gpu_benchmark ==> !options.exhaustive && 32
            <= options.gpu_block_size <= 1024,
        options.seed is Some ==> options.trials == 1,
        options.max > 0,
{
    assert(!applies(options, OptionsError::BitsOutOfRange));
    assert(!applies(options, OptionsError::ExhaustiveTooWide));
    assert(!applies(options, OptionsError::GpuExhaustive));
    assert(!applies(options, OptionsError::GpuBenchmarkExhaustive));
    assert(!applies(options, OptionsError::BadGpuBlockSize));
    assert(!applies(options, OptionsError::SeedNeedsOneTrial));
    assert(!applies(options, OptionsError::ZeroMax));
}

/// The default number of steps detects every walk whose tail is below 2^34 and whose cycle
/// is not longer than that.
pub proof fn law_default_max_reaches(tail: nat, len: nat)
    requires
        tail < 0x4_0000_0000,
        len <= 0x4_0000_0000,
    ensures
        crate::brent::brent_steps(tail, len) <= DEFAULT_MAX,
{
    vstd::arithmetic::power2::lemma2_to64_rest();
    vstd::arithmetic::power2::lemma2_to64();
    crate::brent::law_power_of_two_reaches(tail, len, 34);
}

/// The counts are above zero, the limit is absent or above zero, the bits are those of a state,
/// a seed is replayed by one trial, and neither the kinds of search nor what the GPU is asked
/// for exclude each other.
pub open spec fn go_together(options: &Options) -> bool {
    let size = options.gpu_block_size;
    &&& options.max >= 1
    &&& options.max_cycle_length is None || options.max_cycle_length->Some_0 >= 1
    &&& options.trials >= 1
    &&& options.gpu_restarts >= 1
    &&& options.gpu_batch_size >= 1
    &&& options.gpu_steps_per_dispatch >= 1
    &&& options.gpu_benchmark_hashes >= 1
    &&& 1 <= options.bits <= 160
    &&& options.seed is Some ==> options.trials == 1 && !options.exhaustive
        && !options.gpu_benchmark
    &&& options.seed is Some && options.gpu ==> options.gpu_restarts == 1
    &&& options.exhaustive ==> options.bits <= 31 && !options.gpu && !options.gpu_benchmark
    &&& options.gpu || options.gpu_benchmark ==> size == 32 || size == 64 || size == 128 || size
        == 256 || size == 512 || size == 1024
}

/// Options are accepted exactly where their fields go together.
pub proof fn law_accepted_options(options: &Options)
    ensures
        (forall|error: OptionsError| !#[trigger] applies(options, error)) <==> go_together(options),
{
    if go_together(options) {
        assert forall|error: OptionsError| !#[trigger] applies(options, error) by {
            law_error_has_its_reason(options, error);
        }
    }
    if forall|error: OptionsError| !#[trigger] applies(options, error) {
        lemma_block_sizes(options.gpu_block_size as int);
        assert(!applies(options, OptionsError::ZeroMax));
        assert(!applies(options, OptionsError::ZeroMaxCycleLength));
        assert(!applies(options, OptionsError::ZeroTrials));
        assert(!applies(options, OptionsError::ZeroGpuRestarts));
        assert(!applies(options, OptionsError::SeedNeedsOneTrial));
        assert(!applies(options, OptionsError::GpuSeedNeedsOneRestart));
        assert(!applies(options, OptionsError::BitsOutOfRange));
        assert(!applies(options, OptionsError::ExhaustiveWithSeed));
        assert(!applies(options, OptionsError::ExhaustiveTooWide));
        assert(!applies(options, OptionsError::ZeroGpuBatchSize));
        assert(!applies(options, OptionsError::ZeroGpuStepsPerDispatch));
        assert(!applies(options, OptionsError::GpuExhaustive));
        assert(!applies(options, OptionsError::BadGpuBlockSize));
        assert(!applies(options, OptionsError::ZeroGpuBenchmarkHashes));
        assert(!applies(options, OptionsError::GpuBenchmarkExhaustive));
        assert(!applies(options, OptionsError::GpuBenchmarkWithSeed));
        law_error_has_its_reason(options, OptionsError::ZeroMaxCycleLength);
    }
}

/// A plain sampled search is accepted whatever its limit, its steps, its trials and its bits
/// are, as long as none of them is out of range.
pub proof fn law_plain_searches_are_accepted(options: &Options)
    requires
        options.max > 0,
        options.max_cycle_length is None || options.max_cycle_length->Some_0 > 0,
        options.trials > 0,
        0 < options.bits <= 160,
        options.gpu_restarts > 0,
        options.gpu_batch_size > 0,
        options.gpu_steps_per_dispatch > 0,
        options.gpu_benchmark_hashes > 0,
        options.seed is None,
        !options.exhaustive,
        !options.gpu,
        !options.gpu_benchmark,
    ensures
        forall|error: OptionsError| !#[trigger] applies(options, error),
{
    law_accepted_options(options);
}

/// An error is about the fields that it names: it applies exactly where these are as it says,
/// whatever the other fields are.
pub proof fn law_error_has_its_reason(options: &Options, error: OptionsError)
    ensures
        applies(options, error) == match error {
            OptionsError::ZeroMax => options.max < 1,
            OptionsError::ZeroMaxCycleLength => options.max_cycle_length is Some
                && options.max_cycle_length->Some_0 < 1,
            OptionsError::ZeroTrials => options.trials < 1,
            OptionsError::ZeroGpuRestarts => options.gpu_restarts < 1,
            OptionsError::SeedNeedsOneTrial => !(options.seed is None || options.trials == 1),
            OptionsError::GpuSeedNeedsOneRestart => !(!options.gpu || options.seed is None
                || options.gpu_restarts == 1),
            OptionsError::BitsOutOfRange => options.bits < 1 || options.bits > 160,
            OptionsError::ExhaustiveWithSeed => !(!options.exhaustive || options.seed is None),
            OptionsError::ExhaustiveTooWide => !(!options.exhaustive || options.bits < 32),
            OptionsError::ZeroGpuBatchSize => options.gpu_batch_size < 1,
            OptionsError::ZeroGpuStepsPerDispatch => options.gpu_steps_per_dispatch < 1,
            OptionsError::GpuExhaustive => !(!options.gpu || !options.exhaustive),
            OptionsError::BadGpuBlockSize => {
                let size = options.gpu_block_size;
                (options.gpu || options.gpu_benchmark) && !(size == 32 || size == 64 || size == 128
                    || size == 256 || size == 512 || size == 1024)
            },
            OptionsError::ZeroGpuBenchmarkHashes => options.gpu_benchmark_hashes < 1,
            OptionsError::GpuBenchmarkExhaustive => !(!options.gpu_benchmark
                || !options.exhaustive),
            OptionsError::GpuBenchmarkWithSeed => !(!options.gpu_benchmark || options.seed is None),
        },
{
    lemma_block_sizes(options.gpu_block_size as int);
}

/// The errors are looked for in one order.
pub proof fn law_errors_are_ordered(a: OptionsError, b: OptionsError)
    ensures
        rank(a) == rank(b) <==> a == b,
        rank(OptionsError::ZeroMax) < rank(OptionsError::ZeroMaxCycleLength) < rank(
            OptionsError::ZeroTrials,
        ) < rank(OptionsError::ZeroGpuRestarts) < rank(OptionsError::SeedNeedsOneTrial) < rank(
            OptionsError::GpuSeedNeedsOneRestart,
        ) < rank(OptionsError::BitsOutOfRange) < rank(OptionsError::ExhaustiveWithSeed) < rank(
            OptionsError::ExhaustiveTooWide,
        ) < rank(OptionsError::ZeroGpuBatchSize) < rank(
            OptionsError::ZeroGpuStepsPerDispatch,
        ) < rank(OptionsError::GpuExhaustive) < rank(OptionsError::BadGpuBlockSize) < rank(
            OptionsError::ZeroGpuBenchmarkHashes,
        ) < rank(OptionsError::GpuBenchmarkExhaustive) < rank(OptionsError::GpuBenchmarkWithSeed),
{
}

/// A block can have a number of threads exactly where it is one of six.
pub proof fn law_block_sizes(size: u32)
    ensures
        is_block_size(size) <==> size == 32 || size == 64 || size == 128 || size == 256 || size
            == 512 || size == 1024,
{
    lemma_block_sizes(size as int);
}

} // verus!
