use hash_loop::options::{check_block_size, platform_count, Mode, Options, OptionsError};
use hash_loop::report;
use hash_loop::state::HASH_SIZE;

#[test]
fn default_search_limit_reaches_ten_billion_cycle_lengths() {
    let opt = Options::default();
    assert!(opt.max >= 10_300_411_851);
    assert_eq!(opt.gpu_restarts, 4);
    assert_eq!(opt.gpu_steps_per_dispatch, 65_536);
}

fn seed() -> Option<String> {
    Some("0".repeat(40))
}

fn check_error(options: Options, error: OptionsError, message: &str) {
    assert_eq!(options.validate(), Err(error));
    assert_eq!(error.message(), message);
}

#[test]
fn default_options_go_together() {
    assert_eq!(Options::default().validate(), Ok(()));
    assert_eq!(Options::default().mode(), Mode::Sample);
    assert_eq!(Options::default().max, 34359738368);
    assert_eq!(Options::default().bits, 32);
}

#[test]
fn counts_must_not_be_zero() {
    check_error(
        Options { max: 0, ..Options::default() },
        OptionsError::ZeroMax,
        "max must be greater than zero",
    );
    check_error(
        Options { max_cycle_length: Some(0), ..Options::default() },
        OptionsError::ZeroMaxCycleLength,
        "max-cycle-length must be greater than zero",
    );
    check_error(
        Options { trials: 0, ..Options::default() },
        OptionsError::ZeroTrials,
        "trials must be greater than zero",
    );
    check_error(
        Options { gpu_restarts: 0, ..Options::default() },
        OptionsError::ZeroGpuRestarts,
        "gpu-restarts must be greater than zero",
    );
    check_error(
        Options { gpu_batch_size: 0, ..Options::default() },
        OptionsError::ZeroGpuBatchSize,
        "gpu-batch-size must be greater than zero",
    );
    check_error(
        Options { gpu_steps_per_dispatch: 0, ..Options::default() },
        OptionsError::ZeroGpuStepsPerDispatch,
        "gpu-steps-per-dispatch must be greater than zero",
    );
    check_error(
        Options { gpu_benchmark_hashes: 0, ..Options::default() },
        OptionsError::ZeroGpuBenchmarkHashes,
        "gpu-benchmark-hashes must be greater than zero",
    );
}

#[test]
fn a_seed_is_replayed_once() {
    check_error(
        Options { seed: seed(), trials: 2, ..Options::default() },
        OptionsError::SeedNeedsOneTrial,
        "seed replay requires exactly one trial",
    );
    check_error(
        Options { seed: seed(), gpu: true, ..Options::default() },
        OptionsError::GpuSeedNeedsOneRestart,
        "GPU seed replay requires exactly one GPU restart",
    );
    let options = Options { seed: seed(), ..Options::default() };
    assert_eq!(options.validate(), Ok(()));
    assert_eq!(options.mode(), Mode::Replay);
}

#[test]
fn bits_must_be_in_range() {
    for bits in [0, 161, 255] {
        check_error(
            Options { bits, ..Options::default() },
            OptionsError::BitsOutOfRange,
            "bits must be between 1 and 160",
        );
    }
    for bits in [1, 160] {
        assert_eq!(Options { bits, ..Options::default() }.validate(), Ok(()));
    }
}

#[test]
fn exhaustive_searches_go_with_little() {
    let exhaustive = || Options { exhaustive: true, bits: 31, ..Options::default() };
    assert_eq!(exhaustive().validate(), Ok(()));
    assert_eq!(exhaustive().mode(), Mode::Exhaustive);
    check_error(
        Options { seed: seed(), ..exhaustive() },
        OptionsError::ExhaustiveWithSeed,
        "exhaustive search does not accept a seed",
    );
    check_error(
        Options { bits: 32, ..exhaustive() },
        OptionsError::ExhaustiveTooWide,
        "exhaustive search only supports bits <= 31 (2^31 states)",
    );
    check_error(
        Options { gpu: true, ..exhaustive() },
        OptionsError::GpuExhaustive,
        "GPU acceleration is available for sampled trials, not exhaustive search",
    );
    check_error(
        Options { gpu_benchmark: true, ..exhaustive() },
        OptionsError::GpuBenchmarkExhaustive,
        "GPU benchmark does not support exhaustive search",
    );
}

#[test]
fn blocks_have_a_power_of_two_of_threads() {
    for size in 0..5000u32 {
        let expected = (32..=1024).contains(&size) && size.is_power_of_two();
        assert_eq!(check_block_size(size), expected);
    }
    check_error(
        Options { gpu: true, gpu_block_size: 48, ..Options::default() },
        OptionsError::BadGpuBlockSize,
        "gpu-block-size must be a power of two between 32 and 1024",
    );
    // it matters on the GPU only
    assert_eq!(
        Options { gpu_block_size: 48, ..Options::default() }.validate(),
        Ok(())
    );
}

#[test]
fn benchmarks_take_no_seed() {
    check_error(
        Options { gpu_benchmark: true, seed: seed(), ..Options::default() },
        OptionsError::GpuBenchmarkWithSeed,
        "GPU benchmark does not accept a seed",
    );
    let options = Options { gpu_benchmark: true, gpu: true, ..Options::default() };
    assert_eq!(options.mode(), Mode::GpuBenchmark);
}

#[test]
fn the_first_error_is_reported() {
    check_error(
        Options { trials: 0, bits: 0, gpu_batch_size: 0, ..Options::default() },
        OptionsError::ZeroTrials,
        "trials must be greater than zero",
    );
}

#[test]
fn trials_are_counted() {
    let options = Options { trials: 10, ..Options::default() };
    assert_eq!(options.gpu_trials(), Some(40));
    assert_eq!(options.reported_trials(), 10);
    let options = Options { gpu: true, ..options };
    assert_eq!(options.mode(), Mode::Gpu);
    assert_eq!(options.reported_trials(), 40);
    let options = Options { trials: u64::MAX, ..options };
    assert_eq!(options.gpu_trials(), None);
    assert_eq!(options.reported_trials(), u64::MAX);
    assert_eq!(platform_count(0), None);
    assert_eq!(platform_count(65536), Some(65536));
}

#[test]
fn lines_of_an_exhaustive_search() {
    let mut hash = [0; HASH_SIZE];
    hash[0] = 0xAD;
    let found = "AD00000000000000000000000000000000000000 8-bit SHA-1 hash found on cycle of length 2";
    assert_eq!(report::cycle_line(&hash, 8, 2), found);
    assert_eq!(
        report::new_best_line(&hash, 8, 2),
        format!("{} (new best so far)", found)
    );
    assert_eq!(
        report::gpu_new_best_line(&hash, 8, 2),
        format!("{} (GPU new best so far)", found)
    );
    assert_eq!(
        report::exhaustive_line(Some((hash, 2)), 8, 256, 256, true),
        Ok(format!("{} (exhaustive, global minimum)", found))
    );
    assert_eq!(
        report::exhaustive_line(Some((hash, 2)), 8, 128, 256, false),
        Ok(format!(
            "{} (exhaustive, partial: 128/256 states processed, not proven global minimum)",
            found
        ))
    );
    assert_eq!(
        report::exhaustive_line(None, 8, 0, 256, false),
        Err("exhaustive search stopped after 0 of 256 states without finding a cycle".to_string())
    );
}

#[test]
fn lines_of_a_sampled_search() {
    let hash = [0x1f; HASH_SIZE];
    let digits = "1F".repeat(20);
    assert_eq!(
        report::sample_line(Some((hash, 598)), 32, 8192),
        Ok(format!(
            "{} 32-bit SHA-1 hash found on cycle of length 598 after 8192 trial(s)",
            digits
        ))
    );
    assert_eq!(
        report::sample_line(None, 32, 8192),
        Err("no cycle found within the configured search limits".to_string())
    );
    assert_eq!(
        report::seed_line(&hash),
        format!("{} random hash seed", digits)
    );
}
