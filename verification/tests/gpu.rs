use hash_loop::benchmark::{
    benchmark_hashes, check_benchmark, fold_sink, random_seed_words, Benchmark,
};
use hash_loop::gpu::{
    batch_len, cuda_launch_config, flatten_seeds, initial_states, read_cycle, GpuAction, GpuSearch,
};
use hash_loop::state::HASH_SIZE;

fn counting_seed(first: u8) -> hash_loop::state::Hash {
    let mut seed = [0; HASH_SIZE];
    for (i, byte) in seed.iter_mut().enumerate() {
        *byte = first + i as u8;
    }
    seed
}

fn found(hash: hash_loop::state::Hash, low: u32, high: u32) -> Vec<u32> {
    let mut words = flatten_seeds(&[hash]);
    words.extend([low, high, 1]);
    words
}

#[test]
fn seeds_are_flattened_to_words() {
    let flat = flatten_seeds(&[counting_seed(0), counting_seed(0x80)]);
    assert_eq!(flat.len(), 10);
    assert_eq!(flat[0], 0x00010203);
    assert_eq!(flat[4], 0x10111213);
    assert_eq!(flat[5], 0x80818283);
    assert!(flatten_seeds(&[]).is_empty());
}

#[test]
fn trials_begin_with_their_seeds() {
    let states = initial_states(&[1, 2, 3, 4, 5, 6, 7, 8, 9, 10]);
    let mut expected = vec![1, 2, 3, 4, 5];
    expected.extend([0; 11]);
    expected.push(4);
    expected.extend([6, 7, 8, 9, 10]);
    expected.extend([0; 11]);
    expected.push(4);
    assert_eq!(states, expected);
}

#[test]
fn cycles_are_read_from_results() {
    let seed = counting_seed(0x30);
    let results = found(seed, 0xdeadbeef, 0x12);
    assert_eq!(read_cycle(&results, 0), (seed, 0x12_dead_beef));
}

#[test]
fn limits_of_a_search() {
    let wide = 1u128 << 64;
    assert_eq!(
        GpuSearch::new(wide, None, 1, 1).err(),
        Some("CUDA search supports maximum lengths up to 2^64 - 1".to_string())
    );
    assert_eq!(
        GpuSearch::new(1, Some(wide), 1, 1).err(),
        Some("CUDA cycle-length cutoff supports values up to 2^64 - 1".to_string())
    );
    let many = "CUDA search supports at most 2^32 - 1 trials per dispatch".to_string();
    assert_eq!(GpuSearch::new(1, None, 1 << 32, 1).err(), Some(many.clone()));
    assert_eq!(GpuSearch::new(1, None, 1, 1 << 32).err(), Some(many));
    let search = GpuSearch::new(0x1_0000_0002, Some(7), 3, 2).ok().unwrap();
    assert_eq!(search.limit_words(), [2, 1, 7, 0]);
    let search = GpuSearch::new(1, None, 3, 2).ok().unwrap();
    assert_eq!(search.limit_words(), [1, 0, u32::MAX, u32::MAX]);
}

#[test]
fn a_search_goes_through_its_batches() {
    let mut search = GpuSearch::new(100, None, 3, 2).ok().unwrap();
    assert_eq!(search.decide(false), GpuAction::Load { start: 0, len: 2 });
    assert_eq!(search.decide(false), GpuAction::Dispatch);
    // one trial still runs
    let mut results = found(counting_seed(1), 9, 0);
    results.extend([0; 8]);
    assert_eq!(search.absorb(&results), vec![(counting_seed(1), 9)]);
    assert_eq!(search.cycle_limit, 9);
    assert_eq!(search.decide(false), GpuAction::Dispatch);
    // the other one ended without a cycle, and the first is no news
    results[15] = 2;
    assert_eq!(search.absorb(&results), vec![]);
    assert_eq!(search.decide(false), GpuAction::Load { start: 2, len: 1 });
    assert_eq!(search.decide(false), GpuAction::Dispatch);
    assert_eq!(search.absorb(&found(counting_seed(2), 3, 0)), vec![(counting_seed(2), 3)]);
    assert_eq!(search.decide(false), GpuAction::Finish);
    assert_eq!(search.best, Some((counting_seed(2), 3)));
    assert_eq!(search.cycle_limit, 3);
}

#[test]
fn a_search_ends_when_the_time_is_up() {
    let mut search = GpuSearch::new(100, None, 3, 2).ok().unwrap();
    assert_eq!(search.decide(true), GpuAction::Finish);
    assert_eq!(search.decide(false), GpuAction::Load { start: 0, len: 2 });
    assert_eq!(search.decide(true), GpuAction::Leave);
    assert_eq!(search.decide(true), GpuAction::Finish);
    assert_eq!(search.decide(false), GpuAction::Load { start: 2, len: 1 });
}

#[test]
fn each_shorter_cycle_is_an_improvement_once() {
    let mut search = GpuSearch::new(100, None, 4, 4).ok().unwrap();
    search.decide(false);
    let mut results = found(counting_seed(1), 9, 0);
    results.extend(found(counting_seed(2), 9, 0));
    results.extend(found(counting_seed(3), 4, 0));
    results.extend([0; 8]);
    assert_eq!(
        search.absorb(&results),
        vec![(counting_seed(1), 9), (counting_seed(3), 4)]
    );
    assert_eq!(search.absorb(&results), vec![]);
    assert_eq!(search.best, Some((counting_seed(3), 4)));
}

#[test]
fn launches_hold_all_trials() {
    let config = cuda_launch_config(1000, 256);
    assert_eq!(config.grid_dim, (4, 1, 1));
    assert_eq!(config.block_dim, (256, 1, 1));
    assert_eq!(config.shared_mem_bytes, 0);
    assert_eq!(cuda_launch_config(1024, 256).grid_dim.0, 4);
    assert_eq!(cuda_launch_config(1025, 256).grid_dim.0, 5);
    assert_eq!(cuda_launch_config(0, 256).grid_dim.0, 0);
}

#[test]
fn batches_of_a_benchmark() {
    assert_eq!(batch_len(10, 0, 4), 4);
    assert_eq!(batch_len(10, 8, 4), 2);
    assert_eq!(batch_len(10, 10, 4), 0);
}

#[test]
fn limits_of_a_benchmark() {
    assert_eq!(check_benchmark(1, 1, 1), Ok(()));
    let many = "CUDA benchmark supports at most 2^32 - 1 trials per dispatch".to_string();
    assert_eq!(check_benchmark(1 << 32, 1, 0), Err(many.clone()));
    assert_eq!(check_benchmark(1, 1 << 32, 1), Err(many));
    assert_eq!(
        check_benchmark(1, 1, 0),
        Err("GPU benchmark iterations must be greater than zero".to_string())
    );
}

#[test]
fn results_of_a_benchmark() {
    assert_eq!(fold_sink(0, &[]), 0);
    assert_eq!(fold_sink(0b1100, &[0b1010, 0b0001]), 0b0111);
    assert_eq!(benchmark_hashes(1_048_576, 256), 268_435_456);
    assert_eq!(
        benchmark_hashes(usize::MAX, u32::MAX),
        (usize::MAX as u128) * (u32::MAX as u128)
    );
    let words = random_seed_words(3);
    assert_eq!(words.len(), 15);
    assert_ne!(words, random_seed_words(3));
}

#[test]
fn the_limit_is_the_length_of_the_best_cycle() {
    let mut search = GpuSearch::new(100, Some(50), 1, 1).ok().unwrap();
    search.decide(false);
    assert_eq!(search.cycle_limit, 50);
    search.absorb(&found(counting_seed(1), 7, 0));
    assert_eq!((search.cycle_limit, search.start, search.running), (7, 1, 0));
    assert_eq!(search.best, Some((counting_seed(1), 7)));
    assert_eq!(search.decide(false), GpuAction::Finish);
}

#[test]
fn batches_of_no_seeds_are_refused_after_the_other_limits() {
    assert_eq!(
        GpuSearch::new(1 << 64, None, 1, 0).err(),
        Some("CUDA search supports maximum lengths up to 2^64 - 1".to_string())
    );
    assert_eq!(GpuSearch::new(9, None, 1, 0).ok().map(|search| search.max), Some(9));
}

#[test]
fn a_benchmark_goes_through_its_batches() {
    let results = [3, 5, 7, 11, 13, 17, 19];
    for batch_size in 1..10 {
        let mut benchmark = Benchmark::new(results.len(), batch_size);
        let mut next = 0;
        while let Some((start, len)) = benchmark.next_batch() {
            assert_eq!(start, next);
            assert_eq!(len, batch_size.min(results.len() - start));
            next = start + len;
            benchmark.measure(&results[start..next]);
        }
        assert_eq!(benchmark.start, results.len());
        assert_eq!(benchmark.sink, fold_sink(0, &results));
        assert_eq!(benchmark.sink, 3 ^ 5 ^ 7 ^ 11 ^ 13 ^ 17 ^ 19);
    }
}

#[test]
fn batching_does_not_change_the_shortest_length() {
    let lengths = [40, 12, 90, 12, 55, 70];
    for batch_size in 1..8 {
        for reversed in [false, true] {
            let mut search = GpuSearch::new(1000, Some(80), 6, batch_size).ok().unwrap();
            let mut batch = (0, 0);
            loop {
                match search.decide(false) {
                    GpuAction::Finish => break,
                    GpuAction::Load { start, len } => batch = (start, len),
                    GpuAction::Leave => unreachable!(),
                    GpuAction::Dispatch => {
                        let mut results = Vec::new();
                        for i in batch.0..batch.0 + batch.1 {
                            let length = lengths[if reversed { 5 - i } else { i }];
                            if u64::from(length) < search.cycle_limit {
                                results.extend(found(counting_seed(i as u8), length, 0));
                            } else {
                                results.extend([0, 0, 0, 0, 0, 0, 0, 2]);
                            }
                        }
                        search.absorb(&results);
                    }
                }
            }
            assert_eq!(search.best.map(|cycle| cycle.1), Some(12));
        }
    }
}
