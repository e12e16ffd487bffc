use hash_loop::brent::{find_cycle, find_cycle_while};
use hash_loop::clock::{deadline_after, deadline_reached, expired};
use hash_loop::exhaustive::{exhaustive_min_cycle, exhaustive_min_cycle_while};
use hash_loop::graph::{
    min_cycle_in_graph_progressive, min_cycle_in_graph_while, GraphSearch, CHECKPOINT_INTERVAL,
};
use hash_loop::listener::Listener;
use hash_loop::sample::{search_seed, shorter, within_limit};
use hash_loop::state::{sha1_hash, HASH_SIZE};
use hash_loop::text::{fmt_hash, parse_hash};
use std::cell::Cell;
use std::time::{Duration, Instant};

#[test]
fn min_cycle_in_graph_finds_global_minimum() {
    let next: Vec<u32> = (0..8u32).map(|x| (x * 3 + 1) % 8).collect();
    let (best, states_processed, completed) =
        min_cycle_in_graph_progressive(&next, None, &mut Listener::new(|_, _| {}, |_, _| {}));
    let (_, cycle_length) = best.expect("cycle should be found");
    assert_eq!(cycle_length, 4);
    assert_eq!(states_processed, 8);
    assert!(completed);
}

#[test]
fn min_cycle_in_graph_respects_deadline() {
    let next: Vec<u32> = (0..8u32).map(|x| (x * 3 + 1) % 8).collect();
    let past_deadline = Instant::now() - Duration::from_secs(1);
    let (best, states_processed, completed) = min_cycle_in_graph_progressive(
        &next,
        Some(past_deadline),
        &mut Listener::new(|_, _| {}, |_, _| {}),
    );
    assert!(!completed);
    assert_eq!(states_processed, 0);
    assert!(best.is_none());
}

#[test]
fn a_search_that_stops_at_once_tells_nothing() {
    let next: Vec<u32> = (0..8u32).map(|x| (x * 3 + 1) % 8).collect();
    let past_deadline = Instant::now() - Duration::from_secs(1);
    let told = Cell::new(0);
    let mut listener = Listener::new(
        |_, _| told.set(told.get() + 1),
        |_, _| told.set(told.get() + 1),
    );
    let result = min_cycle_in_graph_progressive(&next, Some(past_deadline), &mut listener);
    assert_eq!(result, (None, 0, false));
    assert_eq!(told.get(), 0);
}

#[test]
fn tails_finished_paths_and_ties_are_no_improvements() {
    let next = [1, 2, 3, 1, 3, 5, 6];
    let mut reports = Vec::new();
    let result = min_cycle_in_graph_progressive(
        &next,
        None,
        &mut Listener::new(|node, length| reports.push((node, length)), |_, _| {}),
    );
    assert_eq!(result, (Some((5, 1)), 7, true));
    assert_eq!(reports, vec![(1, 3), (5, 1)]);
}

#[test]
fn an_appended_node_adds_nothing() {
    let mut next = vec![1, 2, 3, 1, 3, 5, 6];
    let nodes = next.len() as u32;
    for w in 0..nodes {
        next.push(w);
        let mut reports = Vec::new();
        let mut listener = Listener::new(|node, length| reports.push((node, length)), |_, _| {});
        let result = min_cycle_in_graph_progressive(&next, None, &mut listener);
        assert_eq!(result, (Some((5, 1)), u64::from(nodes) + 1, true));
        assert_eq!(reports, vec![(1, 3), (5, 1)]);
        next.pop();
    }
}

#[test]
fn a_deadline_only_cuts_a_search_short() {
    let count = 3 * CHECKPOINT_INTERVAL;
    let mut next: Vec<u32> = (0..count).map(|v| (v + 1) % count).collect();
    next[9] = 0;
    next[CHECKPOINT_INTERVAL as usize + 5] = CHECKPOINT_INTERVAL + 3;
    next[2 * CHECKPOINT_INTERVAL as usize] = 2 * CHECKPOINT_INTERVAL;
    let mut runs = Vec::new();
    for stop in 0..4 {
        let told = std::cell::RefCell::new(Vec::new());
        let mut listener = Listener::new(
            |node: u32, length| told.borrow_mut().push((true, u64::from(node), length)),
            |processed, total| told.borrow_mut().push((false, processed, total)),
        );
        let limit = stop * u64::from(CHECKPOINT_INTERVAL);
        min_cycle_in_graph_while(&next, |asked| asked == limit, &mut listener);
        drop(listener);
        runs.push(told.into_inner());
    }
    let total = u64::from(count);
    let interval = u64::from(CHECKPOINT_INTERVAL);
    assert_eq!(
        runs[3],
        vec![
            (false, 0, total),
            (true, 0, 10),
            (true, interval + 3, 3),
            (false, interval, total),
            (true, 2 * interval, 1),
            (false, 2 * interval, total),
        ]
    );
    assert!(runs[0].is_empty());
    for stop in 1..3 {
        assert_eq!(runs[stop][..], runs[3][..runs[stop].len()]);
        assert!(runs[stop].len() < runs[3].len());
    }
}

fn toy_hash(input: &hash_loop::state::Hash) -> hash_loop::state::Hash {
    let mut output = *input;
    output[0] = match input[0] {
        0 => 1,
        1 => 2,
        2 => 3,
        _ => 2,
    };
    output
}

#[test]
fn finds_a_cycle() {
    let seed = [0; HASH_SIZE];
    let (cycle_hash, cycle_length) =
        find_cycle(seed, 10, None, toy_hash).expect("cycle should be found");

    assert!(cycle_hash[0] == 2 || cycle_hash[0] == 3);
    assert_eq!(cycle_length, 2);
}

#[test]
fn zero_max_does_not_search() {
    assert!(find_cycle([0; HASH_SIZE], 0, None, toy_hash).is_none());
}

/// A walk with a tail of two and a cycle of two is met at step three plus two.
#[test]
fn search_succeeds_exactly_from_the_meeting_step_on() {
    let seed = [0; HASH_SIZE];
    for max in 0..5 {
        assert!(find_cycle(seed, max, None, toy_hash).is_none());
    }
    for max in 5..20 {
        let (hash, length) = find_cycle(seed, max, None, toy_hash).unwrap();
        assert_eq!((hash[0], length), (3, 2));
    }
}

#[test]
fn a_fixed_point_is_a_cycle_of_one() {
    let seed = [9; HASH_SIZE];
    assert_eq!(find_cycle(seed, 1, None, |x| *x), Some((seed, 1)));
}

fn counter(input: &hash_loop::state::Hash) -> hash_loop::state::Hash {
    let mut output = *input;
    for byte in output.iter_mut() {
        *byte = byte.wrapping_add(1);
        if *byte != 0 {
            break;
        }
    }
    output
}

#[test]
fn the_clock_is_asked_only_every_interval() {
    let seed = [0; HASH_SIZE];
    let asked = Cell::new(0);
    let clock = |step| {
        assert_eq!(step, 1 << 20);
        asked.set(asked.get() + 1);
        true
    };
    assert!(find_cycle_while(seed, 1 << 20, clock, counter).is_none());
    assert_eq!(asked.get(), 0);
    assert!(find_cycle_while(seed, (1 << 20) + 1, clock, counter).is_none());
    assert_eq!(asked.get(), 1);
    assert_eq!(
        find_cycle_while(seed, 10, clock, toy_hash).map(|cycle| cycle.1),
        Some(2)
    );
}

#[test]
fn a_search_that_may_go_on_uses_all_its_steps() {
    let seed = [0; HASH_SIZE];
    let asked = Cell::new(0);
    let clock = |_| {
        asked.set(asked.get() + 1);
        false
    };
    assert!(find_cycle_while(seed, 3 << 20, clock, counter).is_none());
    assert_eq!(asked.get(), 2);
}

#[test]
fn a_search_is_given_up_at_the_step_it_is_told_to() {
    let steps = Cell::new(0u128);
    let hash = |input: &hash_loop::state::Hash| {
        steps.set(steps.get() + 1);
        counter(input)
    };
    let clock = |step: u128| step == 2 << 20;
    assert!(find_cycle_while([0; HASH_SIZE], 5 << 20, clock, hash).is_none());
    assert_eq!(steps.get(), 2 << 20);
}

#[test]
fn a_past_deadline_ends_a_long_search() {
    let past = Instant::now() - Duration::from_secs(1);
    assert!(find_cycle([0; HASH_SIZE], u128::MAX, Some(past), counter).is_none());
    let future = Instant::now() + Duration::from_secs(3600);
    assert!(find_cycle([0; HASH_SIZE], 5, Some(future), toy_hash).is_some());
}

#[test]
fn deadlines_are_reached_at_their_time() {
    let now = Instant::now();
    let later = deadline_after(now, Some(Duration::from_secs(3600)));
    assert_eq!(later, Some(now + Duration::from_secs(3600)));
    assert!(!deadline_reached(now, later));
    assert!(deadline_reached(now, Some(now)));
    assert!(deadline_reached(now + Duration::from_secs(3600), later));
    assert!(!deadline_reached(now, None));
    assert!(!expired(None));
    assert!(!expired(later));
    assert!(expired(Some(now)));
    assert_eq!(deadline_after(now, None), None);
    assert_eq!(deadline_after(now, Some(Duration::MAX)), None);
}

#[test]
fn improvements_are_reported_in_order() {
    // 0 leads to a cycle of three, 4 to one of two, 6 to a fixed point, 7 to another
    let next = [1, 2, 3, 1, 5, 4, 6, 7];
    let mut reports = Vec::new();
    let (best, processed, completed) =
        min_cycle_in_graph_progressive(
            &next,
            None,
            &mut Listener::new(|node, length| reports.push((node, length)), |_, _| {}),
        );
    assert_eq!(reports, vec![(1, 3), (4, 2), (6, 1)]);
    assert_eq!(best, Some((6, 1)));
    assert_eq!((processed, completed), (8, true));
}

#[test]
fn an_empty_graph_has_no_cycle() {
    assert_eq!(
        min_cycle_in_graph_progressive(&[], None, &mut Listener::new(|_, _| {}, |_, _| {})),
        (None, 0, true)
    );
}

#[test]
fn starts_are_processed_one_by_one() {
    let next = [1, 2, 0, 3, 0];
    let mut search = GraphSearch::new(&next);
    assert_eq!(search.best(&next), None);
    assert_eq!(search.visit(&next), Some((0, 3)));
    assert_eq!(search.visit(&next), None);
    assert_eq!(search.visit(&next), None);
    assert_eq!(search.visit(&next), Some((3, 1)));
    assert_eq!(search.visit(&next), None);
    assert_eq!(search.start(), 5);
    assert_eq!(search.best(&next), Some((3, 1)));
}

#[test]
fn a_stopped_scan_reports_what_it_processed() {
    let count = 2 * CHECKPOINT_INTERVAL + 5;
    let mut next: Vec<u32> = (0..count).map(|v| (v + 1) % CHECKPOINT_INTERVAL).collect();
    next[count as usize - 1] = count - 1;
    let asked = Cell::new(0);
    let mut checkpoints = Vec::new();
    let (best, processed, completed) = min_cycle_in_graph_while(
        &next,
        |count| {
            assert_eq!(count, asked.get() * u64::from(CHECKPOINT_INTERVAL));
            asked.set(asked.get() + 1);
            asked.get() == 3
        },
        &mut Listener::new(
            |_, _| {},
            |processed, total| checkpoints.push((processed, total)),
        ),
    );
    let interval = u64::from(CHECKPOINT_INTERVAL);
    assert_eq!(best, Some((0, interval)));
    assert_eq!(processed, 2 * interval);
    assert!(!completed);
    assert_eq!(
        checkpoints,
        vec![(0, u64::from(count)), (interval, u64::from(count))]
    );
    let (best, processed, completed) =
        min_cycle_in_graph_while(&next, |_| false, &mut Listener::new(|_, _| {}, |_, _| {}));
    assert_eq!(best, Some((count - 1, 1)));
    assert_eq!(processed, u64::from(count));
    assert!(completed);
}

fn check_exhaustive(bits: u8, witness: &str, expected: u64) {
    let mut reports = Vec::new();
    let (best, processed, total, completed) = exhaustive_min_cycle(
        bits,
        None,
        &mut Listener::new(|hash, length| reports.push((hash, length)), |_, _| {}),
    );
    let (hash, length) = best.expect("there is a cycle");
    assert_eq!(fmt_hash(&hash), witness);
    assert_eq!(length, expected);
    assert_eq!((processed, total), (1 << bits, 1 << bits));
    assert!(completed);
    assert_eq!(reports.last(), Some(&(hash, length)));
    for pair in reports.windows(2) {
        assert!(pair[1].1 < pair[0].1);
    }
}

#[test]
fn exhaustive_search_of_8_bits() {
    check_exhaustive(8, "AD00000000000000000000000000000000000000", 2);
}

#[test]
fn exhaustive_search_of_12_bits() {
    check_exhaustive(12, "D110000000000000000000000000000000000000", 5);
}

#[test]
fn exhaustive_search_of_16_bits() {
    check_exhaustive(16, "268A000000000000000000000000000000000000", 1);
}

#[test]
fn exhaustive_search_of_20_bits() {
    check_exhaustive(20, "933D200000000000000000000000000000000000", 2);
}

#[test]
fn exhaustive_search_reports_each_improvement() {
    let mut reports = Vec::new();
    let mut listener = Listener::new(
        |hash: hash_loop::state::Hash, length| reports.push((hash[0], length)),
        |_, _| {},
    );
    exhaustive_min_cycle(8, None, &mut listener);
    assert_eq!(reports, vec![(103, 17), (227, 4), (20, 3), (173, 2)]);
}

#[test]
fn exhaustive_search_without_time_processes_nothing() {
    let mut reports = Vec::new();
    let mut listener = Listener::new(|hash, length| reports.push((hash, length)), |_, _| {});
    let result = exhaustive_min_cycle(8, Some(Duration::from_secs(0)), &mut listener);
    assert_eq!(result, (None, 0, 256, false));
    assert!(reports.is_empty());
    let mut listener = Listener::new(|_, _| {}, |_, _| {});
    let result = exhaustive_min_cycle(8, Some(Duration::from_secs(3600)), &mut listener);
    assert!(result.3);
}

#[test]
fn an_exhaustive_search_stops_at_the_checkpoint_it_is_told_to() {
    let interval = u64::from(CHECKPOINT_INTERVAL);
    let mut reports = Vec::new();
    let (best, processed, total, completed) = exhaustive_min_cycle_while(
        20,
        |count| count == 2 * interval,
        &mut Listener::new(|hash, length| reports.push((hash, length)), |_, _| {}),
    );
    assert_eq!((processed, total, completed), (2 * interval, 1 << 20, false));
    assert_eq!(reports.last().copied(), best);
    let (hash, length) = best.unwrap();
    let mut cursor = hash;
    for step in 1..=length {
        cursor = sha1_hash(&cursor, 20);
        assert_eq!(cursor == hash, step == length);
    }
}

fn check_replay(bits: u8, witness: &str, length: u128) {
    let seed = parse_hash(witness).unwrap();
    let (hash, found) = search_seed(seed, bits, 34359738368, None, None).unwrap();
    assert_eq!(found, length);
    // the state found is on the same cycle
    let mut cursor = seed;
    let mut met = false;
    for _ in 0..length {
        met = met || cursor == hash;
        cursor = sha1_hash(&cursor, bits);
    }
    assert!(met);
    assert_eq!(cursor, seed);
}

#[test]
fn replay_of_the_32_bit_witness() {
    check_replay(32, "423BC66E00000000000000000000000000000000", 598);
}

#[test]
fn replay_of_the_36_bit_witness() {
    check_replay(36, "8A729482C0000000000000000000000000000000", 3001);
}

#[test]
fn replay_of_the_40_bit_witness() {
    check_replay(40, "80C9C161F0000000000000000000000000000000", 78056);
}

#[test]
fn replay_of_the_44_bit_witness() {
    check_replay(44, "952C63910B200000000000000000000000000000", 113754);
}

#[test]
fn replay_of_the_48_bit_witness() {
    check_replay(48, "F356AEE448D20000000000000000000000000000", 18935);
}

#[test]
fn a_walk_of_16_bits_is_met_at_its_step() {
    let seed = [0; HASH_SIZE];
    let (hash, length) = search_seed(seed, 16, 606, None, None).unwrap();
    assert_eq!(fmt_hash(&hash), "A591000000000000000000000000000000000000");
    assert_eq!(length, 95);
    assert!(search_seed(seed, 16, 605, None, None).is_none());
}

#[test]
fn every_walk_of_8_bits_is_found_in_a_long_search() {
    for first in 0..=255u8 {
        let mut seed = [7; HASH_SIZE];
        seed[0] = first;
        assert!(search_seed(seed, 8, 3 * 256 + 3, None, None).is_some());
    }
}

#[test]
fn the_limit_is_strict() {
    let seed = parse_hash("423BC66E00000000000000000000000000000000").unwrap();
    assert!(search_seed(seed, 32, 1 << 35, Some(598), None).is_none());
    assert!(search_seed(seed, 32, 1 << 35, Some(599), None).is_some());
    let cycle = Some((seed, 598));
    assert_eq!(within_limit(cycle, None), cycle);
    assert_eq!(within_limit(cycle, Some(599)), cycle);
    assert_eq!(within_limit(cycle, Some(598)), None);
    assert_eq!(within_limit(None, Some(598)), None);
}

#[test]
fn the_left_one_of_equal_cycles_is_kept() {
    let a = Some(([1; HASH_SIZE], 5));
    let b = Some(([2; HASH_SIZE], 5));
    let c = Some(([3; HASH_SIZE], 4));
    assert_eq!(shorter(a, b), a);
    assert_eq!(shorter(b, a), b);
    assert_eq!(shorter(a, c), c);
    assert_eq!(shorter(c, a), c);
    assert_eq!(shorter(None, a), a);
    assert_eq!(shorter(a, None), a);
    assert_eq!(shorter(None, None), None);
    assert_eq!(shorter(shorter(a, b), c), shorter(a, shorter(b, c)));
}
