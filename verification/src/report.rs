//! The lines that a search prints.

use crate::sample;
use crate::state;
use crate::text;
use crate::text::{decimal, fmt_hash};
use vstd::prelude::*;

verus! {

/// A state, the number of its bits, and the length of the cycle that it is on.
pub open spec fn cycle_text(hash: Seq<u8>, bits: nat, length: nat) -> Seq<char> {
    text::hex_text(hash) + " "@ + text::decimal_text(bits)
        + "-bit SHA-1 hash found on cycle of length "@ + text::decimal_text(length)
}

/// A state, the number of its bits, and the length of the cycle that it is on.
pub fn cycle_line(hash: &state::Hash, bits: u8, length: u128) -> (line: String)
    ensures
        line@ == cycle_text(hash@, bits as nat, length as nat),
        line@ == text::hex_text(hash@) + " "@ + text::decimal_text(bits as nat)
            + "-bit SHA-1 hash found on cycle of length "@ + text::decimal_text(length as nat),
{
    let mut line = fmt_hash(hash.as_slice());
    line.append(" ");
    line.append(decimal(bits as u128).as_str());
    line.append("-bit SHA-1 hash found on cycle of length ");
    line.append(decimal(length).as_str());
    line
}

/// The line for a cycle that is the best one so far.
pub fn new_best_line(hash: &state::Hash, bits: u8, length: u64) -> (line: String)
    ensures
        line@ == cycle_text(hash@, bits as nat, length as nat) + " (new best so far)"@,
{
    let mut line = cycle_line(hash, bits, length as u128);
    line.append(" (new best so far)");
    line
}

/// The line for a cycle that is the best one so far of a search on the GPU.
pub fn gpu_new_best_line(hash: &state::Hash, bits: u8, length: u128) -> (line: String)
    ensures
        line@ == cycle_text(hash@, bits as nat, length as nat) + " (GPU new best so far)"@,
{
    let mut line = cycle_line(hash, bits, length);
    line.append(" (GPU new best so far)");
    line
}

/// The line for a seed that was drawn.
pub fn seed_line(seed: &state::Hash) -> (line: String)
    ensures
        line@ == text::hex_text(seed@) + " random hash seed"@,
{
    let mut line = fmt_hash(seed.as_slice());
    line.append(" random hash seed");
    line
}

/// The line that ends an exhaustive search: its result, or the reason that there is none.
pub fn exhaustive_line(
    best: Option<(state::Hash, u64)>,
    bits: u8,
    processed: u64,
    total: u64,
    completed: bool,
) -> (line: Result<String, String>)
    ensures
        match (best, line) {
            (Some((hash, length)), Ok(line)) => line@ == cycle_text(
                hash@,
                bits as nat,
                length as nat,
            ) + if completed {
                " (exhaustive, global minimum)"@
            } else {
                " (exhaustive, partial: "@ + text::decimal_text(processed as nat) + "/"@
                    + text::decimal_text(total as nat)
                    + " states processed, not proven global minimum)"@
            },
            (None, Err(line)) => line@ == "exhaustive search stopped after "@ + text::decimal_text(
                processed as nat,
            ) + " of "@ + text::decimal_text(total as nat) + " states without finding a cycle"@,
            _ => false,
        },
{
    match best {
        Some((hash, length)) => {
            let mut line = cycle_line(&hash, bits, length as u128);
            if completed {
                line.append(" (exhaustive, global minimum)");
            } else {
                let ghost start = line@;
                line.append(" (exhaustive, partial: ");
                line.append(decimal(processed as u128).as_str());
                line.append("/");
                line.append(decimal(total as u128).as_str());
                line.append(" states processed, not proven global minimum)");
                assert(line@ =~= start + (" (exhaustive, partial: "@ + text::decimal_text(
                    processed as nat,
                ) + "/"@ + text::decimal_text(total as nat)
                    + " states processed, not proven global minimum)"@));
            }
            Ok(line)
        },
        None => {
            let mut line = "exhaustive search stopped after ".to_string();
            line.append(decimal(processed as u128).as_str());
            line.append(" of ");
            line.append(decimal(total as u128).as_str());
            line.append(" states without finding a cycle");
            Err(line)
        },
    }
}

/// The line that ends a sampled search: its result, or that there is none.
pub fn sample_line(best: Option<sample::Cycle>, bits: u8, trials: u64) -> (line: Result<
    String,
    String,
>)
    ensures
        match (best, line) {
            (Some((hash, length)), Ok(line)) => line@ == cycle_text(
                hash@,
                bits as nat,
                length as nat,
            ) + " after "@ + text::decimal_text(trials as nat) + " trial(s)"@,
            (None, Err(line)) => line@ == "no cycle found within the configured search limits"@,
            _ => false,
        },
{
    match best {
        Some((hash, length)) => {
            let mut line = cycle_line(&hash, bits, length);
            line.append(" after ");
            line.append(decimal(trials as u128).as_str());
            line.append(" trial(s)");
            Ok(line)
        },
        None => Err("no cycle found within the configured search limits".to_string()),
    }
}

/// The line of a cycle begins with the digits of its state and ends with its length. Between
/// them stand the number of bits and the same words for all cycles.
pub proof fn law_line_names_the_cycle(hash: Seq<u8>, bits: nat, length: nat)
    ensures
        ({
            let line = cycle_text(hash, bits, length);
            let state = text::hex_text(hash);
            let number = text::decimal_text(length);
            let width = text::decimal_text(bits);
            let words = "-bit SHA-1 hash found on cycle of length "@;
            &&& line.len() == state.len() + 1 + width.len() + words.len() + number.len()
            &&& line.take(state.len() as int) == state
            &&& line[state.len() as int] == ' '
            &&& line.subrange(state.len() as int + 1, state.len() + 1 + width.len() as int)
                == width
            &&& line.subrange(
                state.len() as int + 1 + width.len(),
                line.len() - number.len() as int,
            ) == words
            &&& line.skip(line.len() - number.len()) == number
        }),
{
    let line = cycle_text(hash, bits, length);
    let state = text::hex_text(hash);
    let number = text::decimal_text(length);
    let width = text::decimal_text(bits);
    let words = "-bit SHA-1 hash found on cycle of length "@;
    reveal_strlit(" ");
    assert(line.take(state.len() as int) =~= state);
    assert(line.subrange(state.len() as int + 1, state.len() + 1 + width.len() as int) =~= width);
    assert(line.subrange(state.len() as int + 1 + width.len(), line.len() - number.len() as int)
        =~= words);
    assert(line.skip(line.len() - number.len()) =~= number);
}

/// Different cycles of states of the same number of bits have different lines.
pub proof fn law_lines_tell_cycles_apart(
    a: state::Hash,
    b: state::Hash,
    bits: nat,
    length_a: nat,
    length_b: nat,
)
    requires
        cycle_text(a@, bits, length_a) == cycle_text(b@, bits, length_b),
    ensures
        a == b,
        length_a == length_b,
{
    let line = cycle_text(a@, bits, length_a);
    law_line_names_the_cycle(a@, bits, length_a);
    law_line_names_the_cycle(b@, bits, length_b);
    text::law_parse_after_fmt(a@);
    text::law_parse_after_fmt(b@);
    assert(text::hex_text(a@) == text::hex_text(b@));
    state::lemma_same_bytes(a, b);
    assert(text::decimal_text(length_a).len() == text::decimal_text(length_b).len());
    text::law_decimal_tells_numbers_apart(length_a, length_b);
}

} // verus!
