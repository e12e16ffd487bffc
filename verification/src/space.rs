//! The space of states that are truncated to a given number of bits.

use crate::brent;
use crate::index;
use crate::orbit;
use crate::state;
use crate::words;
use vstd::arithmetic::power2::pow2;
use vstd::prelude::*;

verus! {

/// The number that the leading `n` bits make up.
pub open spec fn prefix(bytes: Seq<u8>, n: nat) -> nat
    decreases n,
{
    if n == 0 {
        0
    } else {
        2 * prefix(bytes, (n - 1) as nat) + (if state::bit(bytes, n - 1) {
            1nat
        } else {
            0nat
        })
    }
}

/// All states of `bits` bits.
pub open spec fn states(bits: nat) -> Set<state::Hash> {
    Set::new(|hash: state::Hash| state::is_state(hash, bits))
}

proof fn lemma_prefix_below(bytes: Seq<u8>, n: nat)
    ensures
        prefix(bytes, n) < pow2(n),
    decreases n,
{
    vstd::arithmetic::power2::lemma2_to64();
    if n > 0 {
        lemma_prefix_below(bytes, (n - 1) as nat);
        vstd::arithmetic::power2::lemma_pow2_unfold(n);
    }
}

proof fn lemma_prefix_bits(a: Seq<u8>, b: Seq<u8>, n: nat, i: int)
    requires
        prefix(a, n) == prefix(b, n),
        0 <= i < n,
    ensures
        state::bit(a, i) == state::bit(b, i),
    decreases n,
{
    if i < n - 1 {
        lemma_prefix_bits(a, b, (n - 1) as nat, i);
    }
}

proof fn lemma_same_prefix(a: Seq<u8>, b: Seq<u8>, n: nat)
    requires
        forall|i: int| 0 <= i < n ==> #[trigger] state::bit(a, i) == state::bit(b, i),
    ensures
        prefix(a, n) == prefix(b, n),
    decreases n,
{
    if n > 0 {
        lemma_same_prefix(a, b, (n - 1) as nat);
    }
}

proof fn lemma_byte_of_bits(x: u8, y: u8)
    requires
        forall|j: u8| j < 8 ==> (#[trigger] (x >> j)) & 1 == (y >> j) & 1,
    ensures
        x == y,
{
    assert((x >> 0u8) & 1 == (y >> 0u8) & 1);
    assert((x >> 1u8) & 1 == (y >> 1u8) & 1);
    assert((x >> 2u8) & 1 == (y >> 2u8) & 1);
    assert((x >> 3u8) & 1 == (y >> 3u8) & 1);
    assert((x >> 4u8) & 1 == (y >> 4u8) & 1);
    assert((x >> 5u8) & 1 == (y >> 5u8) & 1);
    assert((x >> 6u8) & 1 == (y >> 6u8) & 1);
    assert((x >> 7u8) & 1 == (y >> 7u8) & 1);
    assert(x == y) by (bit_vector)
        requires
            (x >> 0u8) & 1 == (y >> 0u8) & 1,
            (x >> 1u8) & 1 == (y >> 1u8) & 1,
            (x >> 2u8) & 1 == (y >> 2u8) & 1,
            (x >> 3u8) & 1 == (y >> 3u8) & 1,
            (x >> 4u8) & 1 == (y >> 4u8) & 1,
            (x >> 5u8) & 1 == (y >> 5u8) & 1,
            (x >> 6u8) & 1 == (y >> 6u8) & 1,
            (x >> 7u8) & 1 == (y >> 7u8) & 1,
    ;
}

/// A state is known by its bits.
pub proof fn lemma_same_bits(a: state::Hash, b: state::Hash)
    requires
        forall|i: int| 0 <= i < 160 ==> #[trigger] state::bit(a@, i) == state::bit(b@, i),
    ensures
        a == b,
{
    assert forall|k: int| 0 <= k < 20 implies a@[k] == b@[k] by {
        let x = a@[k];
        let y = b@[k];
        assert forall|j: u8| j < 8 implies (#[trigger] (x >> j)) & 1 == (y >> j) & 1 by {
            let i = 8 * k + 7 - j;
            assert(state::bit(a@, i) == state::bit(b@, i));
            assert(i / 8 == k && (7 - i % 8) as u8 == j);
            assert(((x >> j) & 1 == 0 || (x >> j) & 1 == 1) && ((y >> j) & 1 == 0 || (y >> j) & 1
                == 1)) by (bit_vector);
        }
        lemma_byte_of_bits(x, y);
    }
    assert(a@ =~= b@);
    state::lemma_same_bytes(a, b);
}

/// A state of `bits` bits is one whose other bits are clear.
pub proof fn lemma_state_bits(hash: state::Hash, bits: nat)
    ensures
        state::is_state(hash, bits) <==> forall|i: int|
            bits <= i < 160 ==> !#[trigger] state::bit(hash@, i),
{
    let cut = state::truncated(hash, bits);
    if state::is_state(hash, bits) {
        assert forall|i: int| bits <= i < 160 implies !#[trigger] state::bit(hash@, i) by {
            state::lemma_truncated_bit(hash, bits, i);
        }
    }
    if forall|i: int| bits <= i < 160 ==> !#[trigger] state::bit(hash@, i) {
        assert forall|i: int| 0 <= i < 160 implies #[trigger] state::bit(cut@, i) == state::bit(
            hash@,
            i,
        ) by {
            state::lemma_truncated_bit(hash, bits, i);
        }
        lemma_same_bits(cut, hash);
    }
}

/// A state of `bits` bits is known by the number that those bits make up.
proof fn lemma_prefix_injective(a: state::Hash, b: state::Hash, bits: nat)
    requires
        bits <= 160,
        state::is_state(a, bits),
        state::is_state(b, bits),
        prefix(a@, bits) == prefix(b@, bits),
    ensures
        a == b,
{
    lemma_state_bits(a, bits);
    lemma_state_bits(b, bits);
    assert forall|i: int| 0 <= i < 160 implies #[trigger] state::bit(a@, i) == state::bit(
        b@,
        i,
    ) by {
        if i < bits {
            lemma_prefix_bits(a@, b@, bits, i);
        }
    }
    lemma_same_bits(a, b);
}

/// Every number below 2^`bits` is made up by the bits of some state.
proof fn lemma_prefix_surjective(bits: nat, value: nat) -> (hash: state::Hash)
    requires
        bits <= 160,
        value < pow2(bits),
    ensures
        state::is_state(hash, bits),
        prefix(hash@, bits) == value,
    decreases bits,
{
    vstd::arithmetic::power2::lemma2_to64();
    if bits == 0 {
        let zeros = Seq::new(20, |i: int| 0u8);
        state::lemma_hash_of(zeros);
        let hash = state::hash_of(zeros);
        assert forall|i: int| 0 <= i < 160 implies !#[trigger] state::bit(hash@, i) by {
            let shift = (7 - i % 8) as u8;
            assert(hash@[i / 8] == 0);
            assert((0u8 >> shift) & 1 == 0) by (bit_vector);
        }
        lemma_state_bits(hash, 0);
        hash
    } else {
        let before = (bits - 1) as nat;
        vstd::arithmetic::power2::lemma_pow2_unfold(bits);
        let shorter = lemma_prefix_surjective(before, value / 2);
        lemma_state_bits(shorter, before);
        if value % 2 == 0 {
            assert forall|i: int| bits <= i < 160 implies !#[trigger] state::bit(shorter@, i) by {}
            lemma_state_bits(shorter, bits);
            assert(!state::bit(shorter@, before as int));
            shorter
        } else {
            let k = before as int / 8;
            let shift = (7 - before as int % 8) as u8;
            let byte = shorter@[k];
            let bytes = shorter@.update(k, byte | (1u8 << shift));
            state::lemma_hash_of(bytes);
            let hash = state::hash_of(bytes);
            assert forall|i: int| 0 <= i < 160 implies #[trigger] state::bit(hash@, i) == (i
                == before || state::bit(shorter@, i)) by {
                let s = (7 - i % 8) as u8;
                assert(((byte | (1u8 << shift)) >> s) & 1 == if s == shift {
                    1
                } else {
                    (byte >> s) & 1
                }) by (bit_vector)
                    requires
                        s < 8,
                        shift < 8,
                ;
            }
            lemma_state_bits(hash, bits);
            lemma_same_prefix(hash@, shorter@, before);
            assert(state::bit(hash@, before as int));
            hash
        }
    }
}

/// There are exactly 2^`bits` states of `bits` bits.
pub proof fn law_state_count(bits: nat)
    requires
        bits <= 160,
    ensures
        states(bits).finite(),
        states(bits).len() == pow2(bits),
{
    let range = vstd::set_lib::set_int_range(0, pow2(bits) as int);
    vstd::set_lib::lemma_int_range(0, pow2(bits) as int);
    let of_prefix = |v: int|
        choose|hash: state::Hash| #[trigger]
            state::is_state(hash, bits) && prefix(hash@, bits) == v;
    assert forall|v: int| #[trigger] range.contains(v) implies state::is_state(
        of_prefix(v),
        bits,
    ) && prefix(of_prefix(v)@, bits) == v by {
        let hash = lemma_prefix_surjective(bits, v as nat);
        assert(state::is_state(hash, bits) && prefix(hash@, bits) == v);
    }
    assert(range.map(of_prefix) =~= states(bits)) by {
        assert forall|hash: state::Hash| states(bits).contains(hash) implies range.map(
            of_prefix,
        ).contains(hash) by {
            lemma_prefix_below(hash@, bits);
            let v = prefix(hash@, bits) as int;
            assert(range.contains(v));
            lemma_prefix_injective(hash, of_prefix(v), bits);
        }
    }
    assert(vstd::relations::injective_on(of_prefix, range)) by {
        assert forall|v: int, w: int|
            #![trigger of_prefix(v), of_prefix(w)]
            range.contains(v) && range.contains(w) && of_prefix(v) == of_prefix(w) implies v == w by {
            assert(prefix(of_prefix(v)@, bits) == v);
            assert(prefix(of_prefix(w)@, bits) == w);
        }
    }
    vstd::set_lib::lemma_map_size(range, states(bits), of_prefix);
}

/// Every state that follows another is a state of `bits` bits.
pub proof fn law_step_gives_state(hash: state::Hash, bits: nat)
    ensures
        state::is_state(state::sha1_step(bits)(hash), bits),
{
    state::law_truncate_again(state::hash_of(state::sha1_digest(hash@)), bits, bits);
}

/// Every walk ends in a cycle, and from its first step on it passes no more states than
/// there are.
pub proof fn law_every_walk_cycles(seed: state::Hash, bits: nat) -> (r: (nat, nat))
    requires
        bits <= 160,
    ensures
        orbit::is_rho(state::sha1_step(bits), seed, r.0, r.1),
        r.0 + r.1 <= pow2(bits) + 1,
{
    let f = state::sha1_step(bits);
    let count = pow2(bits);
    let keys = Seq::new(
        count + 1,
        |i: int| prefix(orbit::iterate(f, seed, (i + 1) as nat)@, bits) as int,
    );
    let range = vstd::set_lib::set_int_range(0, count as int);
    vstd::set_lib::lemma_int_range(0, count as int);
    if keys.no_duplicates() {
        keys.unique_seq_to_set();
        assert forall|v: int| #[trigger] keys.to_set().contains(v) implies range.contains(v) by {
            let i = choose|i: int| 0 <= i < keys.len() && keys[i] == v;
            lemma_prefix_below(orbit::iterate(f, seed, (i + 1) as nat)@, bits);
        }
        vstd::set_lib::lemma_len_subset(keys.to_set(), range);
    }
    let (i, j) = choose|i: int, j: int|
        0 <= i < keys.len() && 0 <= j < keys.len() && i != j && keys[i] == keys[j];
    let (a, b) = if i < j {
        ((i + 1) as nat, (j + 1) as nat)
    } else {
        ((j + 1) as nat, (i + 1) as nat)
    };
    law_step_gives_state(orbit::iterate(f, seed, (a - 1) as nat), bits);
    law_step_gives_state(orbit::iterate(f, seed, (b - 1) as nat), bits);
    lemma_prefix_injective(orbit::iterate(f, seed, a), orbit::iterate(f, seed, b), bits);
    orbit::lemma_rho_from_repeat(f, seed, a, b)
}

/// A search without a deadline that may take three times as many steps as there are states,
/// and three more, finds a cycle from every seed.
pub proof fn law_long_search_finds(seed: state::Hash, bits: nat, max: nat)
    requires
        bits <= 160,
        max >= 3 * pow2(bits) + 3,
    ensures
        !brent::undetected(state::sha1_step(bits), seed, max),
{
    let (tail, len) = law_every_walk_cycles(seed, bits);
    brent::law_steps_are_few(tail, len);
}

/// The bits of a byte make up the byte, and the bits of some bytes are those of the first one,
/// then those of the second one and so on.
pub proof fn law_bits_make_up_bytes(bytes: Seq<u8>, k: int, j: int)
    requires
        0 <= k < bytes.len(),
        0 <= j < 8,
    ensures
        prefix(seq![bytes[k]], 8) == bytes[k],
        state::bit(bytes, 8 * k + j) == state::bit(seq![bytes[k]], j),
{
    let i = 8 * k + j;
    assert(i / 8 == k && i % 8 == j);
    let b = bytes[k];
    let s = seq![b];
    reveal_with_fuel(prefix, 9);
    let b0 = (b >> 7u8) & 1;
    let b1 = (b >> 6u8) & 1;
    let b2 = (b >> 5u8) & 1;
    let b3 = (b >> 4u8) & 1;
    let b4 = (b >> 3u8) & 1;
    let b5 = (b >> 2u8) & 1;
    let b6 = (b >> 1u8) & 1;
    let b7 = (b >> 0u8) & 1;
    assert(b == 128 * b0 + 64 * b1 + 32 * b2 + 16 * b3 + 8 * b4 + 4 * b5 + 2 * b6 + b7 && b0 <= 1
        && b1 <= 1 && b2 <= 1 && b3 <= 1 && b4 <= 1 && b5 <= 1 && b6 <= 1 && b7 <= 1)
        by (bit_vector)
        requires
            b0 == (b >> 7u8) & 1,
            b1 == (b >> 6u8) & 1,
            b2 == (b >> 5u8) & 1,
            b3 == (b >> 4u8) & 1,
            b4 == (b >> 3u8) & 1,
            b5 == (b >> 2u8) & 1,
            b6 == (b >> 1u8) & 1,
            b7 == (b >> 0u8) & 1,
    ;
    assert(state::bit(s, 0) == (b0 == 1));
    assert(state::bit(s, 1) == (b1 == 1));
    assert(state::bit(s, 2) == (b2 == 1));
    assert(state::bit(s, 3) == (b3 == 1));
    assert(state::bit(s, 4) == (b4 == 1));
    assert(state::bit(s, 5) == (b5 == 1));
    assert(state::bit(s, 6) == (b6 == 1));
    assert(state::bit(s, 7) == (b7 == 1));
}

/// Bit `n` of the four leading bytes, in the word that they make up.
proof fn lemma_word_bit(b0: u8, b1: u8, b2: u8, b3: u8, word: u64, n: u64)
    requires
        word == words::be_word(b0, b1, b2, b3),
        1 <= n <= 32,
    ensures
        word >> ((32 - n) as u64) == 2 * (word >> ((33 - n) as u64)) + (if state::bit(
            seq![b0, b1, b2, b3],
            n - 1,
        ) {
            1int
        } else {
            0int
        }),
{
    let low = (32 - n) as u64;
    let high = (33 - n) as u64;
    let digit = (word >> low) & 1;
    assert(word >> low == 2 * (word >> high) + digit && digit <= 1) by (bit_vector)
        requires
            1 <= n <= 32,
            low == 32 - n,
            high == 33 - n,
            digit == (word >> low) & 1,
    ;
    let at = (7 - (n - 1) % 8) as u8;
    let k = (n - 1) / 8;
    let byte = if k == 0 {
        b0
    } else if k == 1 {
        b1
    } else if k == 2 {
        b2
    } else {
        b3
    };
    assert(byte == seq![b0, b1, b2, b3][k as int]);
    assert(digit == ((byte >> at) & 1) as u64) by (bit_vector)
        requires
            1 <= n <= 32,
            low == 32 - n,
            digit == (word >> low) & 1,
            word == b0 * 0x100_0000 + b1 * 0x1_0000 + b2 * 0x100 + b3,
            at == 7 - (n - 1) % 8,
            n <= 8 ==> byte == b0,
            8 < n <= 16 ==> byte == b1,
            16 < n <= 24 ==> byte == b2,
            24 < n <= 32 ==> byte == b3,
    ;
}

/// The leading `n` bits of the first four bytes make up the word without its other bits.
proof fn lemma_prefix_of_word(bytes: Seq<u8>, n: nat)
    requires
        bytes.len() >= 4,
        n <= 32,
    ensures
        prefix(bytes, n) == index::leading_word(bytes) / pow2((32 - n) as nat),
    decreases n,
{
    words::law_bytes_of_their_word(bytes[0], bytes[1], bytes[2], bytes[3]);
    let word = index::leading_word(bytes) as u64;
    vstd::arithmetic::power2::lemma2_to64();
    vstd::arithmetic::power2::lemma2_to64_rest();
    if n > 0 {
        let m = n as u64;
        let low = (32 - m) as u64;
        let high = (33 - m) as u64;
        lemma_prefix_of_word(bytes, (n - 1) as nat);
        lemma_word_bit(bytes[0], bytes[1], bytes[2], bytes[3], word, m);
        vstd::bits::lemma_u64_shr_is_div(word, low);
        vstd::bits::lemma_u64_shr_is_div(word, high);
        let four = seq![bytes[0], bytes[1], bytes[2], bytes[3]];
        assert(four[(n - 1) / 8] == bytes[(n - 1) / 8]);
        assert(state::bit(four, n - 1) == state::bit(bytes, n - 1));
        assert(low as nat == (32 - n) as nat);
        assert(high as nat == (32 - (n - 1) as nat) as nat);
        assert(word >> low == index::leading_word(bytes) / pow2((32 - n) as nat));
        assert(word >> high == prefix(bytes, (n - 1) as nat));
    } else {
        assert(pow2(32) == 0x1_0000_0000);
        assert(index::leading_word(bytes) / 0x1_0000_0000 == 0);
    }
}

/// The index of a state is the number that its leading bits make up.
pub proof fn law_index_is_prefix(hash: state::Hash, bits: nat)
    requires
        1 <= bits <= 32,
    ensures
        index::extracted(hash, bits) == prefix(hash@, bits),
{
    lemma_prefix_of_word(hash@, bits);
    words::law_bytes_of_their_word(hash@[0], hash@[1], hash@[2], hash@[3]);
    let word = index::leading_word(hash@);
    let scale = pow2((32 - bits) as nat);
    vstd::arithmetic::power2::lemma2_to64();
    vstd::arithmetic::power2::lemma_pow2_pos((32 - bits) as nat);
    assert(word <= u32::MAX);
    vstd::arithmetic::div_mod::lemma_div_is_ordered_by_denominator(word as int, 1, scale as int);
    vstd::arithmetic::div_mod::lemma_div_basics(word as int);
    assert(0 <= word / scale <= word) by {
        vstd::arithmetic::div_mod::lemma_div_pos_is_pos(word as int, scale as int);
    }
    assert(prefix(hash@, bits) == word / scale);
    if bits == 32 {
        assert(scale == 1);
        assert(word / 1 == word);
    }
}

/// The state with a given index has the bits of the index at its head, and no others.
pub proof fn law_named_state_has_the_bits_of_its_index(idx: u32, bits: nat)
    requires
        1 <= bits <= 32,
        idx < pow2(bits),
    ensures
        prefix(index::embedded(idx, bits)@, bits) == idx,
        forall|i: int|
            bits <= i < 160 ==> !#[trigger] state::bit(index::embedded(idx, bits)@, i),
{
    let hash = index::embedded(idx, bits);
    index::law_extract_after_embed(idx, bits);
    law_index_is_prefix(hash, bits);
    lemma_state_bits(hash, bits);
}

/// The number that the leading bits make up doubles with each bit, and one is added where the
/// bit is set.
pub proof fn law_prefix_grows_by_a_bit(bytes: Seq<u8>, n: nat)
    ensures
        prefix(bytes, 0) == 0,
        prefix(bytes, n + 1) == 2 * prefix(bytes, n) + (if state::bit(bytes, n as int) {
            1int
        } else {
            0int
        }),
{
}

} // verus!
