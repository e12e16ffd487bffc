//! The states of at most 32 bits, numbered by a word.
//!
//! A state that is truncated to `bits` bits is named by the number that those bits make up.

use crate::state;
use crate::state::sha1_hash;
use crate::words;
use crate::words::{word_from_bytes, word_to_bytes};
use vstd::arithmetic::power2::pow2;
use vstd::prelude::*;

verus! {

/// The leading word of a state.
pub open spec fn leading_word(bytes: Seq<u8>) -> nat {
    words::be_word(bytes[0], bytes[1], bytes[2], bytes[3])
}

/// An index of `bits` bits, moved to the left end of a word.
pub open spec fn left_aligned(idx: u32, bits: nat) -> nat {
    if bits < 32 {
        (idx * pow2((32 - bits) as nat)) as nat % 0x1_0000_0000
    } else {
        idx as nat
    }
}

/// The state whose leading bits are the index `idx` and whose other bits are clear.
pub open spec fn embedded(idx: u32, bits: nat) -> state::Hash {
    state::hash_of(words::be_bytes(left_aligned(idx, bits)) + Seq::new(16, |i: int| 0u8))
}

/// The number that the leading `bits` bits of a state make up.
pub open spec fn extracted(hash: state::Hash, bits: nat) -> u32 {
    if bits < 32 {
        (leading_word(hash@) / pow2((32 - bits) as nat)) as u32
    } else {
        leading_word(hash@) as u32
    }
}

/// The index of the state that follows the state with index `idx`.
pub open spec fn successor(idx: u32, bits: nat) -> u32 {
    extracted(state::sha1_step(bits)(embedded(idx, bits)), bits)
}

proof fn lemma_shift_left(x: u32, shift: u32)
    requires
        shift < 32,
    ensures
        (x << shift) == (x * pow2(shift as nat)) as nat % 0x1_0000_0000,
{
    let wide = x as u64;
    let by = shift as u64;
    vstd::arithmetic::power2::lemma2_to64();
    vstd::bits::lemma_u32_pow2_no_overflow(shift as nat);
    assert(x * pow2(shift as nat) <= u64::MAX) by (nonlinear_arith)
        requires
            x <= 0xffff_ffff,
            pow2(shift as nat) <= 0xffff_ffff,
    ;
    vstd::bits::lemma_u64_shl_is_mul(wide, by);
    assert((x << shift) as u64 == (wide << by) & 0xffff_ffffu64) by (bit_vector)
        requires
            shift < 32,
            wide == x as u64,
            by == shift as u64,
    ;
    let product = wide << by;
    assert(product & 0xffff_ffffu64 == product % 0x1_0000_0000u64) by (bit_vector);
}

/// The state with index `idx`: its leading `bits` bits are those of `idx`, the others clear.
pub fn embed_index(idx: u32, bits: u8) -> (hash: state::Hash)
    requires
        bits >= 1,
    ensures
        hash == embedded(idx, bits as nat),
        leading_word(hash@) == left_aligned(idx, bits as nat),
        forall|k: int| 4 <= k < 20 ==> #[trigger] hash@[k] == 0,
{
    let mut hash: state::Hash = [0u8;20];
    let shifted: u32 = if bits < 32 {
        proof {
            lemma_shift_left(idx, (32 - bits) as u32);
        }
        idx << ((32 - bits) as u32)
    } else {
        idx
    };
    let bytes = word_to_bytes(shifted);
    hash[0] = bytes[0];
    hash[1] = bytes[1];
    hash[2] = bytes[2];
    hash[3] = bytes[3];
    proof {
        words::law_word_from_its_bytes(shifted);
        let expected = words::be_bytes(shifted as nat) + Seq::new(16, |i: int| 0u8);
        assert(hash@ =~= expected);
        state::lemma_hash_of(expected);
        state::lemma_same_bytes(hash, state::hash_of(expected));
    }
    hash
}

/// The index of a state: the number that its leading `bits` bits make up.
pub fn extract_index(hash: &state::Hash, bits: u8) -> (idx: u32)
    requires
        bits >= 1,
    ensures
        idx == extracted(*hash, bits as nat),
{
    let word = word_from_bytes(hash[0], hash[1], hash[2], hash[3]);
    if bits < 32 {
        let shift = (32 - bits) as u32;
        proof {
            vstd::bits::lemma_u32_shr_is_div(word, shift);
        }
        word >> shift
    } else {
        word
    }
}

/// The index of the state that follows the state with index `idx`.
pub fn next_index(idx: u32, bits: u8) -> (next: u32)
    requires
        bits >= 1,
        state::can_truncate(bits),
    ensures
        next == successor(idx, bits as nat),
        bits <= 32 ==> next < pow2(bits as nat),
        bits <= 32 ==> embedded(next, bits as nat) == state::sha1_step(bits as nat)(
            embedded(idx, bits as nat),
        ),
{
    proof {
        if bits <= 32 {
            law_successor_is_sha1_step(idx, bits as nat);
        }
    }
    extract_index(&sha1_hash(&embed_index(idx, bits), bits), bits)
}

/// The bytes of a state of at most 32 bits: a word whose low bits are clear, and zeros.
proof fn lemma_state_word(hash: state::Hash, bits: nat)
    requires
        1 <= bits <= 32,
    ensures
        state::is_state(hash, bits) <==> {
            &&& leading_word(hash@) % pow2((32 - bits) as nat) == 0
            &&& forall|k: int| 4 <= k < 20 ==> #[trigger] hash@[k] == 0
        },
{
    let kept = state::truncated_bytes(hash@, bits);
    state::lemma_hash_of(kept);
    let b0 = hash@[0];
    let b1 = hash@[1];
    let b2 = hash@[2];
    let b3 = hash@[3];
    words::law_bytes_of_their_word(b0, b1, b2, b3);
    let word = leading_word(hash@) as u32;
    let keeps_word = {
        &&& state::kept(b0, bits as int) == b0
        &&& state::kept(b1, bits - 8) == b1
        &&& state::kept(b2, bits - 16) == b2
        &&& state::kept(b3, bits - 24) == b3
    };
    assert(keeps_word <==> word as nat % pow2((32 - bits) as nat) == 0) by {
        lemma_word_kept(b0, b1, b2, b3, word, bits);
    }
    if state::is_state(hash, bits) {
        assert forall|k: int| 4 <= k < 20 implies #[trigger] hash@[k] == 0 by {
            assert(kept[k] == 0);
        }
        assert(kept[0] == b0 && kept[1] == b1 && kept[2] == b2 && kept[3] == b3);
    }
    if keeps_word && forall|k: int| 4 <= k < 20 ==> #[trigger] hash@[k] == 0 {
        assert(kept =~= hash@);
        state::lemma_same_bytes(state::hash_of(kept), hash);
    }
}

proof fn lemma_word_kept(b0: u8, b1: u8, b2: u8, b3: u8, word: u32, bits: nat)
    requires
        1 <= bits <= 32,
        word == words::be_word(b0, b1, b2, b3),
    ensures
        word as nat % pow2((32 - bits) as nat) == 0 <==> {
            &&& state::kept(b0, bits as int) == b0
            &&& state::kept(b1, bits - 8) == b1
            &&& state::kept(b2, bits - 16) == b2
            &&& state::kept(b3, bits - 24) == b3
        },
{
    vstd::arithmetic::power2::lemma2_to64();
    if bits < 32 {
        let n = bits as u32;
        let free = (32 - bits) as nat;
        let low = (32 - n) as u32;
        let mask = ((1u32 << low) - 1) as u32;
        vstd::bits::lemma_u32_pow2_no_overflow(free);
        vstd::bits::lemma_u32_shl_is_mul(1, low);
        vstd::bits::lemma_u32_low_bits_mask_is_mod(word, free);
        assert(mask == vstd::bits::low_bits_mask(free));
        assert(word == ((b0 as u32) << 24) | ((b1 as u32) << 16) | ((b2 as u32) << 8) | (
        b3 as u32)) by (bit_vector)
            requires
                word == b0 * 0x100_0000 + b1 * 0x1_0000 + b2 * 0x100 + b3,
        ;
        let n0 = (8 - n) as u8;
        let n1 = (16 - n) as u8;
        let n2 = (24 - n) as u8;
        let n3 = (32 - n) as u8;
        assert((word & mask == 0) <==> {
            &&& n >= 8 || b0 & (0xffu8 << n0) == b0
            &&& n >= 16 || (if n <= 8 {
                b1 == 0
            } else {
                b1 & (0xffu8 << n1) == b1
            })
            &&& n >= 24 || (if n <= 16 {
                b2 == 0
            } else {
                b2 & (0xffu8 << n2) == b2
            })
            &&& (if n <= 24 {
                b3 == 0
            } else {
                b3 & (0xffu8 << n3) == b3
            })
        }) by (bit_vector)
            requires
                1 <= n < 32,
                low == 32 - n,
                mask == (1u32 << low) - 1,
                n < 8 ==> n0 == 8 - n,
                8 < n < 16 ==> n1 == 16 - n,
                16 < n < 24 ==> n2 == 24 - n,
                24 < n < 32 ==> n3 == 32 - n,
                word == ((b0 as u32) << 24) | ((b1 as u32) << 16) | ((b2 as u32) << 8) | (
                b3 as u32),
        ;
    } else {
        assert(word as nat % pow2(0) == 0);
    }
}

/// Every index of `bits` bits names a state of `bits` bits, and the state gives it back.
pub proof fn law_extract_after_embed(idx: u32, bits: nat)
    requires
        1 <= bits <= 32,
        idx < pow2(bits),
    ensures
        extracted(embedded(idx, bits), bits) == idx,
        state::is_state(embedded(idx, bits), bits),
{
    let free = (32 - bits) as nat;
    lemma_powers(bits);
    let scale = pow2(free);
    assert(idx * scale < 0x1_0000_0000) by (nonlinear_arith)
        requires
            idx < pow2(bits),
            scale > 0,
            pow2(bits) * scale == 0x1_0000_0000,
    ;
    lemma_embedded_bytes(idx, bits);
    let word = leading_word(embedded(idx, bits)@);
    vstd::arithmetic::div_mod::lemma_div_by_multiple(idx as int, scale as int);
    vstd::arithmetic::div_mod::lemma_mod_multiples_basic(idx as int, scale as int);
    assert(word % scale == 0 && word / scale == idx) by {
        if bits == 32 {
            vstd::arithmetic::power2::lemma2_to64();
        }
    }
    lemma_state_word(embedded(idx, bits), bits);
}

/// Every state of `bits` bits is named by an index of `bits` bits.
proof fn lemma_state_has_index(hash: state::Hash, bits: nat)
    requires
        1 <= bits <= 32,
        state::is_state(hash, bits),
    ensures
        extracted(hash, bits) < pow2(bits),
        embedded(extracted(hash, bits), bits) == hash,
{
    let free = (32 - bits) as nat;
    lemma_powers(bits);
    let scale = pow2(free);
    lemma_state_word(hash, bits);
    let word = leading_word(hash@);
    words::law_bytes_of_their_word(hash@[0], hash@[1], hash@[2], hash@[3]);
    vstd::arithmetic::div_mod::lemma_fundamental_div_mod(word as int, scale as int);
    let idx = word / scale;
    assert(idx * scale == word) by (nonlinear_arith)
        requires
            word == scale * idx,
    ;
    assert(idx < pow2(bits)) by (nonlinear_arith)
        requires
            idx * scale < 0x1_0000_0000,
            scale > 0,
            pow2(bits) * scale == 0x1_0000_0000,
    ;
    if bits == 32 {
        vstd::arithmetic::power2::lemma2_to64();
    }
    assert(idx <= word) by (nonlinear_arith)
        requires
            idx * scale == word,
            scale >= 1,
            idx >= 0,
    ;
    assert(extracted(hash, bits) == idx);
    lemma_embedded_bytes(idx as u32, bits);
    assert(left_aligned(idx as u32, bits) == word);
    assert(embedded(idx as u32, bits)@ =~= hash@);
    state::lemma_same_bytes(embedded(idx as u32, bits), hash);
}

/// Clearing all but the leading `bits` bits of four bytes leaves the number that those bits
/// make up.
proof fn lemma_kept_index(b0: u8, b1: u8, b2: u8, b3: u8, bits: nat)
    requires
        1 <= bits < 32,
    ensures
        ({
            let scale = pow2((32 - bits) as nat);
            words::be_word(
                state::kept(b0, bits as int),
                state::kept(b1, bits - 8),
                state::kept(b2, bits - 16),
                state::kept(b3, bits - 24),
            ) / scale == words::be_word(b0, b1, b2, b3) / scale
        }),
{
    let n = bits as u32;
    let low = (32 - n) as u32;
    let k0 = state::kept(b0, bits as int);
    let k1 = state::kept(b1, bits - 8);
    let k2 = state::kept(b2, bits - 16);
    let k3 = state::kept(b3, bits - 24);
    words::law_bytes_of_their_word(b0, b1, b2, b3);
    words::law_bytes_of_their_word(k0, k1, k2, k3);
    let word = words::be_word(b0, b1, b2, b3) as u32;
    let kept_word = words::be_word(k0, k1, k2, k3) as u32;
    let n0 = (8 - n) as u8;
    let n1 = (16 - n) as u8;
    let n2 = (24 - n) as u8;
    let n3 = (32 - n) as u8;
    assert(kept_word >> low == word >> low) by (bit_vector)
        requires
            1 <= n < 32,
            low == 32 - n,
            n < 8 ==> n0 == 8 - n && k0 == b0 & (0xffu8 << n0),
            n >= 8 ==> k0 == b0,
            n <= 8 ==> k1 == 0,
            8 < n < 16 ==> n1 == 16 - n && k1 == b1 & (0xffu8 << n1),
            n >= 16 ==> k1 == b1,
            n <= 16 ==> k2 == 0,
            16 < n < 24 ==> n2 == 24 - n && k2 == b2 & (0xffu8 << n2),
            n >= 24 ==> k2 == b2,
            n <= 24 ==> k3 == 0,
            24 < n < 32 ==> n3 == 32 - n && k3 == b3 & (0xffu8 << n3),
            word == b0 * 0x100_0000 + b1 * 0x1_0000 + b2 * 0x100 + b3,
            kept_word == k0 * 0x100_0000 + k1 * 0x1_0000 + k2 * 0x100 + k3,
    ;
    vstd::bits::lemma_u32_shr_is_div(word, low);
    vstd::bits::lemma_u32_shr_is_div(kept_word, low);
}

/// The index of any hash is an index of `bits` bits, and it names the hash truncated to these
/// bits. So every state of `bits` bits is named by its index.
pub proof fn law_embed_after_extract(hash: state::Hash, bits: nat)
    requires
        1 <= bits <= 32,
    ensures
        extracted(hash, bits) < pow2(bits),
        embedded(extracted(hash, bits), bits) == state::truncated(hash, bits),
        state::is_state(hash, bits) ==> embedded(extracted(hash, bits), bits) == hash,
{
    let cut = state::truncated(hash, bits);
    state::lemma_hash_of(state::truncated_bytes(hash@, bits));
    state::law_truncate_again(hash, bits, bits);
    lemma_state_has_index(cut, bits);
    if bits < 32 {
        lemma_kept_index(hash@[0], hash@[1], hash@[2], hash@[3], bits);
    }
    assert(extracted(hash, bits) == extracted(cut, bits));
}

proof fn lemma_powers(bits: nat)
    requires
        bits <= 32,
    ensures
        pow2(bits) * pow2((32 - bits) as nat) == 0x1_0000_0000,
        pow2((32 - bits) as nat) > 0,
        pow2(bits) > 0,
{
    vstd::arithmetic::power2::lemma_pow2_adds(bits, (32 - bits) as nat);
    vstd::arithmetic::power2::lemma_pow2_pos((32 - bits) as nat);
    vstd::arithmetic::power2::lemma_pow2_pos(bits);
    vstd::arithmetic::power2::lemma2_to64();
}

proof fn lemma_embedded_bytes(idx: u32, bits: nat)
    ensures
        embedded(idx, bits)@ == words::be_bytes(left_aligned(idx, bits)) + Seq::new(
            16,
            |i: int| 0u8,
        ),
        leading_word(embedded(idx, bits)@) == left_aligned(idx, bits),
        forall|k: int| 4 <= k < 20 ==> #[trigger] embedded(idx, bits)@[k] == 0,
{
    let bytes = words::be_bytes(left_aligned(idx, bits)) + Seq::new(16, |i: int| 0u8);
    state::lemma_hash_of(bytes);
    words::law_word_from_its_bytes(left_aligned(idx, bits) as u32);
}

/// Indices follow each other as their states do.
pub proof fn law_successor_is_sha1_step(idx: u32, bits: nat)
    requires
        1 <= bits <= 32,
    ensures
        successor(idx, bits) < pow2(bits),
        embedded(successor(idx, bits), bits) == state::sha1_step(bits)(embedded(idx, bits)),
{
    let after = state::sha1_step(bits)(embedded(idx, bits));
    state::law_truncate_again(
        state::hash_of(state::sha1_digest(embedded(idx, bits)@)),
        bits,
        bits,
    );
    law_embed_after_extract(after, bits);
}

/// What does not fit into `bits` bits of an index is lost.
pub proof fn law_extra_bits_are_lost(idx: u32, bits: nat)
    requires
        1 <= bits <= 32,
    ensures
        idx as nat % pow2(bits) <= u32::MAX,
        embedded(idx, bits) == embedded((idx as nat % pow2(bits)) as u32, bits),
{
    lemma_powers(bits);
    let scale = pow2((32 - bits) as nat);
    let cut = idx as nat % pow2(bits);
    vstd::arithmetic::div_mod::lemma_mod_bound(idx as int, pow2(bits) as int);
    vstd::arithmetic::div_mod::lemma_mod_decreases(idx as nat, pow2(bits));
    if bits < 32 {
        vstd::arithmetic::div_mod::lemma_truncate_middle(
            idx as int,
            scale as int,
            pow2(bits) as int,
        );
        vstd::arithmetic::div_mod::lemma_truncate_middle(
            cut as int,
            scale as int,
            pow2(bits) as int,
        );
        vstd::arithmetic::div_mod::lemma_mod_twice(idx as int, pow2(bits) as int);
        assert(scale * pow2(bits) == 0x1_0000_0000) by (nonlinear_arith)
            requires
                pow2(bits) * scale == 0x1_0000_0000,
        ;
        assert(scale * idx == idx * scale) by (nonlinear_arith);
        assert(scale * cut == cut * scale) by (nonlinear_arith);
    } else {
        vstd::arithmetic::power2::lemma2_to64();
        vstd::arithmetic::div_mod::lemma_small_mod(idx as nat, 0x1_0000_0000);
    }
}

/// Beyond 32 bits an index is the leading word, whatever the number of bits is.
pub proof fn law_wide_indices(idx: u32, hash: state::Hash, bits: nat)
    requires
        bits >= 32,
    ensures
        embedded(idx, bits) == embedded(idx, 32),
        extracted(hash, bits) == extracted(hash, 32),
        successor(idx, bits) == successor(idx, 32),
{
    let digest = state::hash_of(state::sha1_digest(embedded(idx, 32)@));
    state::lemma_hash_of(state::truncated_bytes(digest@, bits));
    state::lemma_hash_of(state::truncated_bytes(digest@, 32));
}

} // verus!
