//! The 160-bit states that the search walks through.

use rand::Rng;
use sha1::{Digest, Sha1};
use vstd::prelude::*;

verus! {

/// The number of bytes in a state.
pub const HASH_SIZE: usize = 20;

/// A state: the bytes of a SHA-1 digest.
pub type Hash = [u8; HASH_SIZE];

/// Whether two states are the same.
pub fn same_hash(left: &Hash, right: &Hash) -> (same: bool)
    ensures
        same == (*left == *right),
{
    let mut index: usize = 0;
    while index < HASH_SIZE
        invariant
            index <= HASH_SIZE,
            forall|i: int| 0 <= i < index ==> left[i] == right[i],
        decreases HASH_SIZE - index,
    {
        if left[index] != right[index] {
            return false;
        }
        index += 1;
    }
    assert(*left =~= *right);
    true
}

/// The state with the given bytes.
pub open spec fn hash_of(bytes: Seq<u8>) -> Hash {
    choose|h: Hash| #[trigger] h@ == bytes
}

spec fn filled(bytes: Seq<u8>, count: nat) -> Hash
    decreases count,
{
    if count == 0 {
        vstd::array::spec_array_fill_for_copy_type::<u8, HASH_SIZE>(0)
    } else {
        vstd::array::spec_array_update(
            filled(bytes, (count - 1) as nat),
            count - 1,
            bytes[count - 1],
        )
    }
}

proof fn lemma_filled(bytes: Seq<u8>, count: nat)
    requires
        count <= HASH_SIZE,
    ensures
        forall|i: int| 0 <= i < count ==> #[trigger] filled(bytes, count)@[i] == bytes[i],
    decreases count,
{
    if count > 0 {
        lemma_filled(bytes, (count - 1) as nat);
        let fewer = filled(bytes, (count - 1) as nat);
        vstd::array::axiom_spec_array_update(fewer, count - 1, bytes[count - 1]);
        assert(filled(bytes, count)@ == fewer@.update(count - 1, bytes[count - 1]));
    }
}

/// There is one state for each sequence of [`HASH_SIZE`] bytes.
pub proof fn lemma_hash_of(bytes: Seq<u8>)
    requires
        bytes.len() == HASH_SIZE,
    ensures
        hash_of(bytes)@ == bytes,
{
    lemma_filled(bytes, HASH_SIZE as nat);
    assert(filled(bytes, HASH_SIZE as nat)@ =~= bytes);
}

/// Two states with the same bytes are the same.
pub proof fn lemma_same_bytes(a: Hash, b: Hash)
    requires
        a@ == b@,
    ensures
        a == b,
{
    assert forall|i: int| 0 <= i < HASH_SIZE implies a[i] == b[i] by {
        assert(a@[i] == b@[i]);
    }
    assert(a =~= b);
}

/// Bit `i` of a sequence of bytes, the leading bit of each byte first.
pub open spec fn bit(bytes: Seq<u8>, i: int) -> bool {
    (bytes[i / 8] >> ((7 - i % 8) as u8)) & 1 == 1
}

/// The byte with its leading `n` bits kept and the others cleared.
pub open spec fn kept(byte: u8, n: int) -> u8 {
    if n >= 8 {
        byte
    } else if n <= 0 {
        0
    } else {
        byte & (0xffu8 << ((8 - n) as u8))
    }
}

/// The bytes with the leading `bits` bits kept and the others cleared.
pub open spec fn truncated_bytes(bytes: Seq<u8>, bits: nat) -> Seq<u8> {
    Seq::new(bytes.len(), |k: int| kept(bytes[k], bits - 8 * k))
}

/// The state with its leading `bits` bits kept and the others cleared.
pub open spec fn truncated(hash: Hash, bits: nat) -> Hash {
    hash_of(truncated_bytes(hash@, bits))
}

/// `hash` holds nothing beyond its leading `bits` bits.
pub open spec fn is_state(hash: Hash, bits: nat) -> bool {
    truncated(hash, bits) == hash
}

/// A number of bits that a state can be truncated to. Whole bytes beyond the end of a state
/// keep all of it.
pub open spec fn can_truncate(bits: u8) -> bool {
    bits <= 160 || bits % 8 == 0
}

proof fn lemma_kept_bit(byte: u8, n: int, j: int)
    requires
        0 <= j < 8,
    ensures
        (kept(byte, n) >> ((7 - j) as u8)) & 1 == if j < n {
            (byte >> ((7 - j) as u8)) & 1
        } else {
            0
        },
{
    let shift = (7 - j) as u8;
    if n <= 0 {
        assert((0u8 >> shift) & 1 == 0) by (bit_vector);
    } else if n < 8 {
        let keep = n as u8;
        let clear = (8 - n) as u8;
        let at = j as u8;
        assert(((byte & (0xffu8 << clear)) >> shift) & 1 == if at < keep {
            (byte >> shift) & 1
        } else {
            0
        }) by (bit_vector)
            requires
                0 < keep < 8,
                at < 8,
                clear == 8 - keep,
                shift == 7 - at,
        ;
    }
}

/// Truncation keeps the leading bits and clears the others.
pub proof fn lemma_truncated_bit(hash: Hash, bits: nat, i: int)
    requires
        0 <= i < 160,
    ensures
        bit(truncated(hash, bits)@, i) == (i < bits && bit(hash@, i)),
{
    lemma_hash_of(truncated_bytes(hash@, bits));
    lemma_kept_bit(hash@[i / 8], bits - 8 * (i / 8), i % 8);
}

/// Keeps the leading `bits` bits of a state and clears the others.
pub fn truncate_hash(hash: Hash, bits: u8) -> (kept: Hash)
    requires
        can_truncate(bits),
    ensures
        kept == truncated(hash, bits as nat),
        forall|i: int|
            0 <= i < 160 ==> #[trigger] bit(kept@, i) == (i < bits && bit(hash@, i)),
{
    let ghost original = hash;
    let mut hash = hash;
    let full_bytes = (bits / 8) as usize;
    let partial_bits = bits % 8;
    let mut index = full_bytes;

    if partial_bits != 0 {
        hash[full_bytes] = hash[full_bytes] & (0xffu8 << (8 - partial_bits));
        index += 1;
    }
    while index < HASH_SIZE
        invariant
            forall|k: int|
                0 <= k < HASH_SIZE ==> #[trigger] hash@[k] == if k < index {
                    kept(original@[k], bits - 8 * k)
                } else {
                    original@[k]
                },
            index * 8 >= bits,
        decreases HASH_SIZE - index,
    {
        hash[index] = 0;
        index += 1;
    }
    proof {
        lemma_hash_of(truncated_bytes(original@, bits as nat));
        assert(hash@ =~= truncated_bytes(original@, bits as nat));
        lemma_same_bytes(hash, truncated(original, bits as nat));
        assert forall|i: int| 0 <= i < 160 implies #[trigger] bit(hash@, i) == (i < bits && bit(
            original@,
            i,
        )) by {
            lemma_truncated_bit(original, bits as nat, i);
        }
    }
    hash
}

/// The digest that `sha1::Sha1::digest` computes from the given bytes.
pub uninterp spec fn sha1_digest(input: Seq<u8>) -> Seq<u8>;

/// `sha1::Sha1::digest` is a function of the bytes that it hashes.
#[verifier::external_body]
fn sha1_of(input: &Hash) -> (digest: Hash)
    ensures
        digest@ == sha1_digest(input@),
{
    Sha1::digest(input).into()
}

/// One step of the map that is searched: the SHA-1 digest of a state, truncated.
pub open spec fn sha1_step(bits: nat) -> spec_fn(Hash) -> Hash {
    |hash: Hash| truncated(hash_of(sha1_digest(hash@)), bits)
}

/// The state that follows `input`: its SHA-1 digest, truncated to `bits` bits.
pub fn sha1_hash(input: &Hash, bits: u8) -> (output: Hash)
    requires
        can_truncate(bits),
    ensures
        output == sha1_step(bits as nat)(*input),
        forall|i: int|
            0 <= i < 160 ==> #[trigger] bit(output@, i) == (i < bits && bit(
                sha1_digest(input@),
                i,
            )),
{
    let digest = sha1_of(input);
    proof {
        lemma_hash_of(digest@);
        lemma_same_bytes(hash_of(digest@), digest);
    }
    truncate_hash(digest, bits)
}

/// A state of 160 random bits, drawn by `rand::Rng::gen` from `rand::thread_rng`. Nothing is
/// claimed of the bits.
#[verifier::external_body]
fn random_hash() -> Hash {
    rand::thread_rng().gen()
}

/// `hash` is a state that is drawn at random.
pub closed spec fn was_drawn(hash: Hash) -> bool {
    call_ensures(random_hash, (), hash)
}

/// Takes a state from a source.
fn drawn_from<S: Fn() -> Hash>(source: S) -> (drawn: Hash)
    requires
        call_requires(source, ()),
    ensures
        call_ensures(source, (), drawn),
{
    source()
}

/// Draws a state at random.
pub(crate) fn draw() -> (drawn: Hash)
    ensures
        was_drawn(drawn),
{
    drawn_from(random_hash)
}

/// Draws a state at random for a trial.
pub fn draw_for(trial: usize) -> (drawn: Hash)
    ensures
        was_drawn(drawn),
{
    let _ = trial;
    draw()
}

/// Takes a state for a trial from a source.
fn drawn_for_from<S: Fn(usize) -> Hash>(source: S, trial: usize) -> (drawn: Hash)
    requires
        call_requires(source, (trial,)),
    ensures
        call_ensures(source, (trial,), drawn),
{
    source(trial)
}

/// `hash` is a state that is drawn for this trial, and for no other: a draw for one trial does
/// not serve for another.
pub open spec fn was_drawn_for(trial: usize, hash: Hash) -> bool {
    call_ensures(draw_for, (trial,), hash)
}

/// Draws a state at random for a trial, and shows that it was drawn for that trial.
pub(crate) fn fresh_draw(trial: usize) -> (drawn: Hash)
    ensures
        was_drawn_for(trial, drawn),
        was_drawn(drawn),
{
    drawn_for_from(draw_for, trial)
}

/// A random state with its leading `bits` bits kept and the others cleared.
pub fn random_seed(bits: u8) -> (seed: Hash)
    requires
        can_truncate(bits),
    ensures
        is_state(seed, bits as nat),
        exists|drawn: Hash| was_drawn(drawn) && seed == #[trigger] truncated(drawn, bits as nat),
{
    let drawn = draw();
    proof {
        law_truncate_again(drawn, bits as nat, bits as nat);
    }
    truncate_hash(drawn, bits)
}

/// Truncating to `a` bits and then to `b` bits is truncating to the lesser of them.
pub proof fn law_truncate_again(hash: Hash, a: nat, b: nat)
    ensures
        truncated(truncated(hash, a), b) == truncated(
            hash,
            if a < b {
                a
            } else {
                b
            },
        ),
{
    let least = if a < b {
        a
    } else {
        b
    };
    let once = truncated(hash, a);
    lemma_hash_of(truncated_bytes(hash@, a));
    lemma_hash_of(truncated_bytes(hash@, least));
    lemma_hash_of(truncated_bytes(once@, b));
    assert forall|k: int| 0 <= k < HASH_SIZE implies kept(kept(hash@[k], a - 8 * k), b - 8 * k)
        == kept(hash@[k], least - 8 * k) by {
        lemma_kept_again(hash@[k], a - 8 * k, b - 8 * k);
    }
    assert(truncated_bytes(once@, b) =~= truncated_bytes(hash@, least));
}

proof fn lemma_kept_again(byte: u8, m: int, n: int)
    ensures
        kept(kept(byte, m), n) == kept(
            byte,
            if m < n {
                m
            } else {
                n
            },
        ),
{
    if 0 < m < 8 && 0 < n < 8 {
        let a = (8 - m) as u8;
        let b = (8 - n) as u8;
        assert(a >= b ==> (byte & (0xffu8 << a)) & (0xffu8 << b) == byte & (0xffu8 << a)) by (bit_vector)
            requires
                a < 8,
                b < 8,
        ;
        assert(b >= a ==> (byte & (0xffu8 << a)) & (0xffu8 << b) == byte & (0xffu8 << b)) by (bit_vector)
            requires
                a < 8,
                b < 8,
        ;
    } else if 0 < n < 8 {
        assert(0u8 & (0xffu8 << ((8 - n) as u8)) == 0) by {
            let b = (8 - n) as u8;
            assert(0u8 & (0xffu8 << b) == 0) by (bit_vector);
        }
    }
}

/// Keeping all 160 bits changes nothing.
pub proof fn law_truncate_to_all(hash: Hash)
    ensures
        truncated(hash, 160) == hash,
{
    lemma_hash_of(truncated_bytes(hash@, 160));
    assert(truncated_bytes(hash@, 160) =~= hash@);
    lemma_same_bytes(truncated(hash, 160), hash);
}

/// A step of the map keeps the leading `bits` bits of the digest of a state, and no others.
pub proof fn law_step_keeps_leading_bits(hash: Hash, bits: nat, i: int)
    requires
        0 <= i < 160,
        sha1_digest(hash@).len() == 20,
    ensures
        bit(sha1_step(bits)(hash)@, i) == (i < bits && bit(sha1_digest(hash@), i)),
{
    lemma_hash_of(sha1_digest(hash@));
    lemma_truncated_bit(hash_of(sha1_digest(hash@)), bits, i);
}

/// Truncation keeps each of the leading `bits` bits as it is, and clears all others.
pub proof fn law_truncation_keeps_leading_bits(hash: Hash, bits: nat, i: int)
    requires
        0 <= i < 160,
    ensures
        i < bits ==> bit(truncated(hash, bits)@, i) == bit(hash@, i),
        i >= bits ==> !bit(truncated(hash, bits)@, i),
{
    lemma_truncated_bit(hash, bits, i);
}

} // verus!
