//! Words of four bytes, the most significant byte first.

use vstd::prelude::*;

verus! {

/// The number that four bytes stand for, the most significant one first.
pub open spec fn be_word(b0: u8, b1: u8, b2: u8, b3: u8) -> nat {
    (b0 * 0x100_0000 + b1 * 0x1_0000 + b2 * 0x100 + b3) as nat
}

/// The four bytes of a number below 2^32, the most significant one first.
pub open spec fn be_bytes(word: nat) -> Seq<u8> {
    seq![
        (word / 0x100_0000) as u8,
        (word / 0x1_0000 % 0x100) as u8,
        (word / 0x100 % 0x100) as u8,
        (word % 0x100) as u8,
    ]
}

/// The word that four bytes make up, the most significant one first.
pub fn word_from_bytes(b0: u8, b1: u8, b2: u8, b3: u8) -> (word: u32)
    ensures
        word == be_word(b0, b1, b2, b3),
{
    (b0 as u32) * 0x100_0000 + (b1 as u32) * 0x1_0000 + (b2 as u32) * 0x100 + (b3 as u32)
}

/// The four bytes of a word, the most significant one first.
pub fn word_to_bytes(word: u32) -> (bytes: [u8; 4])
    ensures
        bytes@ == be_bytes(word as nat),
{
    let bytes = [
        (word / 0x100_0000) as u8,
        (word / 0x1_0000 % 0x100) as u8,
        (word / 0x100 % 0x100) as u8,
        (word % 0x100) as u8,
    ];
    assert(bytes@ =~= be_bytes(word as nat));
    bytes
}

/// The bytes of a word make up that word again.
pub proof fn law_word_from_its_bytes(word: u32)
    ensures
        be_word(
            be_bytes(word as nat)[0],
            be_bytes(word as nat)[1],
            be_bytes(word as nat)[2],
            be_bytes(word as nat)[3],
        ) == word,
{
}

/// The word that four bytes make up has those bytes.
pub proof fn law_bytes_of_their_word(b0: u8, b1: u8, b2: u8, b3: u8)
    ensures
        be_word(b0, b1, b2, b3) <= u32::MAX,
        be_bytes(be_word(b0, b1, b2, b3)) == seq![b0, b1, b2, b3],
{
    let word = be_word(b0, b1, b2, b3);
    assert(word / 0x100_0000 == b0);
    assert(word / 0x1_0000 == b0 * 0x100 + b1);
    assert(word / 0x100 == b0 * 0x1_0000 + b1 * 0x100 + b2);
    assert(word % 0x100 == b3);
    assert(be_bytes(word) =~= seq![b0, b1, b2, b3]);
}

/// `a` comes before `b` in the order of sequences.
pub open spec fn comes_before(a: Seq<u8>, b: Seq<u8>) -> bool {
    exists|k: int|
        {
            &&& 0 <= k < a.len() && k < b.len()
            &&& #[trigger] a[k] < b[k]
            &&& forall|i: int| 0 <= i < k ==> a[i] == b[i]
        }
}

/// Words are ordered as their bytes are, the most significant one first, and four zeros are
/// zero.
pub proof fn law_words_are_ordered(a: Seq<u8>, b: Seq<u8>)
    requires
        a.len() == 4,
        b.len() == 4,
    ensures
        be_word(a[0], a[1], a[2], a[3]) < be_word(b[0], b[1], b[2], b[3]) <==> comes_before(a, b),
        be_word(0, 0, 0, 0) == 0,
{
    if a[0] != b[0] {
        if a[0] < b[0] {
            assert(comes_before(a, b));
        }
    } else if a[1] != b[1] {
        if a[1] < b[1] {
            assert(comes_before(a, b));
        }
    } else if a[2] != b[2] {
        if a[2] < b[2] {
            assert(comes_before(a, b));
        }
    } else if a[3] != b[3] {
        if a[3] < b[3] {
            assert(comes_before(a, b));
        }
    }
}

/// One more in a byte is 256 times as much as one more in the byte after it, and one more in
/// the last byte is one.
pub proof fn law_bytes_have_weights(b0: u8, b1: u8, b2: u8, b3: u8)
    ensures
        b0 < 255 ==> be_word((b0 + 1) as u8, b1, b2, b3) - be_word(b0, b1, b2, b3) == 256 * (
        be_word(0, 1, 0, 0) - be_word(0, 0, 0, 0)),
        b1 < 255 ==> be_word(b0, (b1 + 1) as u8, b2, b3) - be_word(b0, b1, b2, b3) == 256 * (
        be_word(0, 0, 1, 0) - be_word(0, 0, 0, 0)),
        b2 < 255 ==> be_word(b0, b1, (b2 + 1) as u8, b3) - be_word(b0, b1, b2, b3) == 256 * (
        be_word(0, 0, 0, 1) - be_word(0, 0, 0, 0)),
        b3 < 255 ==> be_word(b0, b1, b2, (b3 + 1) as u8) - be_word(b0, b1, b2, b3) == 1,
{
}

} // verus!
