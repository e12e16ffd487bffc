//! States and numbers as text.

use crate::state;
use crate::state::HASH_SIZE;
use vstd::prelude::*;

verus! {

/// The character of a decimal digit.
pub open spec fn decimal_char(digit: nat) -> char {
    ('0' as nat + digit) as char
}

/// The decimal digits of a number, without leading zeros.
pub open spec fn decimal_text(n: nat) -> Seq<char>
    decreases n,
{
    if n < 10 {
        seq![decimal_char(n)]
    } else {
        decimal_text(n / 10).push(decimal_char(n % 10))
    }
}

/// The character of a hexadecimal digit, in upper case.
pub open spec fn hex_char(digit: nat) -> char {
    if digit < 10 {
        ('0' as nat + digit) as char
    } else {
        ('A' as nat + digit - 10) as char
    }
}

/// Two hexadecimal digits for each byte, the high one first.
pub open spec fn hex_text(bytes: Seq<u8>) -> Seq<char> {
    Seq::new(
        2 * bytes.len(),
        |i: int|
            hex_char(
                if i % 2 == 0 {
                    (bytes[i / 2] / 16) as nat
                } else {
                    (bytes[i / 2] % 16) as nat
                },
            ),
    )
}

/// The value of a hexadecimal digit, in upper or lower case.
pub open spec fn hex_value(byte: u8) -> Option<u8> {
    if 0x30 <= byte <= 0x39 {
        Some((byte - 0x30) as u8)
    } else if 0x61 <= byte <= 0x66 {
        Some((byte - 0x61 + 10) as u8)
    } else if 0x41 <= byte <= 0x46 {
        Some((byte - 0x41 + 10) as u8)
    } else {
        None
    }
}

/// Every byte is a hexadecimal digit.
pub open spec fn all_hex(bytes: Seq<u8>) -> bool {
    forall|i: int| 0 <= i < bytes.len() ==> hex_value(#[trigger] bytes[i]) is Some
}

/// The first byte that is no hexadecimal digit is the one at `at`.
pub open spec fn first_not_hex(bytes: Seq<u8>, at: int) -> bool {
    &&& 0 <= at < bytes.len()
    &&& hex_value(bytes[at]) is None
    &&& forall|i: int| 0 <= i < at ==> hex_value(#[trigger] bytes[i]) is Some
}

/// The bytes that pairs of hexadecimal digits stand for.
pub open spec fn hex_decoded(digits: Seq<u8>) -> Seq<u8> {
    Seq::new(
        digits.len() / 2,
        |i: int|
            (hex_value(digits[2 * i])->Some_0 * 16 + hex_value(digits[2 * i + 1])->Some_0) as u8,
    )
}

fn hex_str(digit: u8) -> (text: &'static str)
    requires
        digit < 16,
    ensures
        text@ == seq![hex_char(digit as nat)],
{
    proof {
        reveal_strlit("0");
        reveal_strlit("1");
        reveal_strlit("2");
        reveal_strlit("3");
        reveal_strlit("4");
        reveal_strlit("5");
        reveal_strlit("6");
        reveal_strlit("7");
        reveal_strlit("8");
        reveal_strlit("9");
        reveal_strlit("A");
        reveal_strlit("B");
        reveal_strlit("C");
        reveal_strlit("D");
        reveal_strlit("E");
        reveal_strlit("F");
    }
    let text = match digit {
        0 => "0",
        1 => "1",
        2 => "2",
        3 => "3",
        4 => "4",
        5 => "5",
        6 => "6",
        7 => "7",
        8 => "8",
        9 => "9",
        10 => "A",
        11 => "B",
        12 => "C",
        13 => "D",
        14 => "E",
        _ => "F",
    };
    assert(text@ =~= seq![hex_char(digit as nat)]);
    text
}

/// A number in decimal digits.
pub fn decimal(n: u128) -> (text: String)
    ensures
        text@ == decimal_text(n as nat),
    decreases n,
{
    let mut text = if n < 10 {
        String::new()
    } else {
        decimal(n / 10)
    };
    text.append(hex_str((n % 10) as u8));
    assert(text@ =~= decimal_text(n as nat));
    text
}

/// Bytes in hexadecimal digits, in upper case.
pub fn fmt_hash(input: &[u8]) -> (text: String)
    ensures
        text@ == hex_text(input@),
{
    let mut text = String::new();
    let mut index: usize = 0;
    while index < input.len()
        invariant
            index <= input@.len(),
            text@ == hex_text(input@.take(index as int)),
        decreases input@.len() - index,
    {
        let byte = input[index];
        text.append(hex_str(byte / 16));
        text.append(hex_str(byte % 16));
        index += 1;
        assert(text@ =~= hex_text(input@.take(index as int)));
    }
    assert(input@.take(index as int) =~= input@);
    text
}

/// The value of a hexadecimal digit, in upper or lower case.
pub fn hex_digit(byte: u8) -> (value: Option<u8>)
    ensures
        value == hex_value(byte),
        value matches Some(v) ==> v < 16,
{
    if 0x30 <= byte && byte <= 0x39 {
        Some(byte - 0x30)
    } else if 0x61 <= byte && byte <= 0x66 {
        Some(byte - 0x61 + 10)
    } else if 0x41 <= byte && byte <= 0x46 {
        Some(byte - 0x41 + 10)
    } else {
        None
    }
}

fn bad_digit(at: usize) -> (message: String)
    ensures
        message@ == "invalid hexadecimal character at position "@ + decimal_text(at as nat),
{
    let mut message = "invalid hexadecimal character at position ".to_string();
    message.append(decimal(at as u128).as_str());
    message
}

/// Reads a state from its hexadecimal digits, in upper or lower case.
pub fn parse_hash(value: &str) -> (parsed: Result<state::Hash, String>)
    ensures
        ({
            let digits = vstd::utf8::encode_utf8(value@);
            match parsed {
                Ok(hash) => digits.len() == 40 && all_hex(digits) && hash@ == hex_decoded(digits),
                Err(message) => if digits.len() != 40 {
                    message@ == "seed must contain 40 hexadecimal characters"@
                } else {
                    exists|at: int| #[trigger]
                        first_not_hex(digits, at) && message@
                            == "invalid hexadecimal character at position "@ + decimal_text(
                            at as nat,
                        )
                },
            }
        }),
{
    let digits = value.as_bytes();
    if digits.len() != 2 * HASH_SIZE {
        return Err("seed must contain 40 hexadecimal characters".to_string());
    }
    let mut hash: state::Hash = [0u8;20];
    let mut index: usize = 0;
    while index < HASH_SIZE
        invariant
            index <= HASH_SIZE,
            digits@ == vstd::utf8::encode_utf8(value@),
            digits@.len() == 2 * HASH_SIZE,
            forall|i: int| 0 <= i < 2 * index ==> hex_value(#[trigger] digits@[i]) is Some,
            forall|i: int| 0 <= i < index ==> #[trigger] hash@[i] == hex_decoded(digits@)[i],
        decreases HASH_SIZE - index,
    {
        let high = match hex_digit(digits[2 * index]) {
            Some(high) => high,
            None => {
                assert(first_not_hex(digits@, 2 * index as int));
                return Err(bad_digit(2 * index));
            },
        };
        let low = match hex_digit(digits[2 * index + 1]) {
            Some(low) => low,
            None => {
                assert(first_not_hex(digits@, 2 * index + 1));
                return Err(bad_digit(2 * index + 1));
            },
        };
        hash[index] = high * 16 + low;
        index += 1;
    }
    assert(hash@ =~= hex_decoded(digits@));
    Ok(hash)
}

/// The text of a state reads back as that state.
pub proof fn law_parse_after_fmt(bytes: Seq<u8>)
    ensures
        ({
            let digits = vstd::utf8::encode_utf8(hex_text(bytes));
            &&& digits.len() == 2 * bytes.len()
            &&& all_hex(digits)
            &&& hex_decoded(digits) == bytes
        }),
{
    let text = hex_text(bytes);
    assert forall|i: int| 0 <= i < text.len() implies (#[trigger] text[i]) as nat <= 0x7f by {}
    vstd::utf8::is_ascii_chars_encode_utf8(text);
    let digits = vstd::utf8::encode_utf8(text);
    assert forall|i: int| 0 <= i < digits.len() implies hex_value(#[trigger] digits[i]) == Some(
        if i % 2 == 0 {
            (bytes[i / 2] / 16) as u8
        } else {
            (bytes[i / 2] % 16) as u8
        },
    ) by {
        assert(digits[i] == text[i] as u8);
    }
    assert forall|i: int| 0 <= i < bytes.len() implies #[trigger] hex_decoded(digits)[i]
        == bytes[i] by {
        assert(hex_value(digits[2 * i]) == Some((bytes[i] / 16) as u8));
        assert(hex_value(digits[2 * i + 1]) == Some((bytes[i] % 16) as u8));
    }
    assert(hex_decoded(digits) =~= bytes);
}

/// What is read from hexadecimal digits is written with the same digits, in upper case.
pub proof fn law_fmt_after_parse(digits: Seq<u8>, i: int)
    requires
        digits.len() % 2 == 0,
        all_hex(digits),
        0 <= i < digits.len(),
    ensures
        hex_text(hex_decoded(digits)).len() == digits.len(),
        hex_text(hex_decoded(digits))[i] == hex_char(hex_value(digits[i])->Some_0 as nat),
{
    let k = i / 2;
    assert(hex_value(digits[2 * k]) is Some);
    assert(hex_value(digits[2 * k + 1]) is Some);
}

/// The number that a digit stands for, in decimal or in upper case hexadecimal writing.
pub open spec fn digit_value(c: char) -> int {
    if '0' <= c <= '9' {
        c as int - '0' as int
    } else if 'A' <= c <= 'F' {
        c as int - 'A' as int + 10
    } else {
        -1
    }
}

/// The number that digits of the given base stand for, by their positions.
pub open spec fn positional_value(digits: Seq<char>, base: int) -> int
    decreases digits.len(),
{
    if digits.len() == 0 {
        0
    } else {
        positional_value(digits.drop_last(), base) * base + digit_value(digits.last())
    }
}

/// The text of a number reads back as that number: it consists of decimal digits, these stand
/// for the number by their positions, and the first one is no zero unless it is the only one.
pub proof fn law_decimal_reads_back(n: nat)
    ensures
        decimal_text(n).len() >= 1,
        forall|i: int| 0 <= i < decimal_text(n).len() ==> '0' <= #[trigger] decimal_text(n)[i] <= '9',
        positional_value(decimal_text(n), 10) == n,
        decimal_text(n)[0] == '0' ==> n == 0 && decimal_text(n).len() == 1,
    decreases n,
{
    let text = decimal_text(n);
    reveal_with_fuel(positional_value, 2);
    if n >= 10 {
        law_decimal_reads_back(n / 10);
        assert(text.drop_last() =~= decimal_text(n / 10));
        assert(text[0] == decimal_text(n / 10)[0]);
        assert forall|i: int| 0 <= i < text.len() implies '0' <= #[trigger] text[i] <= '9' by {
            if i < text.len() - 1 {
                assert(text[i] == decimal_text(n / 10)[i]);
            }
        }
    } else {
        assert(text.drop_last() =~= Seq::<char>::empty());
    }
}

/// Different numbers have different texts.
pub proof fn law_decimal_tells_numbers_apart(a: nat, b: nat)
    ensures
        decimal_text(a) == decimal_text(b) ==> a == b,
{
    law_decimal_reads_back(a);
    law_decimal_reads_back(b);
}

/// The digits of bytes are those of the first ones and then those of the others.
pub proof fn law_hex_of_parts(first: Seq<u8>, rest: Seq<u8>)
    ensures
        hex_text(first + rest) == hex_text(first) + hex_text(rest),
{
    let all = first + rest;
    assert forall|i: int| 0 <= i < 2 * all.len() implies hex_text(all)[i] == (hex_text(first)
        + hex_text(rest))[i] by {
        let f = 2 * first.len() as int;
        if i < f {
            assert(all[i / 2] == first[i / 2]);
        } else {
            assert((i - f) / 2 == i / 2 - first.len());
            assert((i - f) % 2 == i % 2);
            assert(all[i / 2] == rest[(i - f) / 2]);
        }
    }
    assert(hex_text(all) =~= hex_text(first) + hex_text(rest));
}

/// A byte is written with two hexadecimal digits in upper case, which stand for it by their
/// positions.
pub proof fn law_hex_reads_back(byte: u8)
    ensures
        hex_text(seq![byte]).len() == 2,
        forall|i: int|
            0 <= i < 2 ==> 0 <= digit_value(#[trigger] hex_text(seq![byte])[i]) < 16,
        positional_value(hex_text(seq![byte]), 16) == byte,
{
    let text = hex_text(seq![byte]);
    reveal_with_fuel(positional_value, 3);
    assert(text.drop_last().drop_last() =~= Seq::<char>::empty());
    assert(text[0] == hex_char((byte / 16) as nat));
    assert(text[1] == hex_char((byte % 16) as nat));
}

/// What is read from digits is read from the first pairs and then from the others.
pub proof fn law_decoded_of_parts(first: Seq<u8>, rest: Seq<u8>)
    requires
        first.len() % 2 == 0,
        rest.len() % 2 == 0,
    ensures
        hex_decoded(first + rest) == hex_decoded(first) + hex_decoded(rest),
{
    let all = first + rest;
    let f = first.len() as int / 2;
    assert forall|i: int| 0 <= i < all.len() / 2 implies hex_decoded(all)[i] == (hex_decoded(first)
        + hex_decoded(rest))[i] by {
        if i < f {
            assert(all[2 * i] == first[2 * i] && all[2 * i + 1] == first[2 * i + 1]);
        } else {
            let j = i - f;
            assert(all[2 * i] == rest[2 * j] && all[2 * i + 1] == rest[2 * j + 1]);
        }
    }
    assert(hex_decoded(all) =~= hex_decoded(first) + hex_decoded(rest));
}

/// A pair of digits is read as sixteen times what the first one is worth and what the second
/// one is worth.
pub proof fn law_decoded_pair(high: u8, low: u8)
    requires
        hex_value(high) is Some,
        hex_value(low) is Some,
    ensures
        hex_decoded(seq![high, low]).len() == 1,
        hex_decoded(seq![high, low])[0] == 16 * hex_value(high)->Some_0 + hex_value(low)->Some_0,
{
}

/// A digit is worth the same in upper and in lower case, digits are worth their place in
/// `0` to `9` and `a` to `f`, and nothing else is worth anything.
pub proof fn law_hex_digits(byte: u8)
    ensures
        'A' as u8 <= byte <= 'F' as u8 ==> hex_value(byte) == hex_value((byte + 32) as u8),
        hex_value(byte) matches Some(value) ==> {
            let upper = if byte >= 'a' as u8 {
                (byte - 32) as u8
            } else {
                byte
            };
            &&& value < 16
            &&& digit_value(upper as char) == value
        },
        hex_value(byte) is None <==> !('0' as u8 <= byte <= '9' as u8) && !('a' as u8 <= byte
            <= 'f' as u8) && !('A' as u8 <= byte <= 'F' as u8),
{
}

/// A text that holds anything but digits is refused at one place only: all before it are
/// digits, and it is none.
pub proof fn law_refused_at_the_first(bytes: Seq<u8>)
    ensures
        all_hex(bytes) <==> forall|i: int|
            0 <= i < bytes.len() ==> hex_value(#[trigger] bytes[i]) is Some,
        all_hex(bytes) <==> !exists|at: int| #[trigger] first_not_hex(bytes, at),
        forall|at: int, i: int|
            #[trigger] first_not_hex(bytes, at) && 0 <= i <= at ==> at < bytes.len() && (hex_value(
                #[trigger] bytes[i],
            ) is None <==> i == at),
{
    if !all_hex(bytes) {
        let bad = choose|i: int| 0 <= i < bytes.len() && hex_value(#[trigger] bytes[i]) is None;
        lemma_first_exists(bytes, bad);
    }
    assert forall|at: int| #[trigger] first_not_hex(bytes, at) implies !all_hex(bytes) by {
        assert(hex_value(bytes[at]) is None);
    }
}

proof fn lemma_first_exists(bytes: Seq<u8>, bad: int)
    requires
        0 <= bad < bytes.len(),
        hex_value(bytes[bad]) is None,
    ensures
        exists|at: int| #[trigger] first_not_hex(bytes, at),
    decreases bad,
{
    if exists|i: int| 0 <= i < bad && hex_value(#[trigger] bytes[i]) is None {
        let i = choose|i: int| 0 <= i < bad && hex_value(#[trigger] bytes[i]) is None;
        lemma_first_exists(bytes, i);
    } else {
        assert(first_not_hex(bytes, bad));
    }
}

} // verus!
