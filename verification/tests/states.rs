use hash_loop::index::{embed_index, extract_index, next_index};
use hash_loop::state::{random_seed, same_hash, sha1_hash, truncate_hash, HASH_SIZE};
use hash_loop::text::{decimal, fmt_hash, hex_digit, parse_hash};
use hash_loop::words::{word_from_bytes, word_to_bytes};

#[test]
fn truncation_keeps_the_leading_bits() {
    let ones = [0xff; HASH_SIZE];
    let mut expected = [0; HASH_SIZE];
    assert_eq!(truncate_hash(ones, 0), expected);
    expected[0] = 0xff;
    expected[1] = 0xe0;
    assert_eq!(truncate_hash(ones, 11), expected);
    expected[1] = 0xff;
    assert_eq!(truncate_hash(ones, 16), expected);
    let mut most = ones;
    most[19] = 0xfe;
    assert_eq!(truncate_hash(ones, 159), most);
    assert_eq!(truncate_hash(ones, 160), ones);
    assert_eq!(truncate_hash(ones, 168), ones);
}

#[test]
fn truncating_twice_is_truncating_to_the_lesser() {
    let mut hash = [0; HASH_SIZE];
    for (i, byte) in hash.iter_mut().enumerate() {
        *byte = (i as u8) * 37 + 11;
    }
    for a in 0..=160 {
        for b in [0, 3, 8, 31, 32, 77, 160] {
            let twice = truncate_hash(truncate_hash(hash, a), b);
            assert_eq!(twice, truncate_hash(hash, a.min(b)));
        }
    }
}

#[test]
fn sha1_of_a_state() {
    let zero = [0; HASH_SIZE];
    assert_eq!(
        fmt_hash(&sha1_hash(&zero, 160)),
        "6768033E216468247BD031A0A2D9876D79818F8F"
    );
    assert_eq!(
        fmt_hash(&sha1_hash(&zero, 12)),
        "6760000000000000000000000000000000000000"
    );
}

#[test]
fn same_states() {
    let a = [5; HASH_SIZE];
    let mut b = a;
    assert!(same_hash(&a, &b));
    b[19] = 6;
    assert!(!same_hash(&a, &b));
    b = a;
    b[0] = 4;
    assert!(!same_hash(&a, &b));
}

#[test]
fn random_seeds_are_states() {
    let mut seen = Vec::new();
    for _ in 0..8 {
        let seed = random_seed(77);
        assert_eq!(truncate_hash(seed, 77), seed);
        assert!(!seen.contains(&seed));
        seen.push(seed);
    }
}

#[test]
fn indices_stand_at_the_left_end() {
    assert_eq!(
        fmt_hash(&embed_index(0xabc, 12)),
        "ABC0000000000000000000000000000000000000"
    );
    assert_eq!(
        fmt_hash(&embed_index(0x12345678, 32)),
        "1234567800000000000000000000000000000000"
    );
    assert_eq!(
        fmt_hash(&embed_index(1, 1)),
        "8000000000000000000000000000000000000000"
    );
    // what does not fit is lost
    assert_eq!(embed_index(0x1abc, 12), embed_index(0xabc, 12));
    assert_eq!(embed_index(0x12345678, 200), embed_index(0x12345678, 32));
}

#[test]
fn indices_are_read_back() {
    for bits in 1..=32u8 {
        let top = if bits == 32 { u32::MAX } else { (1 << bits) - 1 };
        for idx in [0, 1, top / 2, top] {
            let hash = embed_index(idx, bits);
            assert_eq!(extract_index(&hash, bits), idx);
            assert_eq!(truncate_hash(hash, bits), hash);
            assert_eq!(embed_index(extract_index(&hash, bits), bits), hash);
        }
    }
    assert_eq!(extract_index(&[0xff; HASH_SIZE], 200), u32::MAX);
    let digest = sha1_hash(&[0; HASH_SIZE], 160);
    for bits in 1..=32u8 {
        let named = embed_index(extract_index(&digest, bits), bits);
        assert_eq!(named, truncate_hash(digest, bits));
    }
}

#[test]
fn indices_follow_each_other_as_states_do() {
    assert_eq!(next_index(0, 32), 1734869822);
    assert_eq!(next_index(1, 32), 1377186757);
    assert_eq!(next_index(5, 12), 3340);
    let four: Vec<u32> = (0..16).map(|idx| next_index(idx, 4)).collect();
    assert_eq!(four, vec![6, 15, 6, 13, 9, 14, 2, 3, 7, 13, 5, 15, 5, 12, 2, 5]);
    for idx in 0..64 {
        let next = next_index(idx, 6);
        assert!(next < 64);
        assert_eq!(embed_index(next, 6), sha1_hash(&embed_index(idx, 6), 6));
    }
}

#[test]
fn words_are_most_significant_byte_first() {
    assert_eq!(word_from_bytes(0x12, 0x34, 0x56, 0x78), 0x12345678);
    assert_eq!(word_to_bytes(0x12345678), [0x12, 0x34, 0x56, 0x78]);
    for word in [0, 1, 0xff00ff, u32::MAX] {
        let bytes = word_to_bytes(word);
        assert_eq!(word_from_bytes(bytes[0], bytes[1], bytes[2], bytes[3]), word);
    }
}

#[test]
fn hexadecimal_digits() {
    for byte in 0..=255u8 {
        let expected = (byte as char).to_digit(16).map(|digit| digit as u8);
        assert_eq!(hex_digit(byte), expected);
    }
}

#[test]
fn states_are_written_in_upper_case() {
    assert_eq!(fmt_hash(&[0x0a, 0xff, 0x10]), "0AFF10");
    assert_eq!(fmt_hash(&[]), "");
}

#[test]
fn states_are_read_in_either_case() {
    let upper = "0123456789ABCDEF0123456789ABCDEF01234567";
    let lower = "0123456789abcdef0123456789abcdef01234567";
    let hash = parse_hash(upper).unwrap();
    assert_eq!(hash[7], 0xef);
    assert_eq!(parse_hash(lower), Ok(hash));
    assert_eq!(fmt_hash(&hash), upper);
    assert_eq!(parse_hash(&fmt_hash(&hash)), Ok(hash));
}

#[test]
fn other_lengths_are_refused() {
    let expected = Err("seed must contain 40 hexadecimal characters".to_string());
    assert_eq!(parse_hash(""), expected);
    assert_eq!(parse_hash(&"0".repeat(39)), expected);
    assert_eq!(parse_hash(&"0".repeat(41)), expected);
    // the length is counted in bytes
    assert_eq!(parse_hash(&"\u{e9}".repeat(40)), expected);
}

#[test]
fn other_characters_are_refused_at_their_position() {
    let mut text = "0".repeat(40);
    text.replace_range(7..8, "g");
    text.replace_range(30..31, "-");
    assert_eq!(
        parse_hash(&text),
        Err("invalid hexadecimal character at position 7".to_string())
    );
    let text = format!("{}x", "0".repeat(39));
    assert_eq!(
        parse_hash(&text),
        Err("invalid hexadecimal character at position 39".to_string())
    );
    assert_eq!(
        parse_hash(&"\u{e9}".repeat(20)),
        Err("invalid hexadecimal character at position 0".to_string())
    );
}

#[test]
fn numbers_in_decimal_digits() {
    for n in [0, 7, 10, 99, 100, 34359738368, u128::MAX] {
        assert_eq!(decimal(n), n.to_string());
    }
}
