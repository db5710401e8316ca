use pd2tools::diesel_hash::{from_str, hash_str, parse_flexibly, swap_bytes, EMPTY};

#[test]
fn empty_string_hashes_to_empty() {
    assert_eq!(hash_str(""), EMPTY);
    assert_eq!(EMPTY, 0x8db63936938575bf);
}

#[test]
fn known_idstrings() {
    assert_eq!(hash_str("texture"), 0x5368e150b05a5b8c);
    assert_eq!(hash_str("a"), 0x1d48fd74d88633ac);
    assert_eq!(hash_str("unit"), 0x7dbca958ad01668f);
}

#[test]
fn from_str_reads_printed_hashes() {
    assert_eq!(from_str("5368e150b05a5b8c"), 0x5368e150b05a5b8c);
    assert_eq!(from_str("texture"), hash_str("texture"));
    // fifteen digits is not a printed hash
    assert_eq!(from_str("368e150b05a5b8c"), hash_str("368e150b05a5b8c"));
    assert_eq!(from_str("+000000000000001"), hash_str("+000000000000001"));
}

#[test]
fn parse_flexibly_radix_and_id_syntax() {
    assert_eq!(parse_flexibly("ff", 16), Ok(255));
    assert_eq!(parse_flexibly("123", 10), Ok(123));
    assert_eq!(parse_flexibly("xyz", 10), Err(()));
    assert_eq!(parse_flexibly("abé0123456789abcdef", 16), Err(()));
    assert_eq!(parse_flexibly("@IDé123456789abcde@", 16), Err(()));
    assert_eq!(parse_flexibly("@ID0123456789abcdef@", 10), Ok(swap_bytes(0x0123456789abcdef)));
}
