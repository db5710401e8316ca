use pd2tools::diesel_hash::{hash_str, EMPTY};
use pd2tools::formats::string_table::{bytes_to_json, map_from_bytes, string_table_readable};
use pd2tools::hashindex::HashIndex;

/// A string table with the given entries; each value is written after the
/// entries, zero-terminated, unless its offset is given.
fn table(entries: &[(u64, &[u8])]) -> Vec<u8> {
    let mut v = vec![0u8; 32 + 24 * entries.len()];
    v[4..8].copy_from_slice(&(entries.len() as u32).to_le_bytes());
    for (i, (hash, value)) in entries.iter().enumerate() {
        let base = 32 + 24 * i;
        let start = v.len() as u32;
        v[base + 8..base + 16].copy_from_slice(&hash.to_le_bytes());
        v[base + 20..base + 24].copy_from_slice(&start.to_le_bytes());
        v.extend_from_slice(value);
        v.push(0);
    }
    v
}

fn hashlist() -> HashIndex {
    let mut h = HashIndex::new();
    h.load_blob(String::from("menu_title\nmenu_back\nanything"));
    h
}

#[test]
fn string_table_pairs_come_in_text_order() {
    let bytes = table(&[(hash_str("menu_title"), b"Title"), (hash_str("menu_back"), b"Back")]);
    assert!(string_table_readable(&bytes));
    let hl = hashlist();
    let m = map_from_bytes(&hl, &bytes);
    assert_eq!(m.len(), 2);
    assert_eq!((m[0].0.text, m[0].1.as_str()), (Some("menu_back"), "Back"));
    assert_eq!((m[1].0.text, m[1].1.as_str()), (Some("menu_title"), "Title"));
    assert_eq!(m[1].0.hash, hash_str("menu_title"));
}

#[test]
fn string_table_skips_unused_and_keeps_last_value() {
    let unknown_lo = 5u64;
    let unknown_hi = 9u64;
    let bytes = table(&[
        (unknown_hi, b"nine"),
        (EMPTY, b"ignored"),
        (hash_str("anything"), b"first"),
        (unknown_lo, b"five"),
        (hash_str("anything"), b"second"),
    ]);
    let hl = hashlist();
    let m = map_from_bytes(&hl, &bytes);
    let got: Vec<(u64, Option<&str>, &str)> = m.iter().map(|(k, v)| (k.hash, k.text, v.as_str())).collect();
    assert_eq!(
        got,
        vec![
            (hash_str("anything"), Some("anything"), "second"),
            (unknown_lo, None, "five"),
            (unknown_hi, None, "nine"),
        ]
    );
}

#[test]
fn string_table_values_stop_at_zero_or_end_and_read_lossily() {
    let mut bytes = table(&[(hash_str("menu_title"), b"ok")]);
    // value of the first entry: invalid UTF-8, then the end of the bytes
    let start = bytes.len() as u32;
    bytes[32 + 20..32 + 24].copy_from_slice(&start.to_le_bytes());
    bytes.extend_from_slice(&[b'a', 0xff, b'b']);
    let hl = hashlist();
    let m = map_from_bytes(&hl, &bytes);
    assert_eq!(m[0].1, "a\u{fffd}b");

    let empty_value = table(&[(hash_str("menu_back"), b"")]);
    assert_eq!(map_from_bytes(&hl, &empty_value)[0].1, "");
}

#[test]
fn string_table_readability() {
    assert!(!string_table_readable(&[0u8; 7]));
    assert!(string_table_readable(&[0u8; 8]));
    let mut bytes = table(&[(hash_str("menu_back"), b"x")]);
    assert!(string_table_readable(&bytes));
    bytes[32 + 20..32 + 24].copy_from_slice(&1000u32.to_le_bytes());
    assert!(!string_table_readable(&bytes));
    // a count that runs past the end
    let mut short = vec![0u8; 40];
    short[4] = 1;
    assert!(!string_table_readable(&short));
    // an unused last entry only needs its hash to fit
    let mut unused = vec![0u8; 48];
    unused[4] = 1;
    unused[40..48].copy_from_slice(&EMPTY.to_le_bytes());
    assert!(string_table_readable(&unused));
    assert!(map_from_bytes(&hashlist(), &unused).is_empty());
}

#[test]
fn string_table_as_json() {
    let bytes = table(&[(hash_str("menu_title"), b"Say \"hi\"\n\x01"), (7, b"C:\\x")]);
    let hl = hashlist();
    let out = bytes_to_json(&hl, &bytes);
    let text = String::from_utf8(out).unwrap();
    assert_eq!(text, "{\n  \"menu_title\": \"Say \\\"hi\\\"\\n\\u0001\",\n  \"0000000000000007\": \"C:\\\\x\"}\n");
}

#[test]
fn empty_string_table_as_json() {
    let bytes = table(&[]);
    let out = bytes_to_json(&HashIndex::new(), &bytes);
    assert_eq!(out, b"{\n  }\n".to_vec());
}
