use pd2tools::diesel_hash::{from_str, hash_str, EMPTY};
use pd2tools::hashindex::{hex16_string, is_hash_like, HashIndex};

#[test]
fn hex_strings_are_sixteen_digits() {
    assert_eq!(hex16_string(0x1234), "0000000000001234");
    assert_eq!(pd2tools::hashindex::Hash(0x5368e150b05a5b8c).to_hex_string(), "5368e150b05a5b8c");
    // the printed form reads back as the same hash
    assert_eq!(from_str(&hex16_string(0xdeadbeef)), 0xdeadbeef);
}

#[test]
fn hash_like_takes_sixteen_digits_or_letters() {
    assert!(is_hash_like("0123456788abcdef"));
    assert!(is_hash_like("0123456789abcdef"));
    assert!(is_hash_like("9999999999999999"));
    assert!(is_hash_like("zzzzZZZZ99990000"));
    assert!(!is_hash_like("0123456789abcde_"));
    assert!(!is_hash_like("short"));
}

#[test]
fn new_hashlist_knows_the_empty_string() {
    let h = HashIndex::new();
    assert_eq!(h.get_hash(EMPTY).text, Some(""));
    assert_eq!(h.get_hash(hash_str("texture")).text, None);
}

#[test]
fn blobs_are_searched_line_by_line() {
    let mut h = HashIndex::new();
    h.load_blob(String::from("units/foo\ntexture\r\nenglish"));
    assert_eq!(h.get_hash(hash_str("units/foo")).text, Some("units/foo"));
    assert_eq!(h.get_str("texture").text, Some("texture"));
    assert_eq!(h.get_str("english").text, Some("english"));
    assert_eq!(h.get_str("french").text, None);
}

#[test]
fn intern_adds_unknown_strings() {
    let mut h = HashIndex::new();
    let hs = h.intern(String::from("model"));
    assert_eq!(hs.hash, hash_str("model"));
    assert_eq!(hs.text, Some("model"));
    assert_eq!(h.get_str("model").text, Some("model"));
}

#[test]
fn intern_substring_from_a_blob_and_from_interned() {
    let mut h = HashIndex::new();
    h.load_blob(String::from("units/pd2/foo"));
    let sub = h.intern_substring(hash_str("units/pd2/foo"), 0..5);
    assert_eq!(sub, Some(from_str("units")));
    assert_eq!(h.get_hash(hash_str("units")).text, Some("units"));
    let _ = h.intern(String::from("a/b"));
    let sub2 = h.intern_substring(hash_str("a/b"), 0..1);
    assert_eq!(sub2, Some(hash_str("a")));
    assert_eq!(h.get_hash(hash_str("a")).text, Some("a"));
    assert_eq!(h.intern_substring(hash_str("nothing known"), 0..1), None);
}

#[test]
fn display_prefers_text_unless_it_looks_like_a_hash() {
    let mut h = HashIndex::new();
    h.load_blob(String::from("texture\n0123456788abcdef"));
    assert_eq!(h.get_str("texture").to_display_string(), "texture");
    assert_eq!(h.get_hash(0x42).to_display_string(), "0000000000000042");
    let hl = h.get_str("0123456788abcdef");
    assert_eq!(hl.to_display_string(), hex16_string(hash_str("0123456788abcdef")));
}

#[test]
fn unhash_queries_try_both_byte_orders() {
    let mut h = pd2tools::hashindex::HashIndex::new();
    h.load_blob(String::from("units/foo"));
    let foo = pd2tools::diesel_hash::hash_str("units/foo");
    let hex = format!("{:016x}", foo);
    let (le, be) = pd2tools::hashindex::unhash_query(&h, &hex, 16).ok().unwrap();
    assert_eq!((le.hash, le.text), (foo, Some("units/foo")));
    assert!(be.is_none());
    let swapped = format!("{:016x}", pd2tools::diesel_hash::swap_bytes(foo));
    let (le2, be2) = pd2tools::hashindex::unhash_query(&h, &swapped, 16).ok().unwrap();
    assert_eq!(le2.text, None);
    let be2 = be2.unwrap();
    assert_eq!((be2.hash, be2.text), (foo, Some("units/foo")));
    let decimal = format!("{}", foo);
    assert_eq!(pd2tools::hashindex::unhash_query(&h, &decimal, 10).ok().unwrap().0.hash, foo);
    assert!(pd2tools::hashindex::unhash_query(&h, "not a hash", 16).is_err());
    assert!(pd2tools::hashindex::unhash_query(&h, "@Iéabcdefghijklmnop", 16).is_err());
}
