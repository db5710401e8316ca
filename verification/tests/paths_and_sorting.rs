use pd2tools::bundles::database::HashStrKey;
use pd2tools::diesel_hash::{from_str, hash_str, EMPTY};
use pd2tools::filesystem::raw_bundledb::{key_to_name, split_last_dot, split_path_to_key};
use pd2tools::hashindex::{hex16_string, HashIndex};
use pd2tools::sorting::{shortlex_compare, sort_positions};

#[test]
fn split_last_dot_respects_the_limit() {
    assert_eq!(split_last_dot("a/b.c", 1), ("a/b", "c"));
    assert_eq!(split_last_dot("a.b/c", 3), ("a.b/c", ""));
    assert_eq!(split_last_dot("noext", 0), ("noext", ""));
    assert_eq!(split_last_dot("x.", 0), ("x", ""));
}

#[test]
fn paths_split_into_keys() {
    assert_eq!(split_path_to_key("units/foo.texture"), (hash_str("units/foo"), EMPTY, hash_str("texture")));
    assert_eq!(
        split_path_to_key("units/foo.english.texture"),
        (hash_str("units/foo"), hash_str("english"), hash_str("texture"))
    );
    assert_eq!(split_path_to_key("a.b/c"), (hash_str("a.b/c"), EMPTY, EMPTY));
    assert_eq!(
        split_path_to_key("0123456789abcdef.texture"),
        (from_str("0123456789abcdef"), EMPTY, hash_str("texture"))
    );
}

#[test]
fn names_of_items() {
    let mut h = HashIndex::new();
    h.load_blob(String::from("units/foo\ntexture\nenglish\nunits/a.b"));
    let plain = HashStrKey::from_hashes(&h, (hash_str("units/foo"), EMPTY, hash_str("texture")));
    assert_eq!(key_to_name(&plain), "foo.texture");
    let lang = HashStrKey::from_hashes(&h, (hash_str("units/foo"), hash_str("english"), hash_str("texture")));
    assert_eq!(key_to_name(&lang), "foo.english.texture");
    let dotted = HashStrKey::from_hashes(&h, (hash_str("units/a.b"), EMPTY, EMPTY));
    assert_eq!(key_to_name(&dotted), "a.b..");
    let unknown = HashStrKey::from_hashes(&h, (hash_str("units/foo"), EMPTY, 0x99));
    assert_eq!(key_to_name(&unknown), format!("foo.{}", hex16_string(0x99)));
}

#[test]
fn dotted_and_unknown_names_read_back_as_keys() {
    let mut h = HashIndex::new();
    h.load_blob(String::from("units/a.b\nenglish\nunit"));
    let keys = [
        (hash_str("units/a.b"), hash_str("english"), hash_str("unit")),
        (hash_str("units/a.b"), EMPTY, EMPTY),
        (hash_str("units/a.b"), 0x1234, hash_str("unit")),
        (0x77, hash_str("english"), 0x88),
        (hash_str("units/a.b"), hash_str("english"), EMPTY),
    ];
    for k in keys {
        let key = HashStrKey::from_hashes(&h, k);
        let name = key_to_name(&key);
        let full = if k.0 == 0x77 { name } else { format!("units/{}", name) };
        assert_eq!(split_path_to_key(&full), k, "{}", full);
    }
}

#[test]
fn names_read_back_as_keys() {
    // a name without dots in its path reads back as the key it came from
    let mut h = HashIndex::new();
    h.load_blob(String::from("units/foo\ntexture\nenglish"));
    let k = HashStrKey::from_hashes(&h, (hash_str("units/foo"), hash_str("english"), hash_str("texture")));
    let full = format!("units/{}", key_to_name(&k));
    assert_eq!(split_path_to_key(&full), (hash_str("units/foo"), hash_str("english"), hash_str("texture")));
}

#[test]
fn dotted_names_read_back_as_keys() {
    let mut h = HashIndex::new();
    h.load_blob(String::from("units/a.b\ntexture"));
    let k = HashStrKey::from_hashes(&h, (hash_str("units/a.b"), EMPTY, hash_str("texture")));
    let full = format!("units/{}", key_to_name(&k));
    assert_eq!(full, "units/a.b..texture");
    assert_eq!(split_path_to_key(&full), (hash_str("units/a.b"), EMPTY, hash_str("texture")));
}

#[test]
fn language_without_extension_reads_back() {
    let mut h = HashIndex::new();
    h.load_blob(String::from("units/foo\nenglish"));
    let k = HashStrKey::from_hashes(&h, (hash_str("units/foo"), hash_str("english"), EMPTY));
    let full = format!("units/{}", key_to_name(&k));
    assert_eq!(full, "units/foo.english.");
    assert_eq!(split_path_to_key(&full), (hash_str("units/foo"), hash_str("english"), EMPTY));
}

#[test]
fn shortlex_order() {
    assert_eq!(shortlex_compare(&[5], &[1, 2]), -1);
    assert_eq!(shortlex_compare(&[1, 3], &[1, 2]), 1);
    assert_eq!(shortlex_compare(&[1, 2], &[1, 2]), 0);
    assert_eq!(shortlex_compare(&[], &[0]), -1);
}

#[test]
fn sorting_is_stable() {
    let keys = vec![vec![3u64], vec![1], vec![3], vec![], vec![1, 0]];
    assert_eq!(sort_positions(&keys), vec![3, 1, 0, 2, 4]);
    let empty: Vec<Vec<u64>> = Vec::new();
    assert!(sort_positions(&empty).is_empty());
}
