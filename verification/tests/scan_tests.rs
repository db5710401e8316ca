use pd2tools::bundles::database::HashStrKey;
use pd2tools::diesel_hash::{hash_str, EMPTY};
use pd2tools::hashindex::HashedStr;
use pd2tools::hashlist_scan::{scanner_for, sorted_unique, wants_scan, ScanKind};

fn key<'a>(path: Option<&'a str>, ext: &str) -> HashStrKey<'a> {
    HashStrKey {
        path: HashedStr { hash: 1, text: path },
        language: HashedStr { hash: EMPTY, text: Some("") },
        extension: HashedStr { hash: hash_str(ext), text: None },
    }
}

#[test]
fn scan_picks_script_and_xml_files() {
    assert!(wants_scan(&key(None, "credits")));
    assert!(wants_scan(&key(None, "unit")));
    assert!(wants_scan(&key(None, "gui")));
    assert!(!wants_scan(&key(Some("x"), "texture")));
    // continents and worlds only where the path's text is known
    assert!(!wants_scan(&key(None, "continents")));
    assert!(wants_scan(&key(Some("levels/a/world"), "continents")));
    assert!(!wants_scan(&key(None, "world")));
    assert!(wants_scan(&key(Some("levels/a/world"), "world")));
}

#[test]
fn scanners_by_extension_text() {
    assert_eq!(scanner_for(Some("credits")), Some(ScanKind::Credits));
    assert_eq!(scanner_for(Some("scene")), Some(ScanKind::Scene));
    assert_eq!(scanner_for(Some("gui")), Some(ScanKind::Scene));
    assert_eq!(scanner_for(Some("continents")), Some(ScanKind::Continents));
    assert_eq!(scanner_for(Some("material_config")), Some(ScanKind::MaterialConfig));
    assert_eq!(scanner_for(Some("texture")), None);
    assert_eq!(scanner_for(None), None);
}

#[test]
fn found_strings_are_written_once_in_byte_order() {
    let found = vec![
        String::from("b"),
        String::from("a"),
        String::from("b"),
        String::from("ab"),
        String::from("B"),
        String::from("é"),
    ];
    assert_eq!(sorted_unique(found), vec!["B", "a", "ab", "b", "é"]);
    assert!(sorted_unique(Vec::new()).is_empty());
}
