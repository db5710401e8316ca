use std::path::PathBuf;
use std::sync::Arc;
use std::time::SystemTime;

use pd2tools::bundles::bundledb_reader::{bundle_db_fits, read_bundle_db, BundleDbFile, FileEntry, LanguageEntry};
use pd2tools::bundles::database::{
    file_ids_resolved, from_bdb, languages_resolved, HashKey, HashStrKey, ItemType,
};
use pd2tools::bundles::loader::{file_info_for_name, ParsedBundle};
use pd2tools::bundles::packageheader_reader::{read_multi, read_normal, PackageHeaderEntry, PackageHeaderFile};
use pd2tools::diesel_hash::{hash_str, swap_bytes, EMPTY};
use pd2tools::filesystem::raw_bundledb::{forwards_path, BundleFs, BundleHandle};
use pd2tools::filesystem::{FsError, FsReadHandle};
use pd2tools::hashindex::HashIndex;

fn push32(v: &mut Vec<u8>, x: u32) {
    v.extend_from_slice(&x.to_le_bytes());
}

fn push64(v: &mut Vec<u8>, x: u64) {
    v.extend_from_slice(&x.to_le_bytes());
}

/// A bundle database in the layout with the language count at offset 4.
fn sample_bdb_bytes() -> Vec<u8> {
    let mut v = Vec::new();
    push32(&mut v, 0xABCD); // tag
    push32(&mut v, 1); // language count
    push32(&mut v, 0);
    push32(&mut v, 40); // language offset
    push32(&mut v, 0);
    push32(&mut v, 0);
    push32(&mut v, 0);
    push32(&mut v, 2); // file count
    push32(&mut v, 0);
    push32(&mut v, 56); // file offset
    assert_eq!(v.len(), 40);
    push64(&mut v, hash_str("english"));
    push32(&mut v, 1);
    push32(&mut v, 0);
    for (ext, path, lang, id) in [("texture", "units/foo", 0u32, 10u32), ("texture", "units/bar", 1, 11)] {
        push64(&mut v, hash_str(ext));
        push64(&mut v, hash_str(path));
        push32(&mut v, lang);
        push32(&mut v, 0);
        push32(&mut v, id);
        push32(&mut v, 0);
    }
    v
}

#[test]
fn bundle_db_is_read() {
    let bytes = sample_bdb_bytes();
    assert!(bundle_db_fits(&bytes));
    assert!(!bundle_db_fits(&bytes[..60]));
    let bdb = read_bundle_db(&bytes);
    assert_eq!(bdb.tag, 0xABCD);
    assert_eq!(bdb.languages.len(), 1);
    assert_eq!(bdb.languages[0].hash, hash_str("english"));
    assert_eq!(bdb.languages[0].id, 1);
    assert_eq!(bdb.files.len(), 2);
    assert_eq!(bdb.files[1].path, hash_str("units/bar"));
    assert_eq!(bdb.files[1].extension, hash_str("texture"));
    assert_eq!(bdb.files[1].lang_id, 1);
    assert_eq!(bdb.files[1].file_id, 11);
}

#[test]
fn normal_package_header_with_lengths() {
    let mut v = Vec::new();
    push32(&mut v, 0); // reference offset
    push32(&mut v, 7); // unrelated word
    push32(&mut v, 2); // count
    push32(&mut v, 2); // count again
    push32(&mut v, 20); // offset, four short of the entries
    push32(&mut v, 0);
    for (id, off, len) in [(10u32, 0u32, 10u32), (11, 10, 5)] {
        push32(&mut v, id);
        push32(&mut v, off);
        push32(&mut v, len);
    }
    let h = read_normal(&v, 15).ok().unwrap();
    assert_eq!(h.entries.len(), 2);
    assert_eq!((h.entries[1].file_id, h.entries[1].offset, h.entries[1].length), (11, 10, 5));
}

#[test]
fn normal_package_header_unrecognised() {
    let mut v = Vec::new();
    for w in [0u32, 1, 2, 3, 4, 5] {
        push32(&mut v, w);
    }
    assert!(read_normal(&v, 0).is_err());
}

#[test]
fn multi_header_with_one_package() {
    let mut v = Vec::new();
    push32(&mut v, 0);
    push32(&mut v, 1); // record count
    push32(&mut v, 0);
    push32(&mut v, 0);
    push32(&mut v, 0);
    // record at 20: index, count, count, offset, 1
    push64(&mut v, 3);
    push32(&mut v, 1);
    push32(&mut v, 1);
    push64(&mut v, 48);
    push32(&mut v, 1);
    assert_eq!(v.len(), 48);
    push32(&mut v, 0); // four skipped bytes
    push32(&mut v, 10);
    push32(&mut v, 100);
    push32(&mut v, 20);
    let m = read_multi(&v).ok().unwrap();
    let p = m.bundles.get(&3).unwrap();
    assert_eq!((p.entries[0].file_id, p.entries[0].offset, p.entries[0].length), (10, 100, 20));
    assert!(m.bundles.get(&4).is_none());
}

fn sample_hashlist() -> HashIndex {
    let mut h = HashIndex::new();
    h.load_blob(String::from("units/foo\nunits/bar\ntexture\nenglish"));
    h
}

fn sample_packages() -> Vec<ParsedBundle> {
    vec![ParsedBundle {
        data_path: PathBuf::from("0123.bundle"),
        last_modified: SystemTime::UNIX_EPOCH,
        package_id: 77,
        header: PackageHeaderFile {
            entries: vec![
                PackageHeaderEntry { file_id: 11, offset: 10, length: 5 },
                PackageHeaderEntry { file_id: 10, offset: 0, length: 10 },
            ],
        },
    }]
}

#[test]
fn database_from_bundle_db() {
    let bdb = read_bundle_db(&sample_bdb_bytes());
    let packages = sample_packages();
    assert!(languages_resolved(&bdb));
    assert!(file_ids_resolved(&bdb, &packages));
    let db = from_bdb(sample_hashlist(), &bdb, &packages).expect("consistent input");

    let (items, folders, pkgs, root) = db.stats();
    assert_eq!((items, folders, pkgs, root), (4, 2, 1, true));

    let foo = db.get_by_str("units/foo", "", "texture").unwrap();
    assert!(matches!(foo.item_type(), ItemType::File));
    assert_eq!(foo.path().text, Some("units/foo"));
    assert!(foo.language().is_none());
    assert_eq!(foo.extension().unwrap().text, Some("texture"));
    assert_eq!(foo.data_len(), 10);
    let (path, offset, length) = foo.get_backing_details().unwrap();
    assert_eq!((path, offset, length), (&PathBuf::from("0123.bundle"), 0, 10));
    assert_eq!(foo.last_modified(), SystemTime::UNIX_EPOCH);

    let bar = db.get_by_str("units/bar", "english", "texture").unwrap();
    assert_eq!(bar.language().unwrap().text, Some("english"));
    assert_eq!(bar.data_len(), 5);
    assert!(db.get_by_str("units/bar", "", "texture").is_none());

    // the root is item 0; its only child is the folder `units`
    let root_item = db.get_by_hashes(EMPTY, EMPTY, EMPTY).unwrap();
    assert_eq!(root_item.item_index(), 0);
    assert!(matches!(root_item.item_type(), ItemType::Folder));
    assert_eq!(root_item.last_modified(), SystemTime::UNIX_EPOCH);
    let mut children = root_item.children();
    let units = children.next().unwrap();
    assert!(children.next().is_none());
    assert_eq!(units.path().text, Some("units"));
    assert!(matches!(units.item_type(), ItemType::Folder));
    assert_eq!(units.data_len(), 0);
    // the last folder the walk reaches is never closed, so it lists no children
    assert!(units.children().next().is_none());
}

#[test]
fn database_reads_in_physical_order() {
    let bdb = read_bundle_db(&sample_bdb_bytes());
    let packages = sample_packages();
    let db = from_bdb(sample_hashlist(), &bdb, &packages).unwrap();
    let packs = db.filter_key_sort_physical(|_k: HashStrKey| true);
    assert_eq!(packs.len(), 1);
    assert_eq!(packs[0].0, &PathBuf::from("0123.bundle"));
    let offsets: Vec<usize> = packs[0].1.iter().map(|r| r.offset).collect();
    assert_eq!(offsets, vec![0, 10]);
    let keys: Vec<HashKey> = packs[0].1.iter().map(|r| HashKey::from(r.key)).collect();
    assert_eq!(keys[0], HashKey { path: hash_str("units/foo"), language: EMPTY, extension: hash_str("texture") });
    let none = db.filter_key_sort_physical(|k: HashStrKey| k.language.hash == hash_str("french"));
    assert!(none.is_empty());
}

#[test]
fn shared_file_is_read_from_the_larger_package() {
    let bdb = read_bundle_db(&sample_bdb_bytes());
    let mut packages = sample_packages();
    // a small package that holds only `units/foo`, listed first
    packages.insert(
        0,
        ParsedBundle {
            data_path: PathBuf::from("small.bundle"),
            last_modified: SystemTime::UNIX_EPOCH,
            package_id: 78,
            header: PackageHeaderFile { entries: vec![PackageHeaderEntry { file_id: 10, offset: 40, length: 12 }] },
        },
    );
    let db = from_bdb(sample_hashlist(), &bdb, &packages).unwrap();
    let packs = db.filter_key_sort_physical(|_k: HashStrKey| true);
    assert_eq!(packs.len(), 1);
    assert_eq!(packs[0].0, &PathBuf::from("0123.bundle"));
    assert_eq!(packs[0].1.len(), 2);
    // keeping only `units/foo`, the small package has more of it (12 bytes to 10)
    let only_foo = db.filter_key_sort_physical(|k: HashStrKey| k.path.hash == hash_str("units/foo"));
    assert_eq!(only_foo.len(), 1);
    assert_eq!(only_foo[0].0, &PathBuf::from("small.bundle"));
    assert_eq!(only_foo[0].1[0].offset, 40);
}

#[test]
fn unresolved_ids_are_detected() {
    let bdb = BundleDbFile {
        tag: 0,
        languages: vec![LanguageEntry { hash: 1, id: 1 }],
        files: vec![FileEntry { extension: 0, path: 0, lang_id: 2, file_id: 5 }],
    };
    assert!(!languages_resolved(&bdb));
    let mut packages = sample_packages();
    assert!(!file_ids_resolved(&bdb, &packages));
    packages[0].header.entries = vec![PackageHeaderEntry { file_id: 5, offset: 0, length: 0 }];
    assert!(file_ids_resolved(&bdb, &packages));
}

#[test]
fn bundle_file_names() {
    let (header, idx, id) = file_info_for_name("all_7.bundle").unwrap();
    assert_eq!((header.as_str(), idx, id), ("all_h.bundle", Some(7), hash_str("all_7")));
    let (header, idx, id) = file_info_for_name("0123456789abcdef.bundle").unwrap();
    assert_eq!((header.as_str(), idx, id), ("0123456789abcdef_h.bundle", None, swap_bytes(0x0123456789abcdef)));
    assert!(file_info_for_name("all_h.bundle").is_none());
    assert!(file_info_for_name("notes.txt").is_none());
    assert!(file_info_for_name(".bundle").is_none());
}

#[test]
fn mounted_paths_use_forward_slashes() {
    assert_eq!(forwards_path("\\units\\foo.texture"), "units/foo.texture");
    assert_eq!(forwards_path("units\\foo"), "units/foo");
    assert_eq!(forwards_path("\\"), "");
    assert_eq!(forwards_path(""), "");
}

#[test]
fn bundle_fs_opens_files_and_folders() {
    let bdb = read_bundle_db(&sample_bdb_bytes());
    let db = from_bdb(sample_hashlist(), &bdb, &sample_packages()).unwrap();
    let fs = BundleFs::new(Arc::new(db));

    match fs.open_readable("\\units\\foo.texture", "") {
        Ok(BundleHandle::File(h)) => {
            assert_eq!((h.storage_offset, h.length), (0, 10));
            assert_eq!(h.storage_path, PathBuf::from("0123.bundle"));
            assert_eq!(h.len(), Some(10));
            assert_eq!(h.read_span(0, 4), Some((0, 4)));
            assert_eq!(h.read_span(8, 100), Some((8, 2)));
            assert_eq!(h.read_span(10, 4), None);
            assert_eq!(h.read_span(3, 0), None);
            let streams = h.list_streams().unwrap();
            assert_eq!((streams[0].name.as_str(), streams[0].size), ("", 10));
            let info = h.get_file_info().unwrap();
            assert_eq!((info.file_size, info.is_dir, info.file_index), (10, false, h.file_id));
            assert!(matches!(h.find_files(), Err(FsError::NotDirectory)));
        }
        _ => panic!("expected a file"),
    }
    match fs.open_readable("\\units\\bar.english.texture", "raw") {
        Ok(BundleHandle::File(h)) => {
            assert_eq!((h.storage_offset, h.length), (10, 5));
            assert_eq!(h.read_span(1, 10), Some((11, 4)));
        }
        _ => panic!("expected a file"),
    }
    assert!(matches!(fs.open_readable("\\units\\foo.texture", "info"), Err(FsError::NotFound)));
    assert!(matches!(fs.open_readable("\\units\\baz.texture", ""), Err(FsError::NotFound)));

    match fs.open_readable("\\", "") {
        Ok(BundleHandle::Folder(f)) => {
            assert!(f.is_dir());
            let entries = f.find_files().unwrap();
            assert_eq!(entries.len(), 1);
            assert_eq!(entries[0].name, "units");
            assert!(entries[0].is_dir);
            assert_eq!(entries[0].size, 0);
            let streams = f.list_streams().unwrap();
            assert_eq!((streams[0].name.as_str(), streams[0].size), ("info", 0));
            let mut buf = [0u8; 1];
            assert_eq!(f.read_at(&mut buf, 0), Err(FsError::IsDirectory));
            assert!(f.get_file_info().unwrap().is_dir);
        }
        _ => panic!("expected a folder"),
    }
    assert!(matches!(fs.open_readable("\\", "raw"), Err(FsError::NotFound)));
}
