use pd2tools::filesystem::teststub::{StaticFile, TestDir, TestFs, TestHandle};
use pd2tools::filesystem::transcoder::{
    backing_path, backing_stream, conversion_for, displayed_entries, displayed_name, transcode_rules,
    Transcode, TranscodedHandle, TranscoderFs,
};
use pd2tools::filesystem::{FsDirEntry, FsError, FsReadHandle, ReadOnlyFs};
use pd2tools::hashindex::HashIndex;
use std::sync::Arc;
use std::time::SystemTime;

#[test]
fn rule_table_has_the_renames_first() {
    let rules = transcode_rules();
    assert_eq!(rules.len(), 26);
    assert_eq!((rules[0].backing_extension, rules[0].displayed_extension), (".movie", ".bink"));
    assert_eq!((rules[1].backing_extension, rules[1].displayed_extension), (".texture", ".dds"));
    assert_eq!((rules[2].backing_extension, rules[2].displayed_extension), (".stream", ".wem"));
    assert!(rules.iter().skip(3).all(|r| r.backing_extension == r.displayed_extension && r.transformer.is_some()));
    assert!(rules.iter().all(|r| r.hide_original));
}

#[test]
fn displayed_paths_map_to_backing_paths() {
    assert_eq!(backing_path("\\units\\tex.dds"), (String::from("\\units\\tex.texture"), Some(1)));
    assert_eq!(backing_path("\\intro.bink"), (String::from("\\intro.movie"), Some(0)));
    assert_eq!(backing_path("\\sfx.wem"), (String::from("\\sfx.stream"), Some(2)));
    assert_eq!(backing_path("\\lvl\\mission.mission"), (String::from("\\lvl\\mission.mission"), Some(5)));
    assert_eq!(backing_path("\\lvl\\x.mission"), (String::from("\\lvl\\x.mission"), Some(18)));
    assert_eq!(backing_path("\\readme.txt"), (String::from("\\readme.txt"), None));
}

#[test]
fn backing_names_are_displayed_by_the_rules() {
    assert_eq!(displayed_name("tex.texture"), "tex.dds");
    assert_eq!(displayed_name("intro.movie"), "intro.bink");
    assert_eq!(displayed_name("sfx.stream"), "sfx.wem");
    assert_eq!(displayed_name("strings.strings"), "strings.strings");
    assert_eq!(displayed_name("plain.bink"), "plain.bink");
    assert_eq!(displayed_name("ä.texture"), "ä.dds");
}

#[test]
fn displayed_name_opens_the_backing_file() {
    for n in ["a.texture", "b.movie", "c.stream", "d.world_sounds", "e.world", "world.world", "f.txt"] {
        assert_eq!(backing_path(&displayed_name(n)).0, n);
    }
    // a name that ends with a displayed extension but no backing one does not
    assert_eq!(backing_path(&displayed_name("g.dds")).0, "g.texture");
}

#[test]
fn streams_and_conversions() {
    assert_eq!(backing_stream("raw"), "");
    assert_eq!(backing_stream(""), "");
    assert_eq!(backing_stream("info"), "info");
    assert_eq!(conversion_for("\\a.strings", ""), Some(Transcode::Strings));
    assert_eq!(conversion_for("\\a.banksinfo", ""), Some(Transcode::Banksinfo));
    assert_eq!(conversion_for("\\a.world", ""), Some(Transcode::ScriptdataGeneric));
    assert_eq!(conversion_for("\\a.dialog", ""), Some(Transcode::ScriptdataCustom));
    assert_eq!(conversion_for("\\a.strings", "raw"), None);
    assert_eq!(conversion_for("\\a.dds", ""), None);
}

#[test]
fn listings_show_displayed_names() {
    let entries = vec![
        FsDirEntry { is_dir: false, size: 4, modification_time: SystemTime::UNIX_EPOCH, name: String::from("a.texture") },
        FsDirEntry { is_dir: true, size: 0, modification_time: SystemTime::UNIX_EPOCH, name: String::from("units") },
    ];
    let shown = displayed_entries(entries);
    assert_eq!(shown.len(), 2);
    assert_eq!((shown[0].name.as_str(), shown[0].size, shown[0].is_dir), ("a.dds", 4, false));
    assert_eq!((shown[1].name.as_str(), shown[1].is_dir), ("units", true));
}

fn number_text(b: u32) -> String {
    f32::from_bits(b).to_string()
}

/// A string table with one entry: hash 1, value `hi`.
const ONE_STRING: &[u8] = b"\0\0\0\0\x01\0\0\0\0\0\0\0\0\0\0\0\0\0\0\0\0\0\0\0\0\0\0\0\0\0\0\0\
\0\0\0\0\0\0\0\0\x01\0\0\0\0\0\0\0\0\0\0\0\x38\0\0\0hi\0";

struct Backing;
impl ReadOnlyFs for Backing {
    type Handle = TestHandle;
    fn open_readable(&self, path: &str, stream: &str) -> Result<TestHandle, FsError> {
        match (path, stream) {
            ("\\menu.strings", "") => Ok(TestHandle::File(StaticFile { data: b"hello", timestamp: SystemTime::UNIX_EPOCH, file_id: 9 })),
            ("\\sound.banksinfo", "") => Ok(TestHandle::File(StaticFile { data: b"hello", timestamp: SystemTime::UNIX_EPOCH, file_id: 11 })),
            ("\\table.strings", "") => Ok(TestHandle::File(StaticFile { data: ONE_STRING, timestamp: SystemTime::UNIX_EPOCH, file_id: 12 })),
            ("\\tex.texture", "") => Ok(TestHandle::File(StaticFile { data: b"DDS ", timestamp: SystemTime::UNIX_EPOCH, file_id: 10 })),
            ("\\", "") => Ok(TestHandle::Dir(TestDir {})),
            _ => Err(FsError::NotFound),
        }
    }
}

#[test]
fn transcoder_fs_converts_renames_and_passes_through() {
    let fs = TranscoderFs::new(Arc::new(HashIndex::new()), Backing, number_text);
    // a sound bank list too short for its header shows why it cannot be read
    let converted = fs.open_readable("\\sound.banksinfo", "").unwrap();
    assert!(matches!(converted, TranscodedHandle::Converted(_)));
    let expect_bank = b"Err(SliceError(TryFromBytesError { offset: 8 }))";
    let mut buf = [0u8; 64];
    assert_eq!(converted.read_at(&mut buf, 0), Ok(expect_bank.len()));
    assert_eq!(&buf[..expect_bank.len()], expect_bank);
    assert_eq!(converted.get_file_info().unwrap().file_index, 11);

    // a string table is shown as JSON; bytes that are no table are corrupt
    let json = fs.open_readable("\\table.strings", "").unwrap();
    let expect = b"{\n  \"0000000000000001\": \"hi\"}\n";
    assert_eq!(json.len(), Some(expect.len()));
    let mut jbuf = [0u8; 64];
    assert_eq!(json.read_at(&mut jbuf, 0), Ok(expect.len()));
    assert_eq!(&jbuf[..expect.len()], expect);
    assert_eq!(json.get_file_info().unwrap().file_index, 12);
    assert!(matches!(fs.open_readable("\\menu.strings", ""), Err(FsError::FileCorrupt)));

    let raw = fs.open_readable("\\menu.strings", "raw").unwrap();
    assert!(matches!(raw, TranscodedHandle::Passed(_)));
    assert_eq!(raw.read_at(&mut buf, 0), Ok(5));
    assert_eq!(&buf[..5], b"hello");

    let renamed = fs.open_readable("\\tex.dds", "").unwrap();
    assert!(matches!(renamed, TranscodedHandle::Passed(_)));
    assert_eq!(renamed.len(), Some(4));

    let root = fs.open_readable("\\", "").unwrap();
    assert!(matches!(root, TranscodedHandle::Folder(_)));
    assert_eq!(root.find_files().unwrap()[0].name, "test.text");

    assert!(matches!(fs.open_readable("\\tex.bink", ""), Err(FsError::NotFound)));
    assert!(matches!(TranscoderFs::new(Arc::new(HashIndex::new()), TestFs {}, number_text).open_readable("\\nothing", ""), Err(FsError::NotFound)));
}
