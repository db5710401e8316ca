use pd2tools::filesystem::teststub::{StaticFile, TestFs, TestHandle};
use pd2tools::filesystem::{FsError, FsReadHandle, ReadOnlyFs};
use std::time::SystemTime;

#[test]
fn test_file_main_stream_reads_its_text() {
    let fs = TestFs {};
    let h = fs.open_readable("\\test.txt", "").unwrap();
    assert!(!h.is_dir());
    assert_eq!(h.len(), Some(35));
    let mut buf = [0u8; 64];
    assert_eq!(h.read_at(&mut buf, 0), Ok(35));
    assert_eq!(&buf[..35], b"Be alert, your country needs lerts.");
    assert!(buf[35..].iter().all(|b| *b == 0));
}

#[test]
fn test_file_raw_stream_reads_hello() {
    let fs = TestFs {};
    let h = fs.open_readable("\\test.txt", "raw").unwrap();
    let mut buf = [7u8; 5];
    assert_eq!(h.read_at(&mut buf, 6), Ok(5));
    assert_eq!(&buf, b"World");
    let info = h.get_file_info().unwrap();
    assert_eq!(info.file_size, 12);
    assert_eq!(info.file_index, 1);
    assert!(!info.is_dir && info.read_only);
}

#[test]
fn reads_stop_at_the_end_and_fail_past_it() {
    let f = StaticFile { data: b"abcdef", timestamp: SystemTime::UNIX_EPOCH, file_id: 3 };
    let mut buf = [9u8; 4];
    assert_eq!(f.read_at(&mut buf, 4), Ok(2));
    assert_eq!(buf, [b'e', b'f', 9, 9]);
    assert_eq!(f.read_at(&mut buf, 6), Ok(0));
    assert_eq!(f.read_at(&mut buf, 7), Err(FsError::PastEnd));
    assert_eq!(f.read_at(&mut buf, u64::MAX), Err(FsError::PastEnd));
    assert_eq!(buf, [b'e', b'f', 9, 9]);
}

#[test]
fn static_file_lists_two_streams() {
    let f = StaticFile { data: b"abcdef", timestamp: SystemTime::UNIX_EPOCH, file_id: 3 };
    let streams = f.list_streams().unwrap();
    assert_eq!(streams.len(), 2);
    assert_eq!((streams[0].name.as_str(), streams[0].size), ("", 6));
    assert_eq!((streams[1].name.as_str(), streams[1].size), ("raw", 12));
    assert!(matches!(f.find_files(), Err(FsError::NotDirectory)));
}

#[test]
fn root_lists_the_test_file() {
    let fs = TestFs {};
    let h = fs.open_readable("\\", "").unwrap();
    assert!(matches!(h, TestHandle::Dir(_)));
    assert!(h.is_dir());
    assert_eq!(h.len(), None);
    let entries = h.find_files().unwrap();
    assert_eq!(entries.len(), 1);
    assert_eq!(entries[0].name, "test.text");
    assert_eq!(entries[0].size, 35);
    assert!(!entries[0].is_dir);
    let mut buf = [0u8; 2];
    assert_eq!(h.read_at(&mut buf, 0), Err(FsError::IsDirectory));
    assert!(matches!(h.list_streams(), Err(FsError::IsDirectory)));
    assert!(h.get_file_info().unwrap().is_dir);
}

#[test]
fn other_paths_and_streams_are_not_found() {
    let fs = TestFs {};
    assert!(matches!(fs.open_readable("\\test.txt", "info"), Err(FsError::NotFound)));
    assert!(matches!(fs.open_readable("\\other.txt", ""), Err(FsError::NotFound)));
    assert!(matches!(fs.open_readable("test.txt", ""), Err(FsError::NotFound)));
}
