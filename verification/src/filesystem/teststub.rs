//! A small filesystem with fixed contents, for trying out what mounts one:
//! a root folder that lists one text file, and that file with two streams.
use vstd::prelude::*;
use std::time::SystemTime;

use super::{
    bytes_equal, read_outcome, read_slice_at, FsDirEntry, FsError, FsFileInfo, FsReadHandle,
    FsStreamEntry, ReadOnlyFs,
};
use crate::bundles::unix_epoch;
use crate::text::bytes_of;

verus! {

/// A file whose bytes are held in memory.
pub struct StaticFile<'a> {
    pub data: &'a [u8],
    pub timestamp: SystemTime,
    pub file_id: u64,
}

/// The text of the test file's main stream.
pub open spec fn main_text() -> Seq<char> {
    "Be alert, your country needs lerts."@
}

/// The text of the test file's `raw` stream.
pub open spec fn raw_text() -> Seq<char> {
    "Hello World!"@
}

impl<'a> FsReadHandle for StaticFile<'a> {
    open spec fn is_dir_gives(&self, r: bool) -> bool {
        !r
    }

    open spec fn len_gives(&self, r: Option<usize>) -> bool {
        r == Some(self.data@.len() as usize)
    }

    open spec fn read_gives(&self, offset: u64, before: Seq<u8>, r: Result<usize, FsError>, after: Seq<u8>) -> bool {
        read_outcome(self.data@, offset, before, r, after)
    }

    open spec fn files_give(&self, r: Result<Vec<FsDirEntry>, FsError>) -> bool {
        r == Err::<Vec<FsDirEntry>, FsError>(FsError::NotDirectory)
    }

    open spec fn streams_give(&self, r: Result<Vec<FsStreamEntry>, FsError>) -> bool {
        r matches Ok(v) && v@.len() == 2 && v@[0].name@ == ""@ && v@[0].size == self.data@.len() as i64
            && v@[1].name@ == "raw"@ && v@[1].size as int == bytes_of("Hello World!").len()
    }

    open spec fn info_gives(&self, r: Result<FsFileInfo, FsError>) -> bool {
        r matches Ok(info) && !info.is_dir && info.read_only && info.file_size == self.data@.len()
            && info.file_index == self.file_id && info.creation_time == self.timestamp
            && info.last_write_time == self.timestamp && info.last_access_time == self.timestamp
            && info.number_of_links == 1
    }

    fn is_dir(&self) -> (r: bool)
        ensures
            !r,
    {
        false
    }

    fn len(&self) -> (r: Option<usize>)
        ensures
            r == Some(self.data@.len() as usize),
    {
        Some(self.data.len())
    }

    fn read_at(&self, buf: &mut [u8], offset: u64) -> (r: Result<usize, FsError>)
        ensures
            read_outcome(self.data@, offset, old(buf)@, r, final(buf)@),
    {
        read_slice_at(self.data, buf, offset)
    }

    fn find_files(&self) -> (r: Result<Vec<FsDirEntry>, FsError>)
        ensures
            r == Err::<Vec<FsDirEntry>, FsError>(FsError::NotDirectory),
    {
        Err(FsError::NotDirectory)
    }

    /// The main stream, of the file's length, and the `raw` stream, of the
    /// length of its fixed text.
    fn list_streams(&self) -> (r: Result<Vec<FsStreamEntry>, FsError>)
        ensures
            r matches Ok(v) && v@.len() == 2 && v@[0].name@ == ""@ && v@[0].size
                == self.data@.len() as i64 && v@[1].name@ == "raw"@ && v@[1].size as int
                == bytes_of("Hello World!").len(),
    {
        let raw_len = "Hello World!".as_bytes().len();
        proof {
            reveal_strlit("Hello World!");
            assert(vstd::string::is_ascii("Hello World!"));
            vstd::string::is_ascii_spec_bytes("Hello World!");
        }
        let mut v: Vec<FsStreamEntry> = Vec::new();
        v.push(FsStreamEntry { name: String::from_str(""), size: self.data.len() as i64 });
        v.push(FsStreamEntry { name: String::from_str("raw"), size: raw_len as i64 });
        Ok(v)
    }

    fn get_file_info(&self) -> (r: Result<FsFileInfo, FsError>)
        ensures
            r matches Ok(info) && !info.is_dir && info.read_only && info.file_size
                == self.data@.len() && info.file_index == self.file_id && info.creation_time
                == self.timestamp && info.last_write_time == self.timestamp
                && info.last_access_time == self.timestamp && info.number_of_links == 1,
    {
        Ok(
            FsFileInfo {
                is_dir: false,
                read_only: true,
                file_size: self.data.len() as u64,
                file_index: self.file_id,
                creation_time: self.timestamp,
                last_write_time: self.timestamp,
                last_access_time: self.timestamp,
                number_of_links: 1,
            },
        )
    }
}

/// The test filesystem.
pub struct TestFs {}

/// The root folder of the test filesystem.
pub struct TestDir {}

/// What the test filesystem opens: its file or its root folder.
pub enum TestHandle {
    File(StaticFile<'static>),
    Dir(TestDir),
}

impl FsReadHandle for TestDir {
    open spec fn is_dir_gives(&self, r: bool) -> bool {
        r
    }

    open spec fn len_gives(&self, r: Option<usize>) -> bool {
        r is None
    }

    open spec fn read_gives(&self, offset: u64, before: Seq<u8>, r: Result<usize, FsError>, after: Seq<u8>) -> bool {
        r == Err::<usize, FsError>(FsError::IsDirectory) && after == before
    }

    open spec fn files_give(&self, r: Result<Vec<FsDirEntry>, FsError>) -> bool {
        r matches Ok(v) && v@.len() == 1 && v@[0].name@ == "test.text"@ && !v@[0].is_dir && v@[0].size
            == bytes_of("Be alert, your country needs lerts.").len()
    }

    open spec fn streams_give(&self, r: Result<Vec<FsStreamEntry>, FsError>) -> bool {
        r == Err::<Vec<FsStreamEntry>, FsError>(FsError::IsDirectory)
    }

    open spec fn info_gives(&self, r: Result<FsFileInfo, FsError>) -> bool {
        r matches Ok(info) && info.is_dir && info.read_only && info.file_size == 0 && info.file_index == 0
            && info.number_of_links == 1
    }

    fn is_dir(&self) -> (r: bool)
        ensures
            r,
    {
        true
    }

    fn len(&self) -> (r: Option<usize>)
        ensures
            r is None,
    {
        None
    }

    fn read_at(&self, buf: &mut [u8], offset: u64) -> (r: Result<usize, FsError>)
        ensures
            r == Err::<usize, FsError>(FsError::IsDirectory),
            final(buf)@ == old(buf)@,
    {
        Err(FsError::IsDirectory)
    }

    /// One entry: the file `test.text`, of the length of the test file's
    /// main stream.
    fn find_files(&self) -> (r: Result<Vec<FsDirEntry>, FsError>)
        ensures
            r matches Ok(v) && v@.len() == 1 && v@[0].name@ == "test.text"@ && !v@[0].is_dir
                && v@[0].size == bytes_of("Be alert, your country needs lerts.").len(),
    {
        let size = "Be alert, your country needs lerts.".as_bytes().len() as u64;
        let mut v: Vec<FsDirEntry> = Vec::new();
        v.push(
            FsDirEntry {
                name: String::from_str("test.text"),
                is_dir: false,
                modification_time: unix_epoch(),
                size,
            },
        );
        Ok(v)
    }

    fn list_streams(&self) -> (r: Result<Vec<FsStreamEntry>, FsError>)
        ensures
            r == Err::<Vec<FsStreamEntry>, FsError>(FsError::IsDirectory),
    {
        Err(FsError::IsDirectory)
    }

    fn get_file_info(&self) -> (r: Result<FsFileInfo, FsError>)
        ensures
            r matches Ok(info) && info.is_dir && info.read_only && info.file_size == 0
                && info.file_index == 0 && info.number_of_links == 1,
    {
        Ok(
            FsFileInfo {
                is_dir: true,
                read_only: true,
                file_size: 0,
                file_index: 0,
                creation_time: unix_epoch(),
                last_write_time: unix_epoch(),
                last_access_time: unix_epoch(),
                number_of_links: 1,
            },
        )
    }
}

impl TestHandle {
    /// The bytes of the file, where this is the file.
    pub open spec fn file_bytes(&self) -> Option<Seq<u8>> {
        match self {
            TestHandle::File(f) => Some(f.data@),
            TestHandle::Dir(_) => None,
        }
    }
}

impl FsReadHandle for TestHandle {
    open spec fn is_dir_gives(&self, r: bool) -> bool {
        match self {
            TestHandle::File(f) => f.is_dir_gives(r),
            TestHandle::Dir(d) => d.is_dir_gives(r),
        }
    }

    open spec fn len_gives(&self, r: Option<usize>) -> bool {
        match self {
            TestHandle::File(f) => f.len_gives(r),
            TestHandle::Dir(d) => d.len_gives(r),
        }
    }

    open spec fn read_gives(&self, offset: u64, before: Seq<u8>, r: Result<usize, FsError>, after: Seq<u8>) -> bool {
        match self {
            TestHandle::File(f) => f.read_gives(offset, before, r, after),
            TestHandle::Dir(d) => d.read_gives(offset, before, r, after),
        }
    }

    open spec fn files_give(&self, r: Result<Vec<FsDirEntry>, FsError>) -> bool {
        match self {
            TestHandle::File(f) => f.files_give(r),
            TestHandle::Dir(d) => d.files_give(r),
        }
    }

    open spec fn streams_give(&self, r: Result<Vec<FsStreamEntry>, FsError>) -> bool {
        match self {
            TestHandle::File(f) => f.streams_give(r),
            TestHandle::Dir(d) => d.streams_give(r),
        }
    }

    open spec fn info_gives(&self, r: Result<FsFileInfo, FsError>) -> bool {
        match self {
            TestHandle::File(f) => f.info_gives(r),
            TestHandle::Dir(d) => d.info_gives(r),
        }
    }

    fn is_dir(&self) -> (r: bool)
        ensures
            r == (self is Dir),
    {
        match self {
            TestHandle::File(f) => f.is_dir(),
            TestHandle::Dir(d) => d.is_dir(),
        }
    }

    fn len(&self) -> (r: Option<usize>)
        ensures
            r == (match self.file_bytes() {
                Some(b) => Some(b.len() as usize),
                None => None,
            }),
    {
        match self {
            TestHandle::File(f) => f.len(),
            TestHandle::Dir(d) => d.len(),
        }
    }

    fn read_at(&self, buf: &mut [u8], offset: u64) -> (r: Result<usize, FsError>)
        ensures
            match self.file_bytes() {
                Some(b) => read_outcome(b, offset, old(buf)@, r, final(buf)@),
                None => r == Err::<usize, FsError>(FsError::IsDirectory) && final(buf)@
                    == old(buf)@,
            },
    {
        match self {
            TestHandle::File(f) => f.read_at(buf, offset),
            TestHandle::Dir(d) => d.read_at(buf, offset),
        }
    }

    fn find_files(&self) -> (r: Result<Vec<FsDirEntry>, FsError>)
        ensures
            self is File ==> r == Err::<Vec<FsDirEntry>, FsError>(FsError::NotDirectory),
            self is Dir ==> (r matches Ok(v) && v@.len() == 1 && v@[0].name@ == "test.text"@),
    {
        match self {
            TestHandle::File(f) => f.find_files(),
            TestHandle::Dir(d) => d.find_files(),
        }
    }

    fn list_streams(&self) -> (r: Result<Vec<FsStreamEntry>, FsError>)
        ensures
            self is File ==> (r matches Ok(v) && v@.len() == 2),
            self is Dir ==> r == Err::<Vec<FsStreamEntry>, FsError>(FsError::IsDirectory),
    {
        match self {
            TestHandle::File(f) => f.list_streams(),
            TestHandle::Dir(d) => d.list_streams(),
        }
    }

    fn get_file_info(&self) -> (r: Result<FsFileInfo, FsError>)
        ensures
            r matches Ok(info) && info.is_dir == (self is Dir),
    {
        match self {
            TestHandle::File(f) => f.get_file_info(),
            TestHandle::Dir(d) => d.get_file_info(),
        }
    }
}

impl ReadOnlyFs for TestFs {
    type Handle = TestHandle;

    open spec fn opens(&self, path: Seq<char>, stream: Seq<char>, r: Result<TestHandle, FsError>) -> bool {
        let p = vstd::utf8::encode_utf8(path);
        let s = vstd::utf8::encode_utf8(stream);
        if p == bytes_of("\\test.txt") {
            if s == bytes_of("") {
                r matches Ok(TestHandle::File(f)) && f.data@ == bytes_of("Be alert, your country needs lerts.")
                    && f.file_id == 1
            } else if s == bytes_of("raw") {
                r matches Ok(TestHandle::File(f)) && f.data@ == bytes_of("Hello World!") && f.file_id == 1
            } else {
                r == Err::<TestHandle, FsError>(FsError::NotFound)
            }
        } else if p == bytes_of("\\") {
            r matches Ok(TestHandle::Dir(_))
        } else {
            r == Err::<TestHandle, FsError>(FsError::NotFound)
        }
    }

    /// `\test.txt` opens the file, its main stream (`""`) or its `raw`
    /// stream, with file id 1; `\` opens the root folder; anything else is
    /// not found.
    fn open_readable(&self, path: &str, stream: &str) -> (r: Result<TestHandle, FsError>)
        ensures
            ({
                let p = bytes_of(path);
                let s = bytes_of(stream);
                if p == bytes_of("\\test.txt") {
                    if s == bytes_of("") {
                        r matches Ok(TestHandle::File(f)) && f.data@ == bytes_of(
                            "Be alert, your country needs lerts.",
                        ) && f.file_id == 1
                    } else if s == bytes_of("raw") {
                        r matches Ok(TestHandle::File(f)) && f.data@ == bytes_of("Hello World!")
                            && f.file_id == 1
                    } else {
                        r == Err::<TestHandle, FsError>(FsError::NotFound)
                    }
                } else if p == bytes_of("\\") {
                    r matches Ok(TestHandle::Dir(_))
                } else {
                    r == Err::<TestHandle, FsError>(FsError::NotFound)
                }
            }),
    {
        if bytes_equal(path.as_bytes(), "\\test.txt".as_bytes()) {
            let data: &'static [u8] = if bytes_equal(stream.as_bytes(), "".as_bytes()) {
                "Be alert, your country needs lerts.".as_bytes()
            } else if bytes_equal(stream.as_bytes(), "raw".as_bytes()) {
                "Hello World!".as_bytes()
            } else {
                return Err(FsError::NotFound);
            };
            Ok(TestHandle::File(StaticFile { data, timestamp: unix_epoch(), file_id: 1 }))
        } else if bytes_equal(path.as_bytes(), "\\".as_bytes()) {
            Ok(TestHandle::Dir(TestDir {}))
        } else {
            Err(FsError::NotFound)
        }
    }
}

} // verus!
