//! The read-only filesystem the assets are mounted as: its entries, file
//! information and errors.
use vstd::prelude::*;
use std::time::SystemTime;

pub mod raw_bundledb;
pub mod teststub;
pub mod transcoder;

verus! {

/// An entry of a directory listing.
#[derive(Clone)]
pub struct FsDirEntry {
    pub is_dir: bool,
    pub size: u64,
    pub modification_time: SystemTime,
    pub name: String,
}

/// A stream of a file: its size and its name, without the type or colons.
pub struct FsStreamEntry {
    pub size: i64,
    pub name: String,
}

/// What is known of a file.
pub struct FsFileInfo {
    pub creation_time: SystemTime,
    pub last_access_time: SystemTime,
    pub last_write_time: SystemTime,
    pub file_size: u64,
    pub number_of_links: u32,
    pub file_index: u64,
    pub is_dir: bool,
    pub read_only: bool,
}

/// Why a filesystem operation failed.
#[derive(Debug, PartialEq, Eq, Structural)]
pub enum FsError {
    PastEnd,
    FileCorrupt,
    NotDirectory,
    IsDirectory,
    NotFound,
    ReadError,
    OsError(i32),
}

/// A file or folder of a read-only filesystem, once opened. Each kind of
/// handle says, by its spec functions, which answers each of its methods
/// may give.
pub trait FsReadHandle {
    /// Whether `r` is an answer `is_dir` may give.
    spec fn is_dir_gives(&self, r: bool) -> bool;

    /// Whether `r` is an answer `len` may give.
    spec fn len_gives(&self, r: Option<usize>) -> bool;

    /// Whether a read at `offset` into a buffer that held `before` may give
    /// `r` and leave the buffer holding `after`.
    spec fn read_gives(&self, offset: u64, before: Seq<u8>, r: Result<usize, FsError>, after: Seq<u8>) -> bool;

    /// Whether `r` is a listing `find_files` may give.
    spec fn files_give(&self, r: Result<Vec<FsDirEntry>, FsError>) -> bool;

    /// Whether `r` is an answer `list_streams` may give.
    spec fn streams_give(&self, r: Result<Vec<FsStreamEntry>, FsError>) -> bool;

    /// Whether `r` is an answer `get_file_info` may give.
    spec fn info_gives(&self, r: Result<FsFileInfo, FsError>) -> bool;

    fn is_dir(&self) -> (r: bool)
        ensures
            self.is_dir_gives(r),
    ;

    fn len(&self) -> (r: Option<usize>)
        ensures
            self.len_gives(r),
    ;

    fn read_at(&self, buf: &mut [u8], offset: u64) -> (r: Result<usize, FsError>)
        ensures
            self.read_gives(offset, old(buf)@, r, final(buf)@),
    ;

    fn find_files(&self) -> (r: Result<Vec<FsDirEntry>, FsError>)
        ensures
            self.files_give(r),
    ;

    fn list_streams(&self) -> (r: Result<Vec<FsStreamEntry>, FsError>)
        ensures
            self.streams_give(r),
    ;

    fn get_file_info(&self) -> (r: Result<FsFileInfo, FsError>)
        ensures
            self.info_gives(r),
    ;
}

/// A read-only filesystem, which opens a stream of a path as a handle.
pub trait ReadOnlyFs {
    type Handle: FsReadHandle;

    /// Whether opening stream `stream` of `path` may give `r`; a filesystem
    /// that does not say may give anything.
    open spec fn opens(&self, path: Seq<char>, stream: Seq<char>, r: Result<Self::Handle, FsError>) -> bool {
        true
    }

    fn open_readable(&self, path: &str, stream: &str) -> (r: Result<Self::Handle, FsError>)
        ensures
            self.opens(path@, stream@, r),
    ;
}

/// Where a read at `offset` starts: the offset, or `usize::MAX` where it
/// does not fit in `usize`.
pub open spec fn read_start(offset: u64) -> int {
    if offset > usize::MAX {
        usize::MAX as int
    } else {
        offset as int
    }
}

/// What a read of `data` at `offset` into a buffer that held `buf` gives:
/// past the end it fails and leaves the buffer alone; otherwise it copies as
/// many bytes as both have room for to the front of the buffer and returns
/// their number.
pub open spec fn read_outcome(
    data: Seq<u8>,
    offset: u64,
    buf: Seq<u8>,
    r: Result<usize, FsError>,
    after: Seq<u8>,
) -> bool {
    let start = read_start(offset);
    if start > data.len() {
        r == Err::<usize, FsError>(FsError::PastEnd) && after == buf
    } else {
        let n = if buf.len() < data.len() - start {
            buf.len() as int
        } else {
            data.len() - start
        };
        &&& r == Ok::<usize, FsError>(n as usize)
        &&& after == data.subrange(start, start + n) + buf.subrange(n, buf.len() as int)
    }
}

/// Reads `data` from `offset` into `buf`, as reading from the slice that
/// starts there does.
pub(crate) fn read_slice_at(data: &[u8], buf: &mut [u8], offset: u64) -> (r: Result<usize, FsError>)
    ensures
        read_outcome(data@, offset, old(buf)@, r, final(buf)@),
{
    let start: usize = if offset > usize::MAX as u64 {
        usize::MAX
    } else {
        offset as usize
    };
    if start > data.len() {
        return Err(FsError::PastEnd);
    }
    let rest = data.len() - start;
    let n: usize = if buf.len() < rest {
        buf.len()
    } else {
        rest
    };
    let ghost before = buf@;
    let mut i: usize = 0;
    while i < n
        invariant
            start as int + n as int <= data@.len(),
            data@.len() <= usize::MAX,
            n <= before.len(),
            0 <= i <= n,
            buf@.len() == before.len(),
            forall|k: int| 0 <= k < i ==> buf@[k] == data@[start + k],
            forall|k: int| i <= k < before.len() ==> buf@[k] == before[k],
        decreases n - i,
    {
        buf[i] = data[start + i];
        i = i + 1;
    }
    assert(buf@ =~= data@.subrange(start as int, start + n) + before.subrange(
        n as int,
        before.len() as int,
    ));
    Ok(n)
}

/// Whether two byte strings are equal.
pub(crate) fn bytes_equal(a: &[u8], b: &[u8]) -> (r: bool)
    ensures
        r == (a@ == b@),
{
    if a.len() != b.len() {
        return false;
    }
    let mut i: usize = 0;
    while i < a.len()
        invariant
            a@.len() == b@.len(),
            0 <= i <= a@.len(),
            forall|k: int| 0 <= k < i ==> a@[k] == b@[k],
        decreases a.len() - i,
    {
        if a[i] != b[i] {
            return false;
        }
        i = i + 1;
    }
    assert(a@ =~= b@);
    true
}

} // verus!
