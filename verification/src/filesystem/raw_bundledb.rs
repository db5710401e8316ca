//! Names in the mounted asset tree: a file name is its path's last part, then
//! `.language` where there is a language, then `.extension` where there is an
//! extension or a language (or, for both, where the name itself holds a
//! dot), so that the parts can be told apart again.
use vstd::prelude::*;
use vstd::string::StrSliceExecFns;
use vstd::string::StringExecFns;
use std::path::PathBuf;
use std::sync::Arc;
use std::time::SystemTime;
use crate::bundles::database::{
    clone_path, file_refs, folder_range, is_folder_item, item_key, Database, DatabaseItem,
    HashStrKey, ItemType,
};
use crate::bundles::unix_epoch;
use crate::diesel_hash;
use crate::hashindex::{
    is_hash_like_char, lemma_from_str_inverts_hex16, spec_display, spec_hex16, spec_is_hash_like, HashIndex,
    HashedStr,
};
use crate::text::{
    bytes_of, push_char, same_text, str_slice, lemma_after_ascii_cuttable,
    lemma_char_boundary_iff,
};
use super::{FsDirEntry, FsError, FsFileInfo, FsReadHandle, FsStreamEntry};

verus! {

/// The position of the last byte `c` among the first `n` bytes of `b`.
pub open spec fn last_index_of(b: Seq<u8>, c: u8, n: int) -> Option<int>
    decreases n,
{
    if n <= 0 {
        None
    } else if b[n - 1] == c {
        Some(n - 1)
    } else {
        last_index_of(b, c, n - 1)
    }
}

/// `b` cut around its last `.`, unless that dot lies before `limit` or there
/// is none, in which case the whole and nothing.
pub open spec fn spec_split_last_dot(b: Seq<u8>, limit: int) -> (Seq<u8>, Seq<u8>) {
    match last_index_of(b, 46u8, b.len() as int) {
        None => (b, Seq::empty()),
        Some(i) => if i < limit {
            (b, Seq::empty())
        } else {
            (b.subrange(0, i), b.subrange(i + 1, b.len() as int))
        },
    }
}

/// The key a path in the mounted tree names: the last dot after the last `/`
/// starts the extension, a dot before it the language, and each part is read
/// with `from_str`.
pub open spec fn spec_split_path_to_key(b: Seq<u8>) -> (u64, u64, u64) {
    let last_slash = match last_index_of(b, 47u8, b.len() as int) {
        Some(i) => i,
        None => 0,
    };
    let (remain, extn) = spec_split_last_dot(b, last_slash);
    let (path, language) = spec_split_last_dot(remain, last_slash);
    (diesel_hash::spec_from_bytes(path), diesel_hash::spec_from_bytes(language), diesel_hash::spec_from_bytes(extn))
}

fn last_byte_index(b: &[u8], c: u8) -> (r: Option<usize>)
    ensures
        r is None ==> last_index_of(b@, c, b@.len() as int) is None,
        r matches Some(i) ==> i < b@.len() && b@[i as int] == c && last_index_of(b@, c, b@.len() as int)
            == Some(i as int),
{
    let mut n = b.len();
    while n > 0
        invariant
            n <= b@.len(),
            last_index_of(b@, c, n as int) == last_index_of(b@, c, b@.len() as int),
        decreases n,
    {
        if b[n - 1] == c {
            return Some(n - 1);
        }
        n -= 1;
    }
    None
}

/// Cuts `s` at its last `.` into the part before and the part after, unless
/// the dot lies before byte `limit` or there is none.
pub fn split_last_dot(s: &str, limit: usize) -> (r: (&str, &str))
    ensures
        (bytes_of(r.0), bytes_of(r.1)) == spec_split_last_dot(bytes_of(s), limit as int),
{
    let b = s.as_bytes();
    let n = b.len();
    proof {
        vstd::utf8::encode_utf8_valid_utf8(s@);
        lemma_char_boundary_iff(b@, 0);
    }
    assert(b@.subrange(n as int, n as int) =~= Seq::<u8>::empty());
    assert(b@ == bytes_of(s));
    match last_byte_index(b, 46u8) {
        None => {
            let e = str_slice(s, n, n);
            assert(bytes_of(e) =~= Seq::<u8>::empty());
            (s, e)
        },
        Some(idx) => {
            if idx < limit {
                let e = str_slice(s, n, n);
                assert(bytes_of(e) =~= Seq::<u8>::empty());
                (s, e)
            } else {
                proof {
                    lemma_after_ascii_cuttable(b@, idx as int);
                }
                (str_slice(s, 0, idx), str_slice(s, idx + 1, n))
            }
        },
    }
}

/// The key that a path of the mounted tree names.
pub fn split_path_to_key(p: &str) -> (r: (u64, u64, u64))
    ensures
        r == spec_split_path_to_key(bytes_of(p)),
{
    let last_slash = match last_byte_index(p.as_bytes(), 47u8) {
        Some(i) => i,
        None => 0,
    };
    let (remain, extn) = split_last_dot(p, last_slash);
    let (path, language) = split_last_dot(remain, last_slash);
    (diesel_hash::from_str(path), diesel_hash::from_str(language), diesel_hash::from_str(extn))
}

/// The position of the last `c` among the first `n` characters of `t`.
pub open spec fn last_char_index(t: Seq<char>, c: char, n: int) -> Option<int>
    decreases n,
{
    if n <= 0 {
        None
    } else if t[n - 1] == c {
        Some(n - 1)
    } else {
        last_char_index(t, c, n - 1)
    }
}

/// The part of a path after its last `/`.
pub open spec fn last_component(p: Seq<char>) -> Seq<char> {
    match last_char_index(p, '/', p.len() as int) {
        Some(i) => p.subrange(i + 1, p.len() as int),
        None => p,
    }
}

/// The name of an item from the display texts of its path, language and
/// extension.
pub open spec fn spec_key_to_name(path: Seq<char>, lang: Seq<char>, extn: Seq<char>) -> Seq<char> {
    let name = last_component(path);
    let hasdot = name.contains('.');
    let with_lang = if lang.len() > 0 || hasdot {
        name + seq!['.'] + lang
    } else {
        name
    };
    if extn.len() > 0 || lang.len() > 0 || hasdot {
        with_lang + seq!['.'] + extn
    } else {
        with_lang
    }
}

/// The display text of a hash with its known text.
pub open spec fn display_of(hash: u64, text: Option<&str>) -> Seq<char> {
    spec_display(
        hash,
        match text {
            Some(t) => Some(t@),
            None => None,
        },
    )
}

fn last_char_position(t: &str, c: char) -> (r: Option<usize>)
    ensures
        r is None ==> last_char_index(t@, c, t@.len() as int) is None,
        r matches Some(i) ==> i < t@.len() && last_char_index(t@, c, t@.len() as int) == Some(i as int),
{
    let mut n = t.unicode_len();
    while n > 0
        invariant
            n <= t@.len(),
            last_char_index(t@, c, n as int) == last_char_index(t@, c, t@.len() as int),
        decreases n,
    {
        if t.get_char(n - 1) == c {
            return Some(n - 1);
        }
        n -= 1;
    }
    None
}

fn contains_char(t: &str, c: char) -> (r: bool)
    ensures
        r == t@.contains(c),
{
    let n = t.unicode_len();
    let mut i: usize = 0;
    while i < n
        invariant
            n == t@.len(),
            i <= n,
            forall|k: int| 0 <= k < i ==> t@[k] != c,
        decreases n - i,
    {
        if t.get_char(i) == c {
            assert(t@[i as int] == c);
            return true;
        }
        i += 1;
    }
    false
}

/// The name of an item in the mounted tree.
pub fn key_to_name(key: &HashStrKey) -> (r: String)
    ensures
        r@ == spec_key_to_name(
            display_of(key.path.hash, key.path.text),
            display_of(key.language.hash, key.language.text),
            display_of(key.extension.hash, key.extension.text),
        ),
{
    let path = key.path.to_display_string();
    let lang = key.language.to_display_string();
    let extn = key.extension.to_display_string();
    let ps = path.as_str();
    let n = ps.unicode_len();
    let found = last_char_position(ps, '/');
    let tail = match found {
        Some(i) => ps.substring_char(i + 1, n),
        None => ps,
    };
    assert(ps@ == path@);
    assert(n == ps@.len());
    assert(tail@ == last_component(path@));
    let mut name = String::from_str(tail);
    let hasdot = contains_char(tail, '.');
    let dot = ".";
    proof {
        reveal_strlit(".");
    }
    assert(dot@ =~= seq!['.']);
    let ghost with_lang = if lang@.len() > 0 || hasdot {
        name@ + seq!['.'] + lang@
    } else {
        name@
    };
    if lang.as_str().unicode_len() > 0 || hasdot {
        name.append(dot);
        name.append(lang.as_str());
    }
    assert(name@ =~= with_lang);
    if extn.as_str().unicode_len() > 0 || lang.as_str().unicode_len() > 0 || hasdot {
        name.append(dot);
        name.append(extn.as_str());
    }
    name
}

/// What the hashlist shows for a hash: its text, or the hash in hex where it
/// has none or the text looks like a printed hash.
pub open spec fn shown_text(hl: HashIndex, h: u64) -> Seq<char> {
    spec_display(
        h,
        match hl.lookup(h) {
            Some(b) => Some(vstd::utf8::decode_utf8(b)),
            None => None,
        },
    )
}

/// A hash with the text the hashlist has for it displays as `shown_text`.
pub proof fn lemma_display_is_shown(hl: HashIndex, s: HashedStr)
    requires
        hl.names(s),
    ensures
        display_of(s.hash, s.text) == shown_text(hl, s.hash),
{
    if let Some(t) = s.text {
        vstd::utf8::encode_utf8_decode_utf8(t@);
    }
}

/// The name under which the item with key `k` is listed.
pub open spec fn listed_name(hl: HashIndex, k: (u64, u64, u64)) -> Seq<char> {
    spec_key_to_name(shown_text(hl, k.0), shown_text(hl, k.1), shown_text(hl, k.2))
}

/// The package entry where a file's bytes are: the first that refers to it.
pub open spec fn first_place(db: Database, i: int) -> (int, int) {
    let t = file_refs(db.item_seq()[i])[0];
    (t.0 as int, t.1 as int)
}

/// How many bytes item `i` holds: 0 for a folder.
pub open spec fn item_size(db: Database, i: int) -> u64 {
    if is_folder_item(db.item_seq()[i]) {
        0
    } else {
        let (p, f) = first_place(db, i);
        db.package_seq()[p].files@[f].length as u64
    }
}

/// `e` is the listing entry of item `i`. (A folder's time is the Unix
/// epoch, which is not stated here.)
pub open spec fn lists_item(db: Database, i: int, e: FsDirEntry) -> bool {
    &&& e.name@ == listed_name(db.hashlist(), item_key(db.item_seq()[i]))
    &&& e.is_dir == is_folder_item(db.item_seq()[i])
    &&& e.size == item_size(db, i)
    &&& !is_folder_item(db.item_seq()[i]) ==> e.modification_time == db.package_seq()[first_place(
        db,
        i,
    ).0].last_modified
}

impl Database {
    /// Every file lies in at least one package.
    pub open spec fn files_packaged(&self) -> bool {
        forall|i: int|
            0 <= i < self.item_seq().len() && !is_folder_item(#[trigger] self.item_seq()[i])
                ==> file_refs(self.item_seq()[i]).len() > 0
    }
}

/// The asset database as a read-only filesystem.
pub struct BundleFs {
    database: Arc<Database>,
}

/// A file of the database: where its bytes lie, and what is known of it.
pub struct RawFileHandle {
    pub file_id: u64,
    pub storage_path: PathBuf,
    pub storage_offset: usize,
    pub length: usize,
    pub last_modified: SystemTime,
}

/// A folder of the database, with the entries of its children.
pub struct FolderHandle {
    pub last_modified: SystemTime,
    pub items: Vec<FsDirEntry>,
}

/// What the database filesystem opens.
pub enum BundleHandle {
    File(RawFileHandle),
    Folder(FolderHandle),
}

/// A path of the mounted tree with one leading `\\` taken off and the other
/// backslashes turned into `/`.
pub open spec fn spec_forwards_path(path: Seq<char>) -> Seq<char> {
    let rest = if path.len() > 0 && path[0] == '\\' {
        path.drop_first()
    } else {
        path
    };
    rest.map_values(|c: char| if c == '\\' { '/' } else { c })
}

/// The database key that a path of the mounted tree names.
pub open spec fn path_key(path: Seq<char>) -> (u64, u64, u64) {
    spec_split_path_to_key(vstd::utf8::encode_utf8(spec_forwards_path(path)))
}

/// A path of the mounted tree in the form the database's paths have.
pub fn forwards_path(path: &str) -> (r: String)
    ensures
        r@ == spec_forwards_path(path@),
{
    let n = path.unicode_len();
    let start: usize = if n > 0 && path.get_char(0) == '\\' {
        1
    } else {
        0
    };
    let ghost rest = if path@.len() > 0 && path@[0] == '\\' {
        path@.drop_first()
    } else {
        path@
    };
    let mut out = String::new();
    let mut i: usize = start;
    while i < n
        invariant
            n == path@.len(),
            start <= i <= n,
            rest == path@.subrange(start as int, n as int),
            out@ == rest.take(i - start).map_values(|c: char| if c == '\\' { '/' } else { c }),
        decreases n - i,
    {
        let c = path.get_char(i);
        let d = if c == '\\' {
            '/'
        } else {
            c
        };
        push_char(&mut out, d);
        i = i + 1;
        assert(rest.take(i - start) =~= rest.take(i - start - 1).push(c));
        assert(out@ =~= rest.take(i - start).map_values(|c: char| if c == '\\' { '/' } else { c }));
    }
    assert(rest.take(n - start) =~= rest);
    out
}

impl RawFileHandle {
    /// The handle of a file item.
    pub fn new(item: &DatabaseItem) -> (r: RawFileHandle)
        requires
            item.valid(),
            !is_folder_item(item.record()),
            file_refs(item.record()).len() > 0,
        ensures
            ({
                let (p, f) = first_place(*item.db, item.item_number as int);
                let pk = item.db.package_seq()[p];
                &&& r.file_id == item.item_number
                &&& r.storage_path == pk.data_path
                &&& r.storage_offset == pk.files@[f].offset
                &&& r.length == pk.files@[f].length
                &&& r.last_modified == pk.last_modified
            }),
    {
        let (path, offset, length) = item.get_backing_details().unwrap();
        RawFileHandle {
            file_id: item.item_index() as u64,
            storage_path: clone_path(path),
            storage_offset: offset,
            length,
            last_modified: item.last_modified(),
        }
    }

    pub fn is_dir(&self) -> (r: bool)
        ensures
            !r,
    {
        false
    }

    pub fn len(&self) -> (r: Option<usize>)
        ensures
            r == Some(self.length),
    {
        Some(self.length)
    }

    pub fn find_files(&self) -> (r: Result<Vec<FsDirEntry>, FsError>)
        ensures
            r == Err::<Vec<FsDirEntry>, FsError>(FsError::NotDirectory),
    {
        Err(FsError::NotDirectory)
    }

    /// The one stream, the file's data, of the file's length.
    pub fn list_streams(&self) -> (r: Result<Vec<FsStreamEntry>, FsError>)
        requires
            self.length <= i64::MAX,
        ensures
            r matches Ok(v) && v@.len() == 1 && v@[0].name@ == ""@ && v@[0].size == self.length,
    {
        proof {
            reveal_strlit("");
        }
        let mut v: Vec<FsStreamEntry> = Vec::new();
        v.push(FsStreamEntry { name: String::new(), size: self.length as i64 });
        Ok(v)
    }

    pub fn get_file_info(&self) -> (r: Result<FsFileInfo, FsError>)
        ensures
            r matches Ok(info) && !info.is_dir && info.read_only && info.file_size == self.length
                && info.file_index == self.file_id && info.creation_time == self.last_modified
                && info.last_write_time == self.last_modified && info.last_access_time
                == self.last_modified && info.number_of_links == 1,
    {
        Ok(
            FsFileInfo {
                is_dir: false,
                read_only: true,
                file_size: self.length as u64,
                file_index: self.file_id,
                creation_time: self.last_modified,
                last_write_time: self.last_modified,
                last_access_time: self.last_modified,
                number_of_links: 1,
            },
        )
    }

    /// Where in the storage file a read of `buf_len` bytes at `offset` of the
    /// file reads, and how many bytes: `None` where nothing is to be read (at
    /// or past the end, or into an empty buffer).
    pub fn read_span(&self, offset: u64, buf_len: usize) -> (r: Option<(u64, usize)>)
        requires
            self.storage_offset + (offset as usize) <= usize::MAX,
            self.storage_offset + self.length <= usize::MAX,
        ensures
            ({
                let o = offset as usize;
                if o >= self.length || buf_len == 0 {
                    r is None
                } else {
                    r == Some(
                        (
                            (self.storage_offset + o) as u64,
                            if buf_len < self.length - o {
                                buf_len
                            } else {
                                (self.length - o) as usize
                            },
                        ),
                    )
                }
            }),
    {
        let read_from = self.storage_offset + (offset as usize);
        if read_from >= self.storage_offset + self.length {
            return None;
        }
        let remaining = self.length - (offset as usize);
        let amount = if buf_len < remaining {
            buf_len
        } else {
            remaining
        };
        if amount == 0 {
            return None;
        }
        Some((read_from as u64, amount))
    }
}

impl FolderHandle {
    /// The handle of a folder item, listing its children in order.
    pub fn new(item: &DatabaseItem) -> (r: FolderHandle)
        requires
            item.valid(),
            item.db.files_packaged(),
            folder_range(item.record()).0 + folder_range(item.record()).1 <= u32::MAX,
        ensures
            ({
                let (first, count) = folder_range(item.record());
                &&& r.items@.len() == count
                &&& forall|k: int|
                    0 <= k < count ==> lists_item(*item.db, first + k, #[trigger] r.items@[k])
            }),
    {
        let ghost db = *item.db;
        let ghost (first, count) = folder_range(item.record());
        let mut children = item.children();
        let mut items: Vec<FsDirEntry> = Vec::new();
        while children.current_index < children.end_index
            invariant
                db.wf(),
                db.files_packaged(),
                is_folder_item(item.record()) ==> first + count <= db.item_seq().len(),
                !is_folder_item(item.record()) ==> first == 0 && count == 0,
                children.db == item.db,
                *children.db == db,
                children.end_index == first + count,
                first <= children.current_index <= children.end_index,
                items@.len() == children.current_index - first,
                forall|k: int| 0 <= k < items@.len() ==> lists_item(db, first + k, #[trigger] items@[k]),
            decreases children.end_index - children.current_index,
        {
            let ghost j = children.current_index as int;
            let child = children.next().unwrap();
            assert(child.valid());
            assert(child.record() == db.item_seq()[j]);
            let key = child.key();
            proof {
                lemma_display_is_shown(db.hashlist(), key.0);
                lemma_display_is_shown(db.hashlist(), key.1);
                lemma_display_is_shown(db.hashlist(), key.2);
            }
            let name = key_to_name(&HashStrKey { path: key.0, language: key.1, extension: key.2 });
            let is_dir = match child.item_type() {
                ItemType::File => false,
                ItemType::Folder => true,
            };
            let entry = FsDirEntry {
                name,
                modification_time: child.last_modified(),
                is_dir,
                size: child.data_len() as u64,
            };
            items.push(entry);
            assert(lists_item(db, j, items@[items@.len() - 1]));
        }
        FolderHandle { items, last_modified: item.last_modified() }
    }
}

/// Two listings hold the same entries.
pub open spec fn same_listing(a: Seq<FsDirEntry>, b: Seq<FsDirEntry>) -> bool {
    &&& a.len() == b.len()
    &&& forall|k: int|
        0 <= k < a.len() ==> {
            &&& (#[trigger] b[k]).name@ == a[k].name@
            &&& b[k].is_dir == a[k].is_dir
            &&& b[k].size == a[k].size
            &&& b[k].modification_time == a[k].modification_time
        }
}

/// A copy of a listing.
fn copy_listing(v: &Vec<FsDirEntry>) -> (r: Vec<FsDirEntry>)
    ensures
        same_listing(v@, r@),
{
    let mut out: Vec<FsDirEntry> = Vec::new();
    let mut k: usize = 0;
    while k < v.len()
        invariant
            0 <= k <= v@.len(),
            same_listing(v@.take(k as int), out@),
        decreases v.len() - k,
    {
        let e = &v[k];
        out.push(
            FsDirEntry {
                name: e.name.clone(),
                is_dir: e.is_dir,
                size: e.size,
                modification_time: e.modification_time,
            },
        );
        k = k + 1;
        assert(v@.take(k as int).drop_last() =~= v@.take(k - 1));
    }
    assert(v@.take(k as int) =~= v@);
    out
}

impl FsReadHandle for FolderHandle {
    open spec fn is_dir_gives(&self, r: bool) -> bool {
        r
    }

    open spec fn len_gives(&self, r: Option<usize>) -> bool {
        r is None
    }

    open spec fn read_gives(&self, offset: u64, before: Seq<u8>, r: Result<usize, FsError>, after: Seq<u8>) -> bool {
        r == Err::<usize, FsError>(FsError::IsDirectory) && after == before
    }

    open spec fn files_give(&self, r: Result<Vec<FsDirEntry>, FsError>) -> bool {
        r matches Ok(v) && same_listing(self.items@, v@)
    }

    open spec fn streams_give(&self, r: Result<Vec<FsStreamEntry>, FsError>) -> bool {
        r matches Ok(v) && v@.len() == 1 && v@[0].name@ == "info"@ && v@[0].size == 0
    }

    open spec fn info_gives(&self, r: Result<FsFileInfo, FsError>) -> bool {
        r matches Ok(info) && info.is_dir && info.read_only && info.file_size == 0 && info.file_index == 0
            && info.number_of_links == 1
    }

    fn is_dir(&self) -> (r: bool)
        ensures
            r,
    {
        true
    }

    fn len(&self) -> (r: Option<usize>)
        ensures
            r is None,
    {
        None
    }

    fn read_at(&self, buf: &mut [u8], offset: u64) -> (r: Result<usize, FsError>)
        ensures
            r == Err::<usize, FsError>(FsError::IsDirectory),
            final(buf)@ == old(buf)@,
    {
        Err(FsError::IsDirectory)
    }

    /// The entries of the children.
    fn find_files(&self) -> (r: Result<Vec<FsDirEntry>, FsError>)
        ensures
            r matches Ok(v) && same_listing(self.items@, v@),
    {
        Ok(copy_listing(&self.items))
    }

    /// One stream, `info`, of no length.
    fn list_streams(&self) -> (r: Result<Vec<FsStreamEntry>, FsError>)
        ensures
            r matches Ok(v) && v@.len() == 1 && v@[0].name@ == "info"@ && v@[0].size == 0,
    {
        let mut v: Vec<FsStreamEntry> = Vec::new();
        v.push(FsStreamEntry { name: String::from_str("info"), size: 0 });
        Ok(v)
    }

    fn get_file_info(&self) -> (r: Result<FsFileInfo, FsError>)
        ensures
            r matches Ok(info) && info.is_dir && info.read_only && info.file_size == 0
                && info.file_index == 0 && info.number_of_links == 1,
    {
        Ok(
            FsFileInfo {
                is_dir: true,
                read_only: true,
                file_size: 0,
                file_index: 0,
                creation_time: unix_epoch(),
                last_write_time: unix_epoch(),
                last_access_time: unix_epoch(),
                number_of_links: 1,
            },
        )
    }
}

impl BundleFs {
    /// The database that the filesystem shows.
    pub closed spec fn db(&self) -> Database {
        *self.database
    }

    pub fn new(database: Arc<Database>) -> (r: BundleFs)
        ensures
            r.db() == *database,
    {
        BundleFs { database }
    }

    /// Opens a path of the mounted tree: the item under `path_key(path)`; a
    /// file by its main stream (`""`) or `raw`, a folder by its main stream.
    /// Anything else is not found.
    pub fn open_readable(&self, path: &str, stream: &str) -> (r: Result<BundleHandle, FsError>)
        requires
            self.db().wf(),
            self.db().files_packaged(),
            self.db().item_seq().len() <= u32::MAX,
        ensures
            ({
                let db = self.db();
                match db.index_of(path_key(path@)) {
                    None => r == Err::<BundleHandle, FsError>(FsError::NotFound),
                    Some(i) => if is_folder_item(db.item_seq()[i as int]) {
                        if stream@ == ""@ {
                            r matches Ok(BundleHandle::Folder(f)) && {
                                let (first, count) = folder_range(db.item_seq()[i as int]);
                                &&& f.items@.len() == count
                                &&& forall|k: int|
                                    0 <= k < count ==> lists_item(db, first + k, #[trigger] f.items@[k])
                            }
                        } else {
                            r == Err::<BundleHandle, FsError>(FsError::NotFound)
                        }
                    } else {
                        if stream@ == ""@ || stream@ == "raw"@ {
                            r matches Ok(BundleHandle::File(h)) && {
                                let (p, f) = first_place(db, i as int);
                                let pk = db.package_seq()[p];
                                &&& h.file_id == i
                                &&& h.storage_path == pk.data_path
                                &&& h.storage_offset == pk.files@[f].offset
                                &&& h.length == pk.files@[f].length
                                &&& h.last_modified == pk.last_modified
                            }
                        } else {
                            r == Err::<BundleHandle, FsError>(FsError::NotFound)
                        }
                    },
                }
            }),
    {
        let forwards = forwards_path(path);
        let (db_path, lang, extn) = split_path_to_key(forwards.as_str());
        let db: &Database = &*self.database;
        let item = match db.get_by_hashes(db_path, lang, extn) {
            Some(item) => item,
            None => return Err(FsError::NotFound),
        };
        proof {
            crate::bundles::database::lemma_index_finds_items(db, (db_path, lang, extn));
        }
        assert(item.valid());
        match item.item_type() {
            ItemType::File => if same_text(stream, "") || same_text(stream, "raw") {
                Ok(BundleHandle::File(RawFileHandle::new(&item)))
            } else {
                Err(FsError::NotFound)
            },
            ItemType::Folder => if same_text(stream, "") {
                Ok(BundleHandle::Folder(FolderHandle::new(&item)))
            } else {
                Err(FsError::NotFound)
            },
        }
    }
}

/// The UTF-8 encoding of characters among which there is no ASCII `c` has
/// no byte `c`: the bytes of longer encodings all have the top bit set.
proof fn lemma_no_ascii_byte(t: Seq<char>, c: char)
    requires
        (c as u32) < 0x80,
        !t.contains(c),
    ensures
        forall|i: int| 0 <= i < vstd::utf8::encode_utf8(t).len() ==> #[trigger] vstd::utf8::encode_utf8(t)[i] != c as u8,
    decreases t.len(),
{
    if t.len() > 0 {
        let rest = t.drop_first();
        assert forall|x: char| rest.contains(x) implies t.contains(x) by {
            let k = choose|k: int| 0 <= k < rest.len() && rest[k] == x;
            assert(t[k + 1] == x);
        }
        lemma_no_ascii_byte(rest, c);
        let v = t[0] as u32;
        let cv = c as u32;
        assert(t[0] != c);
        assert(v != cv) by {
            vstd::utf8::char_u32_cast(t[0], v);
            vstd::utf8::char_u32_cast(c, cv);
        }
        let head = vstd::utf8::encode_scalar(v);
        assert forall|i: int| 0 <= i < head.len() implies #[trigger] head[i] != c as u8 by {
            if vstd::utf8::has_width_1_encoding(v) {
                assert((v & 0x7F) as u8 != cv as u8) by (bit_vector)
                    requires
                        v <= 0x7F,
                        cv < 0x80,
                        v != cv;
            } else {
                let x = head[i];
                assert(x >= 0x80) by {
                    if vstd::utf8::has_width_2_encoding(v) {
                        assert((0xC0 | ((v >> 6) & 0x1F) as u8) >= 0x80) by (bit_vector);
                        assert((0x80 | (v & 0x3F) as u8) >= 0x80) by (bit_vector);
                    } else if vstd::utf8::has_width_3_encoding(v) {
                        assert((0xE0 | ((v >> 12) & 0x0F) as u8) >= 0x80) by (bit_vector);
                        assert((0x80 | ((v >> 6) & 0x3F) as u8) >= 0x80) by (bit_vector);
                        assert((0x80 | (v & 0x3F) as u8) >= 0x80) by (bit_vector);
                    } else {
                        assert((0xF0 | ((v >> 18) & 0x7) as u8) >= 0x80) by (bit_vector);
                        assert((0x80 | ((v >> 12) & 0x3F) as u8) >= 0x80) by (bit_vector);
                        assert((0x80 | ((v >> 6) & 0x3F) as u8) >= 0x80) by (bit_vector);
                        assert((0x80 | (v & 0x3F) as u8) >= 0x80) by (bit_vector);
                    }
                }
            }
        }
        let e = vstd::utf8::encode_utf8(t);
        assert(e == head + vstd::utf8::encode_utf8(rest));
        assert forall|i: int| 0 <= i < e.len() implies #[trigger] e[i] != c as u8 by {
            if i < head.len() {
                assert(e[i] == head[i]);
            } else {
                assert(e[i] == vstd::utf8::encode_utf8(rest)[i - head.len()]);
            }
        }
    }
}

/// Searching back from `n` finds what searching back from `m` does when there
/// is no `c` from `m` up to `n`; and what it finds lies before where it
/// starts.
proof fn lemma_last_index_skip(b: Seq<u8>, c: u8, n: int, m: int)
    requires
        0 <= m <= n <= b.len(),
        forall|i: int| m <= i < n ==> b[i] != c,
    ensures
        last_index_of(b, c, n) == last_index_of(b, c, m),
    decreases n - m,
{
    if n > m {
        lemma_last_index_skip(b, c, n - 1, m);
    }
}

proof fn lemma_last_index_range(b: Seq<u8>, c: u8, n: int)
    ensures
        last_index_of(b, c, n) matches Some(i) ==> 0 <= i < n && b[i] == c,
        last_index_of(b, c, n) is None ==> forall|i: int| 0 <= i < n ==> b[i] != c,
    decreases n,
{
    if n > 0 {
        lemma_last_index_range(b, c, n - 1);
    }
}

/// In the encoding of `x`, an ASCII `c`, then `y` without one, the last `c`
/// byte is the one between them.
proof fn lemma_cut_at(x: Seq<char>, c: char, y: Seq<char>)
    requires
        (c as u32) < 0x80,
        !y.contains(c),
    ensures
        ({
            let e = vstd::utf8::encode_utf8(x + seq![c] + y);
            let n = vstd::utf8::encode_utf8(x).len() as int;
            &&& last_index_of(e, c as u8, e.len() as int) == Some(n)
            &&& e.subrange(0, n) == vstd::utf8::encode_utf8(x)
            &&& e.subrange(n + 1, e.len() as int) == vstd::utf8::encode_utf8(y)
            &&& e.len() == n + 1 + vstd::utf8::encode_utf8(y).len()
        }),
{
    let ex = vstd::utf8::encode_utf8(x);
    let ey = vstd::utf8::encode_utf8(y);
    crate::text::lemma_encode_utf8_append(x, seq![c]);
    crate::text::lemma_encode_utf8_append(x + seq![c], y);
    let ec = vstd::utf8::encode_utf8(seq![c]);
    assert(seq![c].drop_first() =~= Seq::<char>::empty());
    assert(ec =~= seq![c as u8]) by {
        let v = c as u32;
        vstd::utf8::char_u32_cast(c, v);
        assert(vstd::utf8::encode_utf8(Seq::<char>::empty()) =~= Seq::<u8>::empty());
        assert(seq![c][0] == c);
        assert(vstd::utf8::has_width_1_encoding(v));
        assert(vstd::utf8::encode_scalar(v) =~= seq![(v & 0x7F) as u8]);
        assert((v & 0x7F) as u8 == v as u8) by (bit_vector)
            requires
                v < 0x80;
        assert(v as u8 == c as u8);
    }
    let e = vstd::utf8::encode_utf8(x + seq![c] + y);
    assert(e =~= ex + seq![c as u8] + ey);
    let n = ex.len() as int;
    lemma_no_ascii_byte(y, c);
    assert forall|i: int| n + 1 <= i < e.len() implies e[i] != c as u8 by {
        assert(e[i] == ey[i - n - 1]);
    }
    lemma_last_index_skip(e, c as u8, e.len() as int, n + 1);
    assert(e[n] == c as u8);
    assert(e.subrange(0, n) =~= ex);
    assert(e.subrange(n + 1, e.len() as int) =~= ey);
}

/// The part of a path after its last `/` holds no `/`.
proof fn lemma_last_component_no_slash(p: Seq<char>)
    ensures
        !last_component(p).contains('/'),
        last_char_index(p, '/', p.len() as int) is None ==> last_component(p) == p,
{
    lemma_last_char_index_range(p, '/', p.len() as int);
    let l = last_component(p);
    if l.contains('/') {
        let k = choose|k: int| 0 <= k < l.len() && l[k] == '/';
        match last_char_index(p, '/', p.len() as int) {
            Some(i) => {
                assert(p[i + 1 + k] == '/');
            },
            None => {
                assert(p[k] == '/');
            },
        }
    }
}

proof fn lemma_last_char_index_range(t: Seq<char>, c: char, n: int)
    requires
        n <= t.len(),
    ensures
        last_char_index(t, c, n) matches Some(i) ==> 0 <= i < n && t[i] == c && forall|j: int| i < j < n ==> t[j] != c,
        last_char_index(t, c, n) is None ==> forall|j: int| 0 <= j < n ==> t[j] != c,
    decreases n,
{
    if n > 0 {
        lemma_last_char_index_range(t, c, n - 1);
    }
}


/// The part of a path up to and including its last `/` (empty where it has
/// none).
pub open spec fn dir_prefix(p: Seq<char>) -> Seq<char> {
    match last_char_index(p, '/', p.len() as int) {
        Some(i) => p.subrange(0, i + 1),
        None => Seq::empty(),
    }
}

/// A path is its folder part followed by its last part.
proof fn lemma_path_splits(p: Seq<char>)
    ensures
        p == dir_prefix(p) + last_component(p),
        dir_prefix(p).len() == 0 || dir_prefix(p).last() == '/',
        !last_component(p).contains('/'),
{
    lemma_last_char_index_range(p, '/', p.len() as int);
    lemma_last_component_no_slash(p);
    assert(p =~= dir_prefix(p) + last_component(p));
}

/// Where the search for the last `/` stops in a path made of a folder part
/// and a tail without `/`: on the folder part's last byte, or at 0.
proof fn lemma_slash_limit(prefix: Seq<char>, tail: Seq<char>)
    requires
        prefix.len() == 0 || prefix.last() == '/',
        !tail.contains('/'),
    ensures
        ({
            let e = vstd::utf8::encode_utf8(prefix + tail);
            let lim = match last_index_of(e, 47u8, e.len() as int) {
                Some(i) => i,
                None => 0,
            };
            &&& prefix.len() == 0 ==> lim == 0 && last_index_of(e, 47u8, e.len() as int) is None
            &&& prefix.len() > 0 ==> lim + 1 == vstd::utf8::encode_utf8(prefix).len()
                && e[lim] == 47u8
        }),
{
    let e = vstd::utf8::encode_utf8(prefix + tail);
    if prefix.len() == 0 {
        assert(prefix + tail =~= tail);
        lemma_no_ascii_byte(tail, '/');
        lemma_last_index_skip(e, 47u8, e.len() as int, 0);
    } else {
        let q = prefix.drop_last();
        assert(prefix =~= q + seq!['/'] + Seq::<char>::empty());
        assert(prefix + tail =~= q + seq!['/'] + tail);
        lemma_cut_at(q, '/', tail);
        lemma_cut_at(q, '/', Seq::<char>::empty());
        assert(vstd::utf8::encode_utf8(Seq::<char>::empty()) =~= Seq::<u8>::empty());
        lemma_last_index_range(e, 47u8, e.len() as int);
    }
}

/// After the folder part, a tail without `.` leaves no `.` to cut at: the
/// last `.` lies before where the last `/` is searched from.
proof fn lemma_no_dot_after(prefix: Seq<char>, tail: Seq<char>)
    requires
        prefix.len() == 0 || prefix.last() == '/',
        !tail.contains('/'),
        !tail.contains('.'),
    ensures
        ({
            let e = vstd::utf8::encode_utf8(prefix + tail);
            let lim = match last_index_of(e, 47u8, e.len() as int) {
                Some(i) => i,
                None => 0,
            };
            spec_split_last_dot(e, lim) == (e, Seq::<u8>::empty())
        }),
{
    let e = vstd::utf8::encode_utf8(prefix + tail);
    lemma_slash_limit(prefix, tail);
    let lim = match last_index_of(e, 47u8, e.len() as int) {
        Some(i) => i,
        None => 0,
    };
    crate::text::lemma_encode_utf8_append(prefix, tail);
    let n = vstd::utf8::encode_utf8(prefix).len() as int;
    let et = vstd::utf8::encode_utf8(tail);
    lemma_no_ascii_byte(tail, '.');
    assert forall|i: int| n <= i < e.len() implies e[i] != 46u8 by {
        assert(e[i] == et[i - n]);
    }
    if prefix.len() == 0 {
        assert(n == 0) by {
            assert(vstd::utf8::encode_utf8(prefix) =~= Seq::<u8>::empty());
        }
        lemma_last_index_skip(e, 46u8, e.len() as int, 0);
    } else {
        lemma_last_index_skip(e, 46u8, e.len() as int, n - 1);
        lemma_last_index_range(e, 46u8, n - 1);
    }
}

/// Cutting the encoding of `a`, a `.` and `y` without `.` at its last dot
/// gives back the encodings of `a` and `y`, where the dot lies at or after
/// `lim`.
proof fn lemma_dot_cut(a: Seq<char>, y: Seq<char>, lim: int)
    requires
        !y.contains('.'),
        lim <= vstd::utf8::encode_utf8(a).len(),
    ensures
        spec_split_last_dot(vstd::utf8::encode_utf8(a + seq!['.'] + y), lim) == (
            vstd::utf8::encode_utf8(a),
            vstd::utf8::encode_utf8(y),
        ),
{
    lemma_cut_at(a, '.', y);
}

/// The encoding of `a + b` is at least as long as that of `a`.
proof fn lemma_encode_longer(a: Seq<char>, b: Seq<char>)
    ensures
        vstd::utf8::encode_utf8(a).len() <= vstd::utf8::encode_utf8(a + b).len(),
{
    crate::text::lemma_encode_utf8_append(a, b);
}

/// Reading back the path under which an item is listed gives the texts of its
/// key: for an item whose path, language and extension display as `path`,
/// `lang` and `extn`, its folder's path followed by its listed name splits
/// into `path`, `lang` and `extn` again, each read with `from_str`.
pub proof fn lemma_listed_name_reads_back(path: Seq<char>, lang: Seq<char>, extn: Seq<char>)
    requires
        !lang.contains('.'),
        !lang.contains('/'),
        !extn.contains('.'),
        !extn.contains('/'),
    ensures
        spec_split_path_to_key(
            vstd::utf8::encode_utf8(dir_prefix(path) + spec_key_to_name(path, lang, extn)),
        ) == (diesel_hash::spec_from_str(path), diesel_hash::spec_from_str(lang),
            diesel_hash::spec_from_str(extn)),
{
    lemma_path_splits(path);
    let pre = dir_prefix(path);
    let l = last_component(path);
    let dot = seq!['.'];
    let hasdot = l.contains('.');
    let full = pre + spec_key_to_name(path, lang, extn);
    let e = vstd::utf8::encode_utf8(full);
    let empty = Seq::<char>::empty();
    assert(vstd::utf8::encode_utf8(empty) =~= Seq::<u8>::empty());
    assert(!dot.contains('/')) by {
        assert(dot[0] == '.');
    }
    if lang.len() > 0 || hasdot {
        // Both dots are written: path, then `.lang`, then `.extn`.
        let tail = l + dot + lang + dot + extn;
        assert(full =~= pre + tail);
        assert(!tail.contains('/')) by {
            if tail.contains('/') {
                let k = choose|k: int| 0 <= k < tail.len() && tail[k] == '/';
                if k < l.len() {
                    assert(l[k] == '/');
                } else if k == l.len() || k == l.len() + 1 + lang.len() {
                    assert(tail[k] == '.');
                } else if k < l.len() + 1 + lang.len() {
                    assert(lang[k - l.len() - 1] == '/');
                } else {
                    assert(extn[k - l.len() - 2 - lang.len()] == '/');
                }
            }
        }
        lemma_slash_limit(pre, tail);
        let lim = match last_index_of(e, 47u8, e.len() as int) {
            Some(i) => i,
            None => 0,
        };
        let a = pre + l + dot + lang;
        assert(full =~= a + seq!['.'] + extn);
        lemma_encode_longer(pre, l + dot + lang);
        assert(pre + (l + dot + lang) =~= a);
        lemma_dot_cut(a, extn, lim);
        assert(pre + l + dot + lang =~= (pre + l) + seq!['.'] + lang);
        lemma_encode_longer(pre, l);
        lemma_dot_cut(pre + l, lang, lim);
        assert(pre + l =~= path);
    } else if extn.len() > 0 {
        // Only the extension is written.
        assert(lang.len() == 0);
        let tail = l + dot + extn;
        assert(full =~= pre + tail);
        assert(!tail.contains('/')) by {
            if tail.contains('/') {
                let k = choose|k: int| 0 <= k < tail.len() && tail[k] == '/';
                if k < l.len() {
                    assert(l[k] == '/');
                } else if k == l.len() {
                    assert(tail[k] == '.');
                } else {
                    assert(extn[k - l.len() - 1] == '/');
                }
            }
        }
        lemma_slash_limit(pre, tail);
        let lim = match last_index_of(e, 47u8, e.len() as int) {
            Some(i) => i,
            None => 0,
        };
        assert(full =~= (pre + l) + seq!['.'] + extn);
        lemma_encode_longer(pre, l);
        lemma_dot_cut(pre + l, extn, lim);
        lemma_slash_limit(pre, l);
        lemma_no_dot_after(pre, l);
        assert(pre + l =~= path);
        assert(lang =~= empty);
    } else {
        // Neither is written: the name is the last part of the path.
        assert(full =~= pre + l);
        lemma_no_dot_after(pre, l);
        assert(pre + l =~= path);
        assert(lang =~= empty);
        assert(extn =~= empty);
    }
}

/// Every digit of a number that `parse_radix` reads in base 16 is a hex
/// digit.
proof fn lemma_digits_all_hex(ds: Seq<u8>)
    requires
        diesel_hash::digits_value(ds, 16) is Some,
    ensures
        forall|j: int| 0 <= j < ds.len() ==> diesel_hash::digit_value(#[trigger] ds[j], 16) is Some,
    decreases ds.len(),
{
    if ds.len() > 0 {
        lemma_digits_all_hex(ds.drop_last());
        assert forall|j: int| 0 <= j < ds.len() implies diesel_hash::digit_value(#[trigger] ds[j], 16) is Some by {
            if j < ds.len() - 1 {
                assert(ds.drop_last()[j] == ds[j]);
            }
        }
    }
}

/// The first byte of a character's encoding is below 128 only for an ASCII
/// character.
proof fn lemma_lead_byte(v: u32)
    requires
        v > 0x7f,
    ensures
        vstd::utf8::encode_scalar(v)[0] >= 0x80,
{
    assert(vstd::utf8::leading_byte_width_2(v) >= 0x80) by (bit_vector);
    assert(vstd::utf8::leading_byte_width_3(v) >= 0x80) by (bit_vector);
    assert(vstd::utf8::leading_byte_width_4(v) >= 0x80) by (bit_vector);
}

/// Text whose encoding is all ASCII bytes is all ASCII characters, each
/// encoded as its own byte.
proof fn lemma_ascii_bytes_ascii_chars(t: Seq<char>)
    requires
        forall|j: int| 0 <= j < vstd::utf8::encode_utf8(t).len() ==> #[trigger] vstd::utf8::encode_utf8(t)[j] < 0x80,
    ensures
        vstd::utf8::encode_utf8(t).len() == t.len(),
        forall|i: int|
            0 <= i < t.len() ==> (#[trigger] t[i] as u32) < 0x80 && vstd::utf8::encode_utf8(t)[i] == (t[i] as u32) as u8,
    decreases t.len(),
{
    if t.len() > 0 {
        let v = t[0] as u32;
        let e0 = vstd::utf8::encode_scalar(v);
        let rest = t.drop_first();
        let e = vstd::utf8::encode_utf8(t);
        assert(e == e0 + vstd::utf8::encode_utf8(rest));
        assert(e0.len() >= 1);
        assert(e[0] == e0[0]);
        if v > 0x7f {
            lemma_lead_byte(v);
        }
        assert(v <= 0x7f);
        assert(vstd::utf8::leading_byte_width_1(v) == v as u8) by (bit_vector)
            requires
                v <= 0x7f,
        ;
        assert(e0 == seq![v as u8]);
        assert forall|j: int| 0 <= j < vstd::utf8::encode_utf8(rest).len() implies #[trigger] vstd::utf8::encode_utf8(rest)[j] < 0x80 by {
            assert(e[1 + j] == vstd::utf8::encode_utf8(rest)[j]);
        }
        lemma_ascii_bytes_ascii_chars(rest);
        assert forall|i: int| 0 <= i < t.len() implies (#[trigger] t[i] as u32) < 0x80 && e[i] == (t[i] as u32) as u8 by {
            if i > 0 {
                assert(t[i] == rest[i - 1]);
                assert(e[i] == vstd::utf8::encode_utf8(rest)[i - 1]);
            }
        }
    }
}

/// Text that `from_str` reads as a number in hex looks like a printed hash.
proof fn lemma_parsed_text_hash_like(t: Seq<char>)
    requires
        ({
            let b = vstd::utf8::encode_utf8(t);
            b.len() == 16 && b[0] != 43u8 && diesel_hash::spec_parse_radix(b, 16) is Some
        }),
    ensures
        spec_is_hash_like(t),
{
    let b = vstd::utf8::encode_utf8(t);
    assert(b.len() > 0 && b[0] != 43u8);
    lemma_digits_all_hex(b);
    assert forall|j: int| 0 <= j < b.len() implies #[trigger] b[j] < 0x80 by {
        assert(diesel_hash::digit_value(b[j], 16) is Some);
    }
    lemma_ascii_bytes_ascii_chars(t);
    assert forall|i: int| 0 <= i < t.len() implies is_hash_like_char(#[trigger] t[i]) by {
        assert((t[i] as u32) as u8 == b[i]);
        assert(diesel_hash::digit_value(b[i], 16) is Some);
        assert((t[i] as u32) < 0x80);
    }
}

/// A hashed text whose known text, if any, is the text of its hash.
pub open spec fn text_matches(s: HashedStr) -> bool {
    s.text matches Some(t) ==> diesel_hash::spec_hash_str(t@) == s.hash
}

/// A hashed text whose known text, if any, holds no `.` and no `/`.
pub open spec fn text_plain(s: HashedStr) -> bool {
    s.text matches Some(t) ==> !t@.contains('.') && !t@.contains('/')
}

/// The display text of a hash reads back with `from_str` as the hash.
pub proof fn lemma_display_reads_back(s: HashedStr)
    requires
        text_matches(s),
    ensures
        diesel_hash::spec_from_str(display_of(s.hash, s.text)) == s.hash,
{
    match s.text {
        None => lemma_from_str_inverts_hex16(s.hash),
        Some(t) => if spec_is_hash_like(t@) {
            lemma_from_str_inverts_hex16(s.hash);
        } else {
            let b = vstd::utf8::encode_utf8(t@);
            if b.len() == 16 && b[0] != 43u8 && diesel_hash::spec_parse_radix(b, 16) is Some {
                lemma_parsed_text_hash_like(t@);
            }
        },
    }
}

/// A printed hash holds no `.` and no `/`.
proof fn lemma_hex16_plain(h: u64)
    ensures
        !spec_hex16(h).contains('.'),
        !spec_hex16(h).contains('/'),
{
    assert forall|j: int| 0 <= j < 16 implies #[trigger] spec_hex16(h)[j] != '.' && spec_hex16(h)[j] != '/' by {
        let sh: u64 = (4 * (15 - j)) as u64;
        assert((h >> sh) & 0xf <= 15) by (bit_vector);
    }
}

/// The display text of a hash with a plain text holds no `.` and no `/`.
proof fn lemma_display_plain(s: HashedStr)
    requires
        text_plain(s),
    ensures
        !display_of(s.hash, s.text).contains('.'),
        !display_of(s.hash, s.text).contains('/'),
{
    lemma_hex16_plain(s.hash);
}

/// Converting a key to a name and back is lossless: an item's folder path
/// followed by the name under which it is listed reads back, with
/// `split_path_to_key`, as the item's key. This holds of every key whose
/// known texts are the texts of their hashes and whose language and
/// extension texts hold no `.` or `/`; names of the path may hold dots.
pub proof fn lemma_key_name_round_trip(k: HashStrKey)
    requires
        text_matches(k.path),
        text_matches(k.language),
        text_matches(k.extension),
        text_plain(k.language),
        text_plain(k.extension),
    ensures
        ({
            let path = display_of(k.path.hash, k.path.text);
            let lang = display_of(k.language.hash, k.language.text);
            let extn = display_of(k.extension.hash, k.extension.text);
            spec_split_path_to_key(vstd::utf8::encode_utf8(dir_prefix(path) + spec_key_to_name(path, lang, extn)))
                == (k.path.hash, k.language.hash, k.extension.hash)
        }),
{
    let path = display_of(k.path.hash, k.path.text);
    let lang = display_of(k.language.hash, k.language.text);
    let extn = display_of(k.extension.hash, k.extension.text);
    lemma_display_plain(k.language);
    lemma_display_plain(k.extension);
    lemma_listed_name_reads_back(path, lang, extn);
    lemma_display_reads_back(k.path);
    lemma_display_reads_back(k.language);
    lemma_display_reads_back(k.extension);
}

} // verus!
