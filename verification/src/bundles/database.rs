//! The asset database: every file of the packages and the folders their paths
//! imply, with the packages that hold each file.
//!
//! The items, folders included, are kept in one vector in breadth-first order
//! of the folder tree, so that the direct children of a folder lie together;
//! an index finds an item by its path, language and extension.
use vstd::prelude::*;
use std::collections::HashMap;
use std::path::PathBuf;
use std::sync::Arc;
use std::time::SystemTime;
use crate::diesel_hash;
use crate::hashindex::{names_hash, HashIndex, HashedStr};
use crate::diesel_hash::spec_from_bytes;
use crate::text::bytes_of;
use crate::sorting::{sort_positions, holds_range, strictly_sorted, key_seq, shortlex_lt, goes_before};
use super::bundledb_reader::{BundleDbFile, FileEntry, LanguageEntry};
use super::loader::ParsedBundle;
use super::packageheader_reader::PackageHeaderEntry;
use std::collections::HashSet;

verus! {

/// An item's key by hashes: path, language and extension.
#[derive(Debug, PartialEq, Eq, Clone, Copy, Hash, Structural)]
pub struct HashKey {
    pub path: u64,
    pub language: u64,
    pub extension: u64,
}

/// An item's key with the text the hashlist has for each part.
#[derive(Debug, Clone, Copy)]
pub struct HashStrKey<'a> {
    pub path: HashedStr<'a>,
    pub language: HashedStr<'a>,
    pub extension: HashedStr<'a>,
}

impl<'a> PartialEq for HashStrKey<'a> {
    fn eq(&self, other: &HashStrKey<'a>) -> (r: bool) {
        self.path.hash == other.path.hash && self.language.hash == other.language.hash
            && self.extension.hash == other.extension.hash
    }
}

impl<'a> vstd::std_specs::cmp::PartialEqSpecImpl for HashStrKey<'a> {
    open spec fn obeys_eq_spec() -> bool {
        true
    }

    open spec fn eq_spec(&self, other: &HashStrKey<'a>) -> bool {
        self.path.hash == other.path.hash && self.language.hash == other.language.hash
            && self.extension.hash == other.extension.hash
    }
}

impl<'a> Eq for HashStrKey<'a> {}

impl<'a> From<HashStrKey<'a>> for HashKey {
    fn from(src: HashStrKey<'a>) -> (r: HashKey) {
        HashKey { path: src.path.hash, language: src.language.hash, extension: src.extension.hash }
    }
}

impl<'a> vstd::std_specs::convert::FromSpecImpl<HashStrKey<'a>> for HashKey {
    open spec fn obeys_from_spec() -> bool {
        true
    }

    open spec fn from_spec(src: HashStrKey<'a>) -> HashKey {
        HashKey { path: src.path.hash, language: src.language.hash, extension: src.extension.hash }
    }
}

impl<'a> HashStrKey<'a> {
    /// The key `(path, language, extension)` with the hashlist's texts.
    pub fn from_hashes(hashlist: &'a HashIndex, key: (u64, u64, u64)) -> (r: HashStrKey<'a>)
        requires
            hashlist.wf(),
        ensures
            r.path.hash == key.0,
            r.language.hash == key.1,
            r.extension.hash == key.2,
            hashlist.names(r.path),
            hashlist.names(r.language),
            hashlist.names(r.extension),
    {
        HashStrKey {
            path: hashlist.get_hash(key.0),
            language: hashlist.get_hash(key.1),
            extension: hashlist.get_hash(key.2),
        }
    }
}

/// Which package holds a file, and where in that package's entries.
#[derive(Clone, Copy)]
pub struct FileToPackage {
    pub package_number: u32,
    pub file_number: u32,
}

/// A file: the packages that hold it, in package order.
pub struct FileRecord {
    pub packages: Vec<FileToPackage>,
}

/// A folder: where its children start among the items, and how many there are.
pub struct FolderRecord {
    pub first_child: u32,
    pub child_count: u32,
}

/// What an item is.
pub enum ItemRecordSpecifics {
    File(FileRecord),
    Folder(FolderRecord),
}

/// An item: its key and what it is.
pub struct ItemRecord {
    pub path: u64,
    pub language: u64,
    pub extension: u64,
    pub specifics: ItemRecordSpecifics,
}

/// A file in a package: the item it is, and where in the package it lies.
#[derive(Clone, Copy)]
pub struct PackageEntryRecord {
    pub item_number: u32,
    pub offset: u32,
    pub length: u32,
}

/// A package: its id, its data file, when it last changed, and its files.
pub struct PackageRecord {
    pub package_id: u64,
    pub data_path: PathBuf,
    pub last_modified: SystemTime,
    pub files: Vec<PackageEntryRecord>,
}

/// The key of the root folder: three empty strings.
pub open spec fn root_key() -> (u64, u64, u64) {
    (diesel_hash::EMPTY, diesel_hash::EMPTY, diesel_hash::EMPTY)
}

/// An item's key as a tuple.
pub open spec fn item_key(it: ItemRecord) -> (u64, u64, u64) {
    (it.path, it.language, it.extension)
}

/// Where the index finds `k` among the first `n` keys: the last position from
/// 1 on that has it, else position 0 for the root key.
pub open spec fn index_spec(keys: Seq<(u64, u64, u64)>, n: int, k: (u64, u64, u64)) -> Option<
    int,
>
    decreases n,
{
    if n <= 1 {
        if k == root_key() {
            Some(0)
        } else {
            None
        }
    } else if keys[n - 1] == k {
        Some(n - 1)
    } else {
        index_spec(keys, n - 1, k)
    }
}

/// The first entry of a bucket with language `l` and extension `e`.
pub open spec fn bucket_find(b: Seq<(u64, u64, u32)>, l: u64, e: u64) -> Option<int>
    decreases b.len(),
{
    if b.len() == 0 {
        None
    } else {
        match bucket_find(b.drop_last(), l, e) {
            Some(m) => Some(m),
            None => if b.last().0 == l && b.last().1 == e {
                Some(b.len() - 1)
            } else {
                None
            },
        }
    }
}

proof fn lemma_bucket_find(b: Seq<(u64, u64, u32)>, l: u64, e: u64)
    ensures
        bucket_find(b, l, e) matches Some(m) ==> 0 <= m < b.len() && b[m].0 == l && b[m].1 == e,
        bucket_find(b, l, e) is None ==> forall|m: int|
            0 <= m < b.len() ==> !(#[trigger] b[m].0 == l && b[m].1 == e),
    decreases b.len(),
{
    if b.len() > 0 {
        lemma_bucket_find(b.drop_last(), l, e);
        assert forall|m: int| 0 <= m < b.len() - 1 implies #[trigger] b.drop_last()[m] == b[m] by {}
        if bucket_find(b, l, e) is None {
            assert forall|m: int| 0 <= m < b.len() implies !(#[trigger] b[m].0 == l && b[m].1 == e) by {
                if m < b.len() - 1 {
                    assert(b.drop_last()[m] == b[m]);
                }
            }
        }
    }
}

proof fn lemma_bucket_find_first(b: Seq<(u64, u64, u32)>, l: u64, e: u64, m: int)
    requires
        0 <= m < b.len(),
        b[m].0 == l && b[m].1 == e,
        forall|j: int| 0 <= j < m ==> !(#[trigger] b[j].0 == l && b[j].1 == e),
    ensures
        bucket_find(b, l, e) == Some(m),
    decreases b.len(),
{
    if m < b.len() - 1 {
        assert forall|j: int| 0 <= j < b.len() - 1 implies #[trigger] b.drop_last()[j] == b[j] by {}
        lemma_bucket_find_first(b.drop_last(), l, e, m);
    } else {
        lemma_bucket_find(b.drop_last(), l, e);
        assert forall|j: int| 0 <= j < b.len() - 1 implies #[trigger] b.drop_last()[j] == b[j] by {}
    }
}

proof fn lemma_bucket_update(b: Seq<(u64, u64, u32)>, m: int, v: (u64, u64, u32), l: u64, e: u64)
    requires
        0 <= m < b.len(),
        b[m].0 == v.0 && b[m].1 == v.1,
    ensures
        bucket_find(b.update(m, v), l, e) == bucket_find(b, l, e),
    decreases b.len(),
{
    let nb = b.update(m, v);
    if m < b.len() - 1 {
        assert(nb.drop_last() =~= b.drop_last().update(m, v));
        lemma_bucket_update(b.drop_last(), m, v, l, e);
    } else {
        assert(nb.drop_last() =~= b.drop_last());
    }
}

proof fn lemma_bucket_push(b: Seq<(u64, u64, u32)>, v: (u64, u64, u32), l: u64, e: u64)
    requires
        bucket_find(b, v.0, v.1) is None,
    ensures
        bucket_find(b.push(v), l, e) == if l == v.0 && e == v.1 {
            Some(b.len() as int)
        } else {
            bucket_find(b, l, e)
        },
{
    assert(b.push(v).drop_last() =~= b);
    if l == v.0 && e == v.1 {
    } else {
    }
}

/// Items by key, in buckets by path.
pub struct ItemIndex {
    buckets: HashMap<u64, Vec<(u64, u64, u32)>>,
}

impl ItemIndex {
    /// The position stored for `k`.
    pub closed spec fn lookup(&self, k: (u64, u64, u64)) -> Option<u32> {
        match self.buckets@.get(k.0) {
            Some(b) => match bucket_find(b@, k.1, k.2) {
                Some(m) => Some(b@[m].2),
                None => None,
            },
            None => None,
        }
    }

    fn new() -> (r: ItemIndex)
        ensures
            forall|k: (u64, u64, u64)| #[trigger] r.lookup(k) is None,
    {
        ItemIndex { buckets: HashMap::new() }
    }

    fn insert(&mut self, k: (u64, u64, u64), v: u32)
        ensures
            forall|j: (u64, u64, u64)| #[trigger] final(self).lookup(j) == if j == k {
                Some(v)
            } else {
                old(self).lookup(j)
            },
    {
        let ghost old_map = self.buckets@;
        let mut b = match self.buckets.remove(&k.0) {
            Some(b) => b,
            None => Vec::new(),
        };
        let ghost ob = b@;
        assert(!old_map.contains_key(k.0) ==> ob.len() == 0);
        assert(old_map.contains_key(k.0) ==> ob == old_map[k.0]@);
        let found = bucket_position(&b, k.1, k.2);
        proof {
            lemma_bucket_find(ob, k.1, k.2);
        }
        match found {
            Some(m) => {
                proof {
                    assert forall|l: u64, e: u64| #[trigger]
                        bucket_find(ob.update(m as int, (k.1, k.2, v)), l, e) == bucket_find(
                            ob,
                            l,
                            e,
                        ) by {
                        lemma_bucket_update(ob, m as int, (k.1, k.2, v), l, e);
                    }
                }
                b.set(m, (k.1, k.2, v));
                assert(b@ == ob.update(m as int, (k.1, k.2, v)));
            },
            None => {
                proof {
                    assert forall|l: u64, e: u64| #[trigger]
                        bucket_find(ob.push((k.1, k.2, v)), l, e) == if l == k.1 && e == k.2 {
                            Some(ob.len() as int)
                        } else {
                            bucket_find(ob, l, e)
                        } by {
                        lemma_bucket_push(ob, (k.1, k.2, v), l, e);
                    }
                }
                b.push((k.1, k.2, v));
            },
        }
        let ghost nb = b@;
        self.buckets.insert(k.0, b);
        proof {
            assert forall|j: (u64, u64, u64)| #[trigger] self.lookup(j) == if j == k {
                Some(v)
            } else {
                old(self).lookup(j)
            } by {
                if j.0 == k.0 {
                    assert(self.buckets@.get(j.0) == Some(self.buckets@[k.0]));
                    assert(self.buckets@[k.0]@ == nb);
                    if !old_map.contains_key(k.0) {
                        assert(bucket_find(ob, j.1, j.2) is None);
                    }
                    lemma_bucket_find(ob, j.1, j.2);
                    match found {
                        Some(m) => {
                            assert(bucket_find(nb, j.1, j.2) == bucket_find(ob, j.1, j.2));
                            if let Some(mm) = bucket_find(ob, j.1, j.2) {
                                if mm != m {
                                    assert(nb[mm] == ob[mm]);
                                }
                            }
                        },
                        None => {
                            if let Some(mm) = bucket_find(ob, j.1, j.2) {
                                assert(nb[mm] == ob[mm]);
                            }
                        },
                    }
                } else {
                    assert(self.buckets@.get(j.0) == old_map.get(j.0));
                }
            }
        }
    }

    fn get(&self, k: (u64, u64, u64)) -> (r: Option<u32>)
        ensures
            r == self.lookup(k),
    {
        match self.buckets.get(&k.0) {
            None => None,
            Some(b) => match bucket_position(b, k.1, k.2) {
                Some(m) => Some(b[m].2),
                None => None,
            },
        }
    }
}

/// The first entry of the bucket with language `l` and extension `e`.
fn bucket_position(b: &Vec<(u64, u64, u32)>, l: u64, e: u64) -> (r: Option<usize>)
    ensures
        r == match bucket_find(b@, l, e) {
            Some(m) => Some(m as usize),
            None => None,
        },
        r matches Some(m) ==> m < b.len() && bucket_find(b@, l, e) == Some(m as int),
{
    let n = b.len();
    let mut m: usize = 0;
    while m < n
        invariant
            n == b@.len(),
            m <= n,
            forall|j: int| 0 <= j < m ==> !(#[trigger] b@[j].0 == l && b@[j].1 == e),
        decreases n - m,
    {
        if b[m].0 == l && b[m].1 == e {
            proof {
                lemma_bucket_find_first(b@, l, e, m as int);
            }
            return Some(m);
        }
        m += 1;
    }
    proof {
        lemma_bucket_find(b@, l, e);
        if let Some(j) = bucket_find(b@, l, e) {
            assert(b@[j].0 == l && b@[j].1 == e);
        }
    }
    None
}

/// The first language from `from` on with id `id`.
pub open spec fn first_language(langs: Seq<LanguageEntry>, id: u32, from: int) -> Option<int>
    decreases langs.len() - from,
{
    if from < 0 || from >= langs.len() {
        None
    } else if langs[from].id == id {
        Some(from)
    } else {
        first_language(langs, id, from + 1)
    }
}

/// The hash of the language a file names by `id`: the empty string for 0,
/// else the first language with that id.
pub open spec fn language_of(langs: Seq<LanguageEntry>, id: u32) -> u64 {
    if id == 0 {
        diesel_hash::EMPTY
    } else {
        langs[first_language(langs, id, 0)->0].hash
    }
}

/// Every file's language id is 0 or the id of a language.
pub open spec fn languages_resolve(bdb: &BundleDbFile) -> bool {
    forall|j: int|
        0 <= j < bdb.files@.len() ==> (#[trigger] bdb.files@[j]).lang_id == 0 || first_language(
            bdb.languages@,
            bdb.files@[j].lang_id,
            0,
        ) is Some
}

/// A file's key: its path, its language's hash and its extension.
pub open spec fn file_key(langs: Seq<LanguageEntry>, f: FileEntry) -> (u64, u64, u64) {
    (f.path, language_of(langs, f.lang_id), f.extension)
}

/// The keys of the first `n` files by file id; a later file with the same id
/// replaces an earlier one.
pub open spec fn keys_by_file_id(langs: Seq<LanguageEntry>, files: Seq<FileEntry>, n: int) -> Map<
    u32,
    (u64, u64, u64),
>
    decreases n,
{
    if n <= 0 {
        Map::empty()
    } else {
        keys_by_file_id(langs, files, n - 1).insert(files[n - 1].file_id, file_key(langs, files[n - 1]))
    }
}

/// Whether every file's language id is 0 or the id of a language.
pub fn languages_resolved(bdb: &BundleDbFile) -> (r: bool)
    ensures
        r == languages_resolve(bdb),
{
    let n = bdb.files.len();
    let nl = bdb.languages.len();
    let mut j: usize = 0;
    while j < n
        invariant
            n == bdb.files@.len(),
            nl == bdb.languages@.len(),
            j <= n,
            forall|q: int|
                0 <= q < j ==> (#[trigger] bdb.files@[q]).lang_id == 0 || first_language(
                    bdb.languages@,
                    bdb.files@[q].lang_id,
                    0,
                ) is Some,
        decreases n - j,
    {
        let id = bdb.files[j].lang_id;
        if id != 0 {
            let mut i: usize = 0;
            let mut found = false;
            while i < nl && !found
                invariant
                    nl == bdb.languages@.len(),
                    i <= nl,
                    !found ==> first_language(bdb.languages@, id, i as int) == first_language(bdb.languages@, id, 0),
                    found ==> first_language(bdb.languages@, id, 0) is Some,
                decreases nl - i + if found { 0int } else { 1int },
            {
                if bdb.languages[i].id == id {
                    assert(first_language(bdb.languages@, id, i as int) == Some(i as int));
                    found = true;
                } else {
                    i += 1;
                }
            }
            if !found {
                assert(first_language(bdb.languages@, id, 0) is None);
                assert(!languages_resolve(bdb)) by {
                    assert(bdb.files@[j as int].lang_id == id);
                }
                return false;
            }
        }
        j += 1;
    }
    true
}

proof fn lemma_keys_by_file_id_domain(langs: Seq<LanguageEntry>, files: Seq<FileEntry>, n: int, id: u32)
    requires
        0 <= n <= files.len(),
    ensures
        keys_by_file_id(langs, files, n).contains_key(id) <==> exists|j: int| 0 <= j < n && (#[trigger] files[j]).file_id == id,
    decreases n,
{
    if n > 0 {
        lemma_keys_by_file_id_domain(langs, files, n - 1, id);
        if exists|j: int| 0 <= j < n && (#[trigger] files[j]).file_id == id {
            let j = choose|j: int| 0 <= j < n && (#[trigger] files[j]).file_id == id;
            if j < n - 1 {
                assert(exists|k: int| 0 <= k < n - 1 && (#[trigger] files[k]).file_id == id);
            }
        }
    }
}

/// Whether every entry of every package names the file id of a file of
/// `bdb`.
pub fn file_ids_resolved(bdb: &BundleDbFile, packages: &Vec<ParsedBundle>) -> (r: bool)
    ensures
        r == file_ids_resolve(packages@, keys_by_file_id(bdb.languages@, bdb.files@, bdb.files@.len() as int)),
{
    let ghost m = keys_by_file_id(bdb.languages@, bdb.files@, bdb.files@.len() as int);
    let mut ids: HashSet<u32> = HashSet::new();
    let n = bdb.files.len();
    let mut j: usize = 0;
    while j < n
        invariant
            n == bdb.files@.len(),
            j <= n,
            forall|id: u32| #[trigger] ids@.contains(id) <==> exists|q: int| 0 <= q < j && (#[trigger] bdb.files@[q]).file_id == id,
        decreases n - j,
    {
        let id = bdb.files[j].file_id;
        ids.insert(id);
        proof {
            assert forall|x: u32| #[trigger] ids@.contains(x) <==> exists|q: int| 0 <= q < j + 1 && (#[trigger] bdb.files@[q]).file_id == x by {
                if x == id {
                    assert(bdb.files@[j as int].file_id == x);
                }
                if exists|q: int| 0 <= q < j + 1 && (#[trigger] bdb.files@[q]).file_id == x {
                    let q = choose|q: int| 0 <= q < j + 1 && (#[trigger] bdb.files@[q]).file_id == x;
                    if q < j {
                        assert(exists|k: int| 0 <= k < j && (#[trigger] bdb.files@[k]).file_id == x);
                    }
                }
            }
        }
        j += 1;
    }
    proof {
        assert forall|id: u32| #[trigger] ids@.contains(id) <==> m.contains_key(id) by {
            lemma_keys_by_file_id_domain(bdb.languages@, bdb.files@, n as int, id);
        }
    }
    let np = packages.len();
    let mut p: usize = 0;
    while p < np
        invariant
            np == packages@.len(),
            p <= np,
            m == keys_by_file_id(bdb.languages@, bdb.files@, bdb.files@.len() as int),
            forall|id: u32| #[trigger] ids@.contains(id) <==> m.contains_key(id),
            forall|pp: int, f: int|
                0 <= pp < p && 0 <= f < packages@[pp].header.entries@.len() ==> m.contains_key(#[trigger] packages@[pp].header.entries@[f].file_id),
        decreases np - p,
    {
        let entries = &packages[p].header.entries;
        let ne = entries.len();
        let mut f: usize = 0;
        while f < ne
            invariant
                np == packages@.len(),
                p < np,
                entries == packages@[p as int].header.entries,
                ne == entries@.len(),
                f <= ne,
                m == keys_by_file_id(bdb.languages@, bdb.files@, bdb.files@.len() as int),
                forall|id: u32| #[trigger] ids@.contains(id) <==> m.contains_key(id),
                forall|g: int| 0 <= g < f ==> m.contains_key(#[trigger] entries@[g].file_id),
            decreases ne - f,
        {
            if !ids.contains(&entries[f].file_id) {
                assert(!m.contains_key(packages@[p as int].header.entries@[f as int].file_id));
                return false;
            }
            f += 1;
        }
        p += 1;
    }
    true
}

fn language_hash(langs: &Vec<LanguageEntry>, id: u32) -> (r: u64)
    requires
        id == 0 || first_language(langs@, id, 0) is Some,
    ensures
        r == language_of(langs@, id),
{
    if id == 0 {
        return diesel_hash::EMPTY;
    }
    let n = langs.len();
    let mut i: usize = 0;
    while i < n
        invariant
            n == langs@.len(),
            i <= n,
            first_language(langs@, id, i as int) == first_language(langs@, id, 0),
            first_language(langs@, id, 0) is Some,
            id != 0,
        decreases n - i,
    {
        if langs[i].id == id {
            assert(first_language(langs@, id, i as int) == Some(i as int));
            return langs[i].hash;
        }
        i += 1;
    }
    0
}

/// Whether the text `t` of the path hash `path` has a `/` at `i` and a later
/// one at `k`, where the part before `i` takes the hash `path` itself, as an
/// Idstring or under `from_str`.
pub open spec fn folder_takes_path_hash(path: u64, t: Seq<u8>, i: int, k: int) -> bool {
    &&& 0 <= i < k < t.len()
    &&& t[i] == 47u8
    &&& t[k] == 47u8
    &&& (path == diesel_hash::spec_hash_level(t.subrange(0, i), 0) || path == spec_from_bytes(t.subrange(0, i)))
}

/// Whether some file's path has a text that names it and in which a folder
/// part takes the path's own hash before another `/` follows.
pub open spec fn some_folder_takes_path_hash(bdb: &BundleDbFile) -> bool {
    exists|j: int, t: Seq<u8>, i: int, k: int|
        0 <= j < bdb.files@.len() && names_hash(bdb.files@[j].path, t) && #[trigger] folder_takes_path_hash(
            bdb.files@[j].path,
            t,
            i,
            k,
        )
}

/// The files' keys, the keys by file id, and the folders that the known file
/// paths imply, as the hashlist interns them.
struct Collected {
    file_keys: Vec<(u64, u64, u64)>,
    by_file_id: HashMap<u32, (u64, u64, u64)>,
    folders: Vec<u64>,
    seen: HashSet<u64>,
}

/// Goes through the files of `bdb`: records each one's key, and interns every
/// part of its path before a `/` as a folder. `None` where a folder part
/// takes the hash of the path it was cut from and a further `/` follows.
fn collect(hashlist: &mut HashIndex, bdb: &BundleDbFile) -> (r: Option<Collected>)
    requires
        old(hashlist).wf(),
        languages_resolve(bdb),
    ensures
        final(hashlist).wf(),
        r is None ==> some_folder_takes_path_hash(bdb),
        r matches Some(c) ==> {
            &&& c.file_keys@.len() == bdb.files@.len()
            &&& forall|j: int|
                0 <= j < bdb.files@.len() ==> #[trigger] c.file_keys@[j] == file_key(
                    bdb.languages@,
                    bdb.files@[j],
                )
            &&& c.by_file_id@ == keys_by_file_id(bdb.languages@, bdb.files@, bdb.files@.len() as int)
            &&& c.folders@.no_duplicates()
            &&& c.seen@ == c.folders@.to_set()
            &&& forall|k: int|
                0 <= k < c.folders@.len() ==> final(hashlist).lookup(#[trigger] c.folders@[k]) is Some
            &&& forall|x: u64| !c.folders@.contains(x) ==> #[trigger] final(hashlist).lookup(x) == old(hashlist).lookup(x)
        },
{
    let mut file_keys: Vec<(u64, u64, u64)> = Vec::new();
    let mut by_file_id: HashMap<u32, (u64, u64, u64)> = HashMap::new();
    let mut folders: Vec<u64> = Vec::new();
    let mut seen: HashSet<u64> = HashSet::new();
    let n = bdb.files.len();
    let mut j: usize = 0;
    while j < n
        invariant
            n == bdb.files@.len(),
            j <= n,
            languages_resolve(bdb),
            hashlist.wf(),
            file_keys@.len() == j,
            forall|q: int|
                0 <= q < j ==> #[trigger] file_keys@[q] == file_key(bdb.languages@, bdb.files@[q]),
            by_file_id@ == keys_by_file_id(bdb.languages@, bdb.files@, j as int),
            folders@.no_duplicates(),
            seen@ == folders@.to_set(),
            forall|k: int| 0 <= k < folders@.len() ==> hashlist.lookup(#[trigger] folders@[k]) is Some,
            forall|x: u64| !folders@.contains(x) ==> #[trigger] hashlist.lookup(x) == old(hashlist).lookup(x),
        decreases n - j,
    {
        let f = &bdb.files[j];
        assert(f.lang_id == 0 || first_language(bdb.languages@, f.lang_id, 0) is Some);
        let le = language_hash(&bdb.languages, f.lang_id);
        file_keys.push((f.path, le, f.extension));
        by_file_id.insert(f.file_id, (f.path, le, f.extension));
        let path: String = match hashlist.get_hash(f.path).text {
            None => String::new(),
            Some(t) => t.to_owned(),
        };
        let bytes = path.as_str().as_bytes();
        let ghost pb = bytes@;
        proof {
            vstd::utf8::encode_utf8_valid_utf8(path@);
        }
        let m = bytes.len();
        let mut clobbered = false;
        let ghost mut clob_at: int = 0;
        let mut i: usize = 0;
        while i < m
            invariant
                m == pb.len(),
                bytes@ == pb,
                n == bdb.files@.len(),
                j < n,
                *f == bdb.files@[j as int],
                clobbered ==> 0 <= clob_at < i && pb[clob_at] == 47u8 && names_hash(f.path, pb) && (f.path
                    == diesel_hash::spec_hash_level(pb.subrange(0, clob_at), 0) || f.path == spec_from_bytes(
                    pb.subrange(0, clob_at),
                )),
                vstd::utf8::valid_utf8(pb),
                i <= m,
                hashlist.wf(),
                pb.len() > 0 ==> !clobbered ==> hashlist.lookup(f.path) == Some(pb),
                folders@.no_duplicates(),
                seen@ == folders@.to_set(),
                forall|k: int|
                    0 <= k < folders@.len() ==> hashlist.lookup(#[trigger] folders@[k]) is Some,
                forall|x: u64| !folders@.contains(x) ==> #[trigger] hashlist.lookup(x) == old(hashlist).lookup(x),
            decreases m - i,
        {
            if bytes[i] == 47u8 {
                if clobbered {
                    assert(folder_takes_path_hash(bdb.files@[j as int].path, pb, clob_at, i as int));
                    return None;
                }
                proof {
                    crate::text::lemma_char_boundary_iff(pb, 0);
                    crate::hashindex::lemma_lookup_names_hash(hashlist, f.path);
                }
                let ghost before = *hashlist;
                let h = hashlist.intern_substring(f.path, 0..i);
                proof {
                    assert forall|k: int| 0 <= k < folders@.len() implies hashlist.lookup(
                        #[trigger] folders@[k],
                    ) is Some by {
                        if Some(folders@[k]) != h {
                            assert(hashlist.lookup(folders@[k]) == before.lookup(folders@[k]));
                        }
                    }
                }
                let h = h.unwrap();
                if h == f.path {
                    clobbered = true;
                    proof {
                        clob_at = i as int;
                    }
                }
                if !seen.contains(&h) {
                    proof {
                        assert(!folders@.contains(h));
                    }
                    let ghost old_f = folders@;
                    seen.insert(h);
                    folders.push(h);
                    proof {
                        assert forall|x: u64| folders@.contains(x) <==> (old_f.contains(x) || x == h) by {
                            if folders@.contains(x) {
                                let q = choose|q: int| 0 <= q < folders@.len() && folders@[q] == x;
                                if q < old_f.len() {
                                    assert(old_f[q] == x);
                                }
                            }
                            if old_f.contains(x) {
                                let q = choose|q: int| 0 <= q < old_f.len() && old_f[q] == x;
                                assert(folders@[q] == x);
                            }
                            if x == h {
                                assert(folders@[old_f.len() as int] == x);
                            }
                        }
                        assert(folders@.to_set() =~= old_f.to_set().insert(h));
                    }
                }
                proof {
                    assert(seen@.contains(h));
                    assert forall|x: u64| !folders@.contains(x) implies #[trigger] hashlist.lookup(x) == old(
                        hashlist,
                    ).lookup(x) by {
                        assert(x != h);
                        assert(hashlist.lookup(x) == before.lookup(x));
                    }
                }
            }
            i += 1;
        }
        j += 1;
    }
    Some(Collected { file_keys, by_file_id, folders, seen })
}

/// The hashes of the parts of `t` between `/`s, from the part that starts at
/// `start`, with `i` the next byte to look at.
pub open spec fn hashed_components(t: Seq<u8>, start: int, i: int) -> Seq<u64>
    decreases t.len() - i,
{
    if i >= t.len() {
        seq![diesel_hash::spec_hash_level(t.subrange(start, t.len() as int), 0)]
    } else if t[i] == 47u8 {
        seq![diesel_hash::spec_hash_level(t.subrange(start, i), 0)] + hashed_components(
            t,
            i + 1,
            i + 1,
        )
    } else {
        hashed_components(t, start, i + 1)
    }
}

/// What items are ordered by: the Idstrings of the parts of the path's text
/// between `/`s; none for the empty text; the path hash alone if the text is
/// unknown.
pub open spec fn path_sort_key(text: Option<Seq<u8>>, path: u64) -> Seq<u64> {
    match text {
        None => seq![path],
        Some(t) => if t.len() == 0 {
            Seq::empty()
        } else {
            hashed_components(t, 0, 0)
        },
    }
}

fn sort_key_of(hashlist: &HashIndex, path: u64) -> (r: Vec<u64>)
    requires
        hashlist.wf(),
    ensures
        r@ == path_sort_key(hashlist.lookup(path), path),
{
    match hashlist.get_hash(path).text {
        None => {
            let mut r: Vec<u64> = Vec::new();
            r.push(path);
            assert(r@ =~= seq![path]);
            r
        },
        Some(t) => {
            let b = t.as_bytes();
            let n = b.len();
            let mut r: Vec<u64> = Vec::new();
            if n == 0 {
                return r;
            }
            let mut start: usize = 0;
            let mut i: usize = 0;
            while i < n
                invariant
                    n == b@.len(),
                    start <= i <= n,
                    r@ + hashed_components(b@, start as int, i as int) == hashed_components(b@, 0, 0),
                decreases n - i,
            {
                if b[i] == 47u8 {
                    let h = diesel_hash::hash_level(vstd::slice::slice_subrange(b, start, i), 0);
                    let ghost old_r = r@;
                    r.push(h);
                    assert(r@ + hashed_components(b@, i + 1, i + 1) =~= old_r + hashed_components(
                        b@,
                        start as int,
                        i as int,
                    ));
                    start = i + 1;
                }
                i += 1;
            }
            let h = diesel_hash::hash_level(vstd::slice::slice_subrange(b, start, n), 0);
            r.push(h);
            assert(r@ =~= hashed_components(b@, 0, 0));
            r
        },
    }
}

/// An item before its record is built: path, language, extension, and
/// whether it is a folder.
pub open spec fn folder_pre(h: u64) -> (u64, u64, u64, bool) {
    (h, diesel_hash::EMPTY, diesel_hash::EMPTY, true)
}

/// The items in the order they are gathered: the files, then the root folder
/// if no file path begins with `/`, then the folders.
pub open spec fn gathered(
    file_keys: Seq<(u64, u64, u64)>,
    folders: Seq<u64>,
) -> Seq<(u64, u64, u64, bool)> {
    file_keys.map_values(|k: (u64, u64, u64)| (k.0, k.1, k.2, false)) + (if folders.contains(
        diesel_hash::EMPTY,
    ) {
        Seq::empty()
    } else {
        seq![folder_pre(diesel_hash::EMPTY)]
    }) + folders.map_values(|h: u64| folder_pre(h))
}

/// The sort keys of items under a hashlist.
pub open spec fn sort_keys(h: HashIndex, items: Seq<(u64, u64, u64, bool)>) -> Seq<Seq<u64>> {
    items.map_values(|it: (u64, u64, u64, bool)| path_sort_key(h.lookup(it.0), it.0))
}

/// `sorted` is `items` put in the order of their sort keys, items with equal
/// keys keeping their order.
pub open spec fn is_stable_sort(
    h: HashIndex,
    items: Seq<(u64, u64, u64, bool)>,
    sorted: Seq<(u64, u64, u64, bool)>,
) -> bool {
    exists|pos: Seq<usize>|
        {
            &&& #[trigger] holds_range(pos, 0, items.len() as int)
            &&& strictly_sorted(sort_keys(h, items), pos)
            &&& sorted.len() == items.len()
            &&& forall|k: int| 0 <= k < sorted.len() ==> #[trigger] sorted[k] == items[pos[k] as int]
        }
}

fn arrange(hashlist: &HashIndex, c: &Collected) -> (r: Vec<(u64, u64, u64, bool)>)
    requires
        hashlist.wf(),
        c.seen@ == c.folders@.to_set(),
    ensures
        is_stable_sort(*hashlist, gathered(c.file_keys@, c.folders@), r@),
{
    let ghost g = gathered(c.file_keys@, c.folders@);
    let mut pre: Vec<(u64, u64, u64, bool)> = Vec::new();
    let nf = c.file_keys.len();
    let mut j: usize = 0;
    while j < nf
        invariant
            nf == c.file_keys@.len(),
            j <= nf,
            pre@ =~= c.file_keys@.subrange(0, j as int).map_values(
                |k: (u64, u64, u64)| (k.0, k.1, k.2, false),
            ),
        decreases nf - j,
    {
        let k = c.file_keys[j];
        pre.push((k.0, k.1, k.2, false));
        j += 1;
    }
    let ghost files_part = pre@;
    if !c.seen.contains(&diesel_hash::EMPTY) {
        pre.push((diesel_hash::EMPTY, diesel_hash::EMPTY, diesel_hash::EMPTY, true));
    }
    let ghost root_part = pre@;
    let nd = c.folders.len();
    let mut q: usize = 0;
    while q < nd
        invariant
            nd == c.folders@.len(),
            q <= nd,
            pre@ =~= root_part + c.folders@.subrange(0, q as int).map_values(|h: u64| folder_pre(h)),
        decreases nd - q,
    {
        let h = c.folders[q];
        pre.push((h, diesel_hash::EMPTY, diesel_hash::EMPTY, true));
        q += 1;
    }
    assert(c.file_keys@.subrange(0, nf as int) =~= c.file_keys@);
    assert(c.folders@.subrange(0, nd as int) =~= c.folders@);
    assert(pre@ =~= g);
    let n = pre.len();
    let mut keys: Vec<Vec<u64>> = Vec::new();
    let mut k: usize = 0;
    while k < n
        invariant
            n == pre@.len(),
            k <= n,
            hashlist.wf(),
            key_seq(keys@) =~= sort_keys(*hashlist, pre@).subrange(0, k as int),
        decreases n - k,
    {
        let key = sort_key_of(hashlist, pre[k].0);
        let ghost old_keys = keys@;
        keys.push(key);
        assert(key_seq(keys@) =~= key_seq(old_keys).push(key@));
        k += 1;
    }
    assert(key_seq(keys@) =~= sort_keys(*hashlist, pre@));
    let pos = sort_positions(&keys);
    let mut sorted: Vec<(u64, u64, u64, bool)> = Vec::new();
    let mut m: usize = 0;
    while m < n
        invariant
            n == pre@.len(),
            holds_range(pos@, 0, n as int),
            m <= n,
            sorted@.len() == m,
            forall|x: int| 0 <= x < m ==> #[trigger] sorted@[x] == pre@[pos@[x] as int],
        decreases n - m,
    {
        assert(pos@.contains(pos@[m as int]));
        let p = pos[m];
        assert(p < n);
        sorted.push(pre[p]);
        m += 1;
    }
    assert(is_stable_sort(*hashlist, g, sorted@)) by {
        assert(holds_range(pos@, 0, g.len() as int));
    }
    sorted
}

/// The offset of the last `/` among the first `n` bytes of `t`, or 0.
pub open spec fn last_slash(t: Seq<u8>, n: int) -> int
    decreases n,
{
    if n <= 0 {
        0
    } else if t[n - 1] == 47u8 {
        n - 1
    } else {
        last_slash(t, n - 1)
    }
}

/// The text of the folder an item belongs in: the part of its text before the
/// last `/`, empty if there is none; an item whose text is unknown belongs in
/// the root.
pub open spec fn parent_text(text: Option<Seq<u8>>) -> Seq<u8> {
    match text {
        None => Seq::empty(),
        Some(t) => t.subrange(0, last_slash(t, t.len() as int)),
    }
}

/// The first folder at or after `j`.
pub open spec fn next_folder(is_folder: Seq<bool>, j: int) -> Option<int>
    decreases is_folder.len() - j,
{
    if j < 0 || j >= is_folder.len() {
        None
    } else if is_folder[j] {
        Some(j)
    } else {
        next_folder(is_folder, j + 1)
    }
}

/// Hands the sorted items from `i` on to folders. The current folder is `cf`
/// with text `cfp`; its children so far start at `s` and number `l`; `asg`
/// holds the children of the folders already left. An item whose parent text
/// is not the current folder's closes that folder and is the first child of
/// the next folder in order. `None` where the folder to close is a file, or no
/// folder follows, or the next folder's text is unknown.
pub open spec fn walk(
    is_folder: Seq<bool>,
    texts: Seq<Option<Seq<u8>>>,
    i: int,
    cf: int,
    cfp: Seq<u8>,
    s: int,
    l: int,
    asg: Map<int, (int, int)>,
) -> Option<Map<int, (int, int)>>
    decreases is_folder.len() - i,
{
    if i >= is_folder.len() {
        Some(asg)
    } else if cfp == parent_text(texts[i]) {
        walk(is_folder, texts, i + 1, cf, cfp, s, l + 1, asg)
    } else if !(0 <= cf < is_folder.len() && is_folder[cf]) {
        None
    } else {
        match next_folder(is_folder, cf + 1) {
            None => None,
            Some(nf) => match texts[nf] {
                None => None,
                Some(t) => walk(is_folder, texts, i + 1, nf, t, i, 1, asg.insert(cf, (s, l))),
            },
        }
    }
}

/// The walk over all items from the root at position 0.
pub open spec fn full_walk(is_folder: Seq<bool>, texts: Seq<Option<Seq<u8>>>) -> Option<
    Map<int, (int, int)>,
> {
    walk(is_folder, texts, 1, 0, Seq::empty(), 1, 0, Map::empty())
}

/// The children a walk gave folder `k`: `(first, count)`, or `(0, 0)`.
pub open spec fn range_of(asg: Map<int, (int, int)>, k: int) -> (int, int) {
    if asg.contains_key(k) {
        asg[k]
    } else {
        (0, 0)
    }
}

/// Which of the items are folders.
pub open spec fn folder_flags(items: Seq<(u64, u64, u64, bool)>) -> Seq<bool> {
    items.map_values(|it: (u64, u64, u64, bool)| it.3)
}

/// The texts of the items' paths.
pub open spec fn item_texts(h: HashIndex, items: Seq<(u64, u64, u64, bool)>) -> Seq<Option<Seq<u8>>> {
    items.map_values(|it: (u64, u64, u64, bool)| h.lookup(it.0))
}

fn bytes_eq(a: &[u8], b: &[u8]) -> (r: bool)
    ensures
        r == (a@ == b@),
{
    if a.len() != b.len() {
        return false;
    }
    let n = a.len();
    let mut i: usize = 0;
    while i < n
        invariant
            n == a@.len(),
            n == b@.len(),
            i <= n,
            forall|k: int| 0 <= k < i ==> a@[k] == b@[k],
        decreases n - i,
    {
        if a[i] != b[i] {
            return false;
        }
        i += 1;
    }
    assert(a@ =~= b@);
    true
}

fn parent_bytes<'s>(text: Option<&'s str>) -> (r: &'s [u8])
    ensures
        r@ == parent_text(
            match text {
                Some(t) => Some(bytes_of(t)),
                None => None,
            },
        ),
{
    match text {
        None => {
            let e: &[u8] = &[];
            assert(e@ =~= Seq::<u8>::empty());
            e
        },
        Some(t) => {
            let b = t.as_bytes();
            let mut n = b.len();
            while n > 0
                invariant
                    text == Some(t),
                    b@ == bytes_of(t),
                    n <= b@.len(),
                    last_slash(b@, n as int) == last_slash(b@, b@.len() as int),
                decreases n,
            {
                if b[n - 1] == 47u8 {
                    assert(last_slash(b@, n as int) == n - 1);
                    assert(b@ == bytes_of(t));
                    return vstd::slice::slice_subrange(b, 0, n - 1);
                }
                n -= 1;
            }
            vstd::slice::slice_subrange(b, 0, 0)
        },
    }
}

/// Gives each folder among the sorted items the range of its children, as
/// `full_walk` does.
fn assign_children(hashlist: &HashIndex, sorted: &Vec<(u64, u64, u64, bool)>) -> (r: Option<
    Vec<(u32, u32)>,
>)
    requires
        hashlist.wf(),
        sorted@.len() <= u32::MAX + 1,
    ensures
        r is Some <==> full_walk(folder_flags(sorted@), item_texts(*hashlist, sorted@)) is Some,
        r matches Some(v) ==> {
            &&& v@.len() == sorted@.len()
            &&& forall|k: int|
                0 <= k < v@.len() ==> (#[trigger] v@[k].0 as int, v@[k].1 as int) == range_of(
                    full_walk(folder_flags(sorted@), item_texts(*hashlist, sorted@))->0,
                    k,
                )
        },
{
    let ghost fl = folder_flags(sorted@);
    let ghost tx = item_texts(*hashlist, sorted@);
    let ghost result = full_walk(fl, tx);
    let n = sorted.len();
    let mut ranges: Vec<(u32, u32)> = Vec::new();
    let mut z: usize = 0;
    while z < n
        invariant
            z <= n,
            ranges@.len() == z,
            forall|k: int| 0 <= k < z ==> ranges@[k] == (0u32, 0u32),
        decreases n - z,
    {
        ranges.push((0, 0));
        z += 1;
    }
    let mut cf: usize = 0;
    let mut cfp: &[u8] = &[];
    assert(cfp@ =~= Seq::<u8>::empty());
    let mut s: u32 = 1;
    let mut l: u32 = 0;
    let ghost mut asg: Map<int, (int, int)> = Map::empty();
    let mut i: usize = 1;
    while i < n
        invariant
            n == sorted@.len(),
            n <= u32::MAX + 1,
            fl == folder_flags(sorted@),
            tx == item_texts(*hashlist, sorted@),
            result == full_walk(fl, tx),
            hashlist.wf(),
            1 <= i,
            cf < n || n <= 1,
            s <= i,
            l < i,
            walk(fl, tx, i as int, cf as int, cfp@, s as int, l as int, asg) == result,
            ranges@.len() == n,
            forall|k: int| 0 <= k < n ==> (#[trigger] ranges@[k].0 as int, ranges@[k].1 as int) == range_of(asg, k),
            forall|k: int| #[trigger] asg.contains_key(k) ==> 0 <= k < n,
        decreases n - i,
    {
        let ci_text = hashlist.get_hash(sorted[i].0).text;
        let parent = parent_bytes(ci_text);
        assert(tx[i as int] == hashlist.lookup(sorted@[i as int].0));
        assert(parent@ == parent_text(tx[i as int]));
        assert(fl[cf as int] == sorted@[cf as int].3);
        if bytes_eq(cfp, parent) {
            l += 1;
        } else {
            if !sorted[cf].3 {
                assert(cfp@ != parent_text(tx[i as int]));
                assert(!fl[cf as int]);
                assert(walk(fl, tx, i as int, cf as int, cfp@, s as int, l as int, asg) is None);
                return None;
            }
            ranges.set(cf, (s, l));
            proof {
                asg = asg.insert(cf as int, (s as int, l as int));
            }
            s = i as u32;
            l = 1;
            let mut nf = cf + 1;
            while nf < n && !sorted[nf].3
                invariant
                    cf < nf <= n,
                    n == sorted@.len(),
                    fl == folder_flags(sorted@),
                    next_folder(fl, nf as int) == next_folder(fl, cf + 1),
                decreases n - nf,
            {
                nf += 1;
            }
            if nf >= n {
                assert(next_folder(fl, nf as int) is None);
                return None;
            }
            assert(fl[nf as int] == sorted@[nf as int].3);
            assert(next_folder(fl, cf + 1) == Some(nf as int));
            cf = nf;
            assert(tx[cf as int] == hashlist.lookup(sorted@[cf as int].0));
            match hashlist.get_hash(sorted[cf].0).text {
                None => {
                    return None;
                },
                Some(t) => {
                    cfp = t.as_bytes();
                },
            }
        }
        i += 1;
    }
    Some(ranges)
}

/// The keys of items before their records are built.
pub open spec fn pre_keys(items: Seq<(u64, u64, u64, bool)>) -> Seq<(u64, u64, u64)> {
    items.map_values(|it: (u64, u64, u64, bool)| (it.0, it.1, it.2))
}

/// The index of the sorted items: the root key at 0, then every item from 1
/// on under its key, later ones replacing earlier ones.
fn build_index(sorted: &Vec<(u64, u64, u64, bool)>) -> (r: ItemIndex)
    requires
        sorted@.len() <= u32::MAX + 1,
    ensures
        forall|k: (u64, u64, u64)| #[trigger] r.lookup(k) == match index_spec(
            pre_keys(sorted@),
            sorted@.len() as int,
            k,
        ) {
            Some(i) => Some(i as u32),
            None => None,
        },
{
    let ghost keys = pre_keys(sorted@);
    let mut idx = ItemIndex::new();
    idx.insert((diesel_hash::EMPTY, diesel_hash::EMPTY, diesel_hash::EMPTY), 0);
    let n = sorted.len();
    let mut i: usize = 1;
    while i < n
        invariant
            n == sorted@.len(),
            n <= u32::MAX + 1,
            1 <= i,
            i <= n || (n == 0 && i == 1),
            keys == pre_keys(sorted@),
            forall|k: (u64, u64, u64)| #[trigger] idx.lookup(k) == match index_spec(keys, i as int, k) {
                Some(j) => Some(j as u32),
                None => None,
            },
        decreases n - i,
    {
        let it = sorted[i];
        assert(keys[i as int] == (it.0, it.1, it.2));
        idx.insert((it.0, it.1, it.2), i as u32);
        i += 1;
    }
    proof {
        assert forall|k: (u64, u64, u64)| #[trigger] idx.lookup(k) == match index_spec(
            pre_keys(sorted@),
            sorted@.len() as int,
            k,
        ) {
            Some(j) => Some(j as u32),
            None => None,
        } by {
            assert(idx.lookup(k) == match index_spec(keys, i as int, k) {
                Some(j) => Some(j as u32),
                None => None,
            });
            assert(keys == pre_keys(sorted@));
            if n == 0 {
                assert(index_spec(keys, i as int, k) == index_spec(keys, sorted@.len() as int, k));
            } else {
                assert(i == n);
            }
        }
    }
    idx
}

/// The packages and places in them that refer to an item, as
/// `(package, entry)`.
pub open spec fn file_refs(it: ItemRecord) -> Seq<(u32, u32)> {
    match it.specifics {
        ItemRecordSpecifics::File(fr) => fr.packages@.map_values(
            |t: FileToPackage| (t.package_number, t.file_number),
        ),
        ItemRecordSpecifics::Folder(_) => Seq::empty(),
    }
}

/// Whether an item is a folder.
pub open spec fn is_folder_item(it: ItemRecord) -> bool {
    it.specifics is Folder
}

/// The children of a folder item as `(first, count)`.
pub open spec fn folder_range(it: ItemRecord) -> (u32, u32) {
    match it.specifics {
        ItemRecordSpecifics::Folder(fr) => (fr.first_child, fr.child_count),
        ItemRecordSpecifics::File(_) => (0, 0),
    }
}

/// The references among the first `n` entries of package `p` to `item`.
pub open spec fn refs_in_row(row: Seq<PackageEntryRecord>, p: int, n: int, item: int) -> Seq<
    (u32, u32),
>
    decreases n,
{
    if n <= 0 {
        Seq::empty()
    } else if row[n - 1].item_number == item {
        refs_in_row(row, p, n - 1, item).push((p as u32, (n - 1) as u32))
    } else {
        refs_in_row(row, p, n - 1, item)
    }
}

/// The references to `item` among the entries of the first `p` packages,
/// in package order.
pub open spec fn refs_before(rows: Seq<Seq<PackageEntryRecord>>, p: int, item: int) -> Seq<
    (u32, u32),
>
    decreases p,
{
    if p <= 0 {
        Seq::empty()
    } else {
        refs_before(rows, p - 1, item) + refs_in_row(rows[p - 1], p - 1, rows[p - 1].len() as int, item)
    }
}

/// The entries of each package record.
pub open spec fn package_rows(recs: Seq<PackageRecord>) -> Seq<Seq<PackageEntryRecord>> {
    recs.map_values(|r: PackageRecord| r.files@)
}

/// The position of each of the first `n` package ids; a later package with the
/// same id replaces an earlier one.
pub open spec fn package_positions(packages: Seq<ParsedBundle>, n: int) -> Map<u64, u32>
    decreases n,
{
    if n <= 0 {
        Map::empty()
    } else {
        package_positions(packages, n - 1).insert(packages[n - 1].package_id, (n - 1) as u32)
    }
}

/// Every entry of every package names a file id of `by_file_id`.
pub open spec fn file_ids_resolve(packages: Seq<ParsedBundle>, by_file_id: Map<u32, (u64, u64, u64)>) -> bool {
    forall|p: int, f: int|
        0 <= p < packages.len() && 0 <= f < packages[p].header.entries@.len()
            ==> by_file_id.contains_key(#[trigger] packages[p].header.entries@[f].file_id)
}

/// The record of a package entry: the item its file is, and where it lies.
pub open spec fn entry_record(
    e: PackageHeaderEntry,
    index: ItemIndex,
    by_file_id: Map<u32, (u64, u64, u64)>,
) -> PackageEntryRecord {
    PackageEntryRecord {
        item_number: index.lookup(by_file_id[e.file_id])->0,
        offset: e.offset,
        length: e.length,
    }
}

/// The entry's file is indexed, as a file.
pub open spec fn entry_links(
    e: PackageHeaderEntry,
    index: ItemIndex,
    by_file_id: Map<u32, (u64, u64, u64)>,
    items: Seq<ItemRecord>,
) -> bool {
    &&& index.lookup(by_file_id[e.file_id]) is Some
    &&& index.lookup(by_file_id[e.file_id])->0 < items.len()
    &&& !is_folder_item(items[index.lookup(by_file_id[e.file_id])->0 as int])
}

/// Whether every entry links, and the counts fit the record fields.
pub open spec fn packages_link(
    packages: Seq<ParsedBundle>,
    index: ItemIndex,
    by_file_id: Map<u32, (u64, u64, u64)>,
    items: Seq<ItemRecord>,
) -> bool {
    &&& packages.len() <= u32::MAX + 1
    &&& forall|p: int| 0 <= p < packages.len() ==> #[trigger] packages[p].header.entries@.len() <= u32::MAX + 1
    &&& forall|p: int, f: int|
        0 <= p < packages.len() && 0 <= f < packages[p].header.entries@.len() ==> entry_links(
            #[trigger] packages[p].header.entries@[f],
            index,
            by_file_id,
            items,
        )
}

/// A copy of a path, by `PathBuf::clone`.
#[verifier::external_body]
pub(crate) fn clone_path(p: &PathBuf) -> (r: PathBuf)
    ensures
        r == *p,
{
    p.clone()
}

/// Records each package with its entries' items, and adds to each file item
/// the places that refer to it. `None` where an entry's file is not indexed
/// as a file, or a count does not fit.
fn link_packages(
    items: &mut Vec<ItemRecord>,
    index: &ItemIndex,
    by_file_id: &HashMap<u32, (u64, u64, u64)>,
    packages: &Vec<ParsedBundle>,
) -> (r: Option<(Vec<PackageRecord>, HashMap<u64, u32>)>)
    requires
        file_ids_resolve(packages@, by_file_id@),
        forall|i: int| 0 <= i < old(items)@.len() ==> file_refs(#[trigger] old(items)@[i]).len() == 0,
    ensures
        r is Some <==> packages_link(packages@, *index, by_file_id@, old(items)@),
        r matches Some(res) ==> {
            let (recs, pindex) = res;
            &&& recs@.len() == packages@.len()
            &&& forall|p: int|
                0 <= p < recs@.len() ==> {
                    &&& (#[trigger] recs@[p]).package_id == packages@[p].package_id
                    &&& recs@[p].data_path == packages@[p].data_path
                    &&& recs@[p].last_modified == packages@[p].last_modified
                    &&& recs@[p].files@.len() == packages@[p].header.entries@.len()
                    &&& forall|f: int|
                        0 <= f < recs@[p].files@.len() ==> #[trigger] recs@[p].files@[f]
                            == entry_record(packages@[p].header.entries@[f], *index, by_file_id@)
                }
            &&& pindex@ == package_positions(packages@, packages@.len() as int)
            &&& final(items)@.len() == old(items)@.len()
            &&& forall|i: int|
                0 <= i < final(items)@.len() ==> {
                    &&& item_key(#[trigger] final(items)@[i]) == item_key(old(items)@[i])
                    &&& is_folder_item(final(items)@[i]) == is_folder_item(old(items)@[i])
                    &&& folder_range(final(items)@[i]) == folder_range(old(items)@[i])
                    &&& file_refs(final(items)@[i]) == refs_before(
                        package_rows(recs@),
                        recs@.len() as int,
                        i,
                    )
                }
        },
{
    let ghost orig = items@;
    let np = packages.len();
    if np as u64 > 4294967296u64 {
        return None;
    }
    let mut recs: Vec<PackageRecord> = Vec::new();
    let mut pindex: HashMap<u64, u32> = HashMap::new();
    let mut p: usize = 0;
    while p < np
        invariant
            np == packages@.len(),
            np <= u32::MAX + 1,
            p <= np,
            file_ids_resolve(packages@, by_file_id@),
            recs@.len() == p,
            orig == old(items)@,
            items@.len() == orig.len(),
            forall|i: int| 0 <= i < orig.len() ==> file_refs(#[trigger] orig[i]).len() == 0,
            forall|q: int|
                0 <= q < p ==> {
                    &&& (#[trigger] recs@[q]).package_id == packages@[q].package_id
                    &&& recs@[q].data_path == packages@[q].data_path
                    &&& recs@[q].last_modified == packages@[q].last_modified
                    &&& recs@[q].files@.len() == packages@[q].header.entries@.len()
                    &&& forall|f: int|
                        0 <= f < recs@[q].files@.len() ==> #[trigger] recs@[q].files@[f]
                            == entry_record(packages@[q].header.entries@[f], *index, by_file_id@)
                },
            forall|q: int|
                0 <= q < p ==> #[trigger] packages@[q].header.entries@.len() <= u32::MAX + 1,
            forall|q: int, f: int|
                0 <= q < p && 0 <= f < packages@[q].header.entries@.len() ==> entry_links(
                    #[trigger] packages@[q].header.entries@[f],
                    *index,
                    by_file_id@,
                    orig,
                ),
            pindex@ == package_positions(packages@, p as int),
            forall|i: int|
                0 <= i < items@.len() ==> {
                    &&& item_key(#[trigger] items@[i]) == item_key(orig[i])
                    &&& is_folder_item(items@[i]) == is_folder_item(orig[i])
                    &&& folder_range(items@[i]) == folder_range(orig[i])
                    &&& file_refs(items@[i]) == refs_before(package_rows(recs@), p as int, i)
                },
        decreases np - p,
    {
        let pack = &packages[p];
        let entries = &pack.header.entries;
        let ne = entries.len();
        if ne as u64 > 4294967296u64 {
            return None;
        }
        let mut files: Vec<PackageEntryRecord> = Vec::new();
        let mut f: usize = 0;
        while f < ne
            invariant
                np == packages@.len(),
                p < np,
                pack == packages@[p as int],
                entries == pack.header.entries,
                ne == entries@.len(),
                ne <= u32::MAX + 1,
                np <= u32::MAX + 1,
                f <= ne,
                file_ids_resolve(packages@, by_file_id@),
                recs@.len() == p,
                orig == old(items)@,
                items@.len() == orig.len(),
                files@.len() == f,
                forall|g: int|
                    0 <= g < f ==> #[trigger] files@[g] == entry_record(entries@[g], *index, by_file_id@),
                forall|g: int| 0 <= g < f ==> entry_links(#[trigger] entries@[g], *index, by_file_id@, orig),
                forall|i: int|
                    0 <= i < items@.len() ==> {
                        &&& item_key(#[trigger] items@[i]) == item_key(orig[i])
                        &&& is_folder_item(items@[i]) == is_folder_item(orig[i])
                        &&& folder_range(items@[i]) == folder_range(orig[i])
                        &&& file_refs(items@[i]) == refs_before(package_rows(recs@), p as int, i)
                            + refs_in_row(files@, p as int, f as int, i)
                    },
            decreases ne - f,
        {
            let e = entries[f];
            assert(by_file_id@.contains_key(packages@[p as int].header.entries@[f as int].file_id));
            let fk = *by_file_id.get(&e.file_id).unwrap();
            let fid = match index.get(fk) {
                None => {
                    return None;
                },
                Some(fid) => fid,
            };
            assert(fk == by_file_id@[e.file_id]);
            if fid as usize >= items.len() {
                assert(!entry_links(packages@[p as int].header.entries@[f as int], *index, by_file_id@, orig));
                return None;
            }
            let ghost old_items = items@;
            let ghost old_files = files@;
            let is_file = match &items[fid as usize].specifics {
                ItemRecordSpecifics::File(_) => true,
                ItemRecordSpecifics::Folder(_) => false,
            };
            if !is_file {
                assert(is_folder_item(items@[fid as int]));
                assert(is_folder_item(orig[fid as int]));
                assert(!entry_links(packages@[p as int].header.entries@[f as int], *index, by_file_id@, orig));
                return None;
            }
            files.push(PackageEntryRecord { item_number: fid, offset: e.offset, length: e.length });
            let link = FileToPackage { package_number: p as u32, file_number: f as u32 };
            match &mut items[fid as usize].specifics {
                ItemRecordSpecifics::File(fs) => fs.packages.push(link),
                ItemRecordSpecifics::Folder(_) => {},
            }
            proof {
                assert forall|i: int| 0 <= i < items@.len() implies {
                    &&& item_key(#[trigger] items@[i]) == item_key(orig[i])
                    &&& is_folder_item(items@[i]) == is_folder_item(orig[i])
                    &&& folder_range(items@[i]) == folder_range(orig[i])
                    &&& file_refs(items@[i]) == refs_before(package_rows(recs@), p as int, i)
                        + refs_in_row(files@, p as int, f + 1, i)
                } by {
                    assert(refs_in_row(files@, p as int, f as int, i) == refs_in_row(old_files, p as int, f as int, i)) by {
                        lemma_refs_in_row_prefix(old_files, files@, p as int, f as int, i);
                    }
                    if i == fid as int {
                        assert(file_refs(items@[i]) =~= file_refs(old_items[i]).push((p as u32, f as u32)));
                    } else {
                        assert(items@[i] == old_items[i]);
                    }
                }
            }
            f += 1;
        }
        let rec = PackageRecord {
            package_id: pack.package_id,
            data_path: clone_path(&pack.data_path),
            last_modified: pack.last_modified,
            files,
        };
        let ghost old_recs = recs@;
        recs.push(rec);
        pindex.insert(pack.package_id, p as u32);
        proof {
            assert forall|i: int| 0 <= i < items@.len() implies file_refs(#[trigger] items@[i])
                == refs_before(package_rows(recs@), p + 1, i) by {
                lemma_refs_before_frame(package_rows(old_recs), package_rows(recs@), p as int, i);
                assert(package_rows(recs@)[p as int] == recs@[p as int].files@);
            }
        }
        p += 1;
    }
    Some((recs, pindex))
}

proof fn lemma_refs_in_row_prefix(a: Seq<PackageEntryRecord>, b: Seq<PackageEntryRecord>, p: int, n: int, item: int)
    requires
        0 <= n <= a.len(),
        n <= b.len(),
        forall|g: int| 0 <= g < n ==> a[g] == b[g],
    ensures
        refs_in_row(a, p, n, item) == refs_in_row(b, p, n, item),
    decreases n,
{
    if n > 0 {
        lemma_refs_in_row_prefix(a, b, p, n - 1, item);
    }
}

proof fn lemma_refs_before_frame(a: Seq<Seq<PackageEntryRecord>>, b: Seq<Seq<PackageEntryRecord>>, p: int, item: int)
    requires
        0 <= p <= a.len(),
        p <= b.len(),
        forall|q: int| 0 <= q < p ==> a[q] == b[q],
    ensures
        refs_before(a, p, item) == refs_before(b, p, item),
    decreases p,
{
    if p > 0 {
        lemma_refs_before_frame(a, b, p - 1, item);
    }
}

proof fn lemma_walk_bounds(
    is_folder: Seq<bool>,
    texts: Seq<Option<Seq<u8>>>,
    i: int,
    cf: int,
    cfp: Seq<u8>,
    s: int,
    l: int,
    asg: Map<int, (int, int)>,
)
    requires
        1 <= i,
        0 <= s,
        0 <= l,
        s + l <= i,
        forall|k: int| #[trigger] asg.contains_key(k) ==> asg[k].0 >= 0 && asg[k].1 >= 0 && asg[k].0 + asg[k].1 <= is_folder.len(),
    ensures
        walk(is_folder, texts, i, cf, cfp, s, l, asg) matches Some(m) ==> forall|k: int| #[trigger]
            m.contains_key(k) ==> m[k].0 >= 0 && m[k].1 >= 0 && m[k].0 + m[k].1 <= is_folder.len(),
    decreases is_folder.len() - i,
{
    if i >= is_folder.len() {
    } else if cfp == parent_text(texts[i]) {
        lemma_walk_bounds(is_folder, texts, i + 1, cf, cfp, s, l + 1, asg);
    } else if !(0 <= cf < is_folder.len() && is_folder[cf]) {
    } else {
        match next_folder(is_folder, cf + 1) {
            None => {},
            Some(nf) => match texts[nf] {
                None => {},
                Some(t) => {
                    lemma_walk_bounds(is_folder, texts, i + 1, nf, t, i, 1, asg.insert(cf, (s, l)));
                },
            },
        }
    }
}

/// The view of items that the sort and the walk work on: key, and whether a
/// folder.
pub open spec fn item_pre(it: ItemRecord) -> (u64, u64, u64, bool) {
    (it.path, it.language, it.extension, is_folder_item(it))
}

/// The items as the sort and the walk see them.
pub open spec fn items_pre(items: Seq<ItemRecord>) -> Seq<(u64, u64, u64, bool)> {
    items.map_values(|it: ItemRecord| item_pre(it))
}

/// The keys of the files of the bundle database.
pub open spec fn bdb_file_keys(langs: Seq<LanguageEntry>, files: Seq<FileEntry>) -> Seq<(u64, u64, u64)> {
    files.map_values(|fe: FileEntry| file_key(langs, fe))
}

/// The keys of items.
pub open spec fn item_keys(items: Seq<ItemRecord>) -> Seq<(u64, u64, u64)> {
    items.map_values(|it: ItemRecord| item_key(it))
}

/// The asset database.
pub struct Database {
    pub hashes: Arc<HashIndex>,
    item_index: ItemIndex,
    items: Vec<ItemRecord>,
    package_index: HashMap<u64, u32>,
    packages: Vec<PackageRecord>,
}

impl Database {
    /// The items, in breadth-first order of the folder tree.
    pub closed spec fn item_seq(&self) -> Seq<ItemRecord> {
        self.items@
    }

    /// The packages, in the order they were given.
    pub closed spec fn package_seq(&self) -> Seq<PackageRecord> {
        self.packages@
    }

    /// The position the index holds for a key.
    pub closed spec fn index_of(&self, k: (u64, u64, u64)) -> Option<u32> {
        self.item_index.lookup(k)
    }

    /// The position of each package id.
    pub closed spec fn package_positions(&self) -> Map<u64, u32> {
        self.package_index@
    }

    /// The hashlist the database names things by.
    pub closed spec fn hashlist(&self) -> HashIndex {
        *self.hashes
    }

    /// The index finds each key at the last item from 1 on that has it (the
    /// root key at 0 otherwise); every folder's children lie among the items;
    /// every entry of a package is an item; and each file lists exactly the
    /// package entries that are it, in package order.
    pub open spec fn wf(&self) -> bool {
        let items = self.item_seq();
        let n = items.len();
        &&& self.hashlist().wf()
        &&& 1 <= n <= u32::MAX + 1
        &&& self.counts_fit()
        &&& forall|k: (u64, u64, u64)| #[trigger] self.index_of(k) == match index_spec(item_keys(items), n as int, k) {
            Some(i) => Some(i as u32),
            None => None,
        }
        &&& forall|i: int|
            0 <= i < n && is_folder_item(#[trigger] items[i]) ==> folder_range(items[i]).0 + folder_range(items[i]).1 <= n
        &&& forall|p: int, f: int|
            0 <= p < self.package_seq().len() && 0 <= f < self.package_seq()[p].files@.len()
                ==> (#[trigger] self.package_seq()[p].files@[f]).item_number < n
        &&& forall|i: int|
            0 <= i < n ==> file_refs(#[trigger] items[i]) == refs_before(
                package_rows(self.package_seq()),
                self.package_seq().len() as int,
                i,
            )
    }
}

/// Whether `h`, with the folders `folders`, may be the hashlist after the
/// folders of the file paths were interned into `hashlist`: each folder is
/// known, and every other hash is known as before.
pub open spec fn collected_from(hashlist: HashIndex, h: HashIndex, folders: Seq<u64>) -> bool {
    &&& h.wf()
    &&& folders.no_duplicates()
    &&& forall|k: int| 0 <= k < folders.len() ==> h.lookup(#[trigger] folders[k]) is Some
    &&& forall|x: u64| !folders.contains(x) ==> #[trigger] h.lookup(x) == hashlist.lookup(x)
}

/// Whether every entry of every package is, by its file id, the key of a
/// file among the sorted items, and the counts fit in 32 bits.
pub open spec fn entries_find_files(
    packages: Seq<ParsedBundle>,
    by_file_id: Map<u32, (u64, u64, u64)>,
    sorted: Seq<(u64, u64, u64, bool)>,
) -> bool {
    &&& packages.len() <= u32::MAX + 1
    &&& forall|p: int| 0 <= p < packages.len() ==> #[trigger] packages[p].header.entries@.len() <= u32::MAX + 1
    &&& forall|p: int, f: int|
        0 <= p < packages.len() && 0 <= f < packages[p].header.entries@.len() ==> match index_spec(
            pre_keys(sorted),
            sorted.len() as int,
            by_file_id[(#[trigger] packages[p].header.entries@[f]).file_id],
        ) {
            Some(i) => 0 <= i < sorted.len() && !sorted[i].3,
            None => false,
        }
}

/// Whether building fails once the items are sorted: there are more than
/// 2^32 of them, the walk that gives folders their children fails, or an
/// entry's file is not among the files.
pub open spec fn arrangement_fails(
    h: HashIndex,
    by_file_id: Map<u32, (u64, u64, u64)>,
    packages: Seq<ParsedBundle>,
    sorted: Seq<(u64, u64, u64, bool)>,
) -> bool {
    ||| sorted.len() > u32::MAX + 1
    ||| full_walk(folder_flags(sorted), item_texts(h, sorted)) is None
    ||| !entries_find_files(packages, by_file_id, sorted)
}

/// Entries that find files among the sorted items link to the items built
/// from them.
proof fn lemma_entries_link(
    packages: Seq<ParsedBundle>,
    index: ItemIndex,
    by_file_id: Map<u32, (u64, u64, u64)>,
    items: Seq<ItemRecord>,
    sorted: Seq<(u64, u64, u64, bool)>,
)
    requires
        sorted.len() <= u32::MAX + 1,
        items.len() == sorted.len(),
        forall|q: int| 0 <= q < items.len() ==> item_pre(#[trigger] items[q]) == sorted[q],
        forall|k: (u64, u64, u64)| #[trigger] index.lookup(k) == match index_spec(
            pre_keys(sorted),
            sorted.len() as int,
            k,
        ) {
            Some(i) => Some(i as u32),
            None => None,
        },
        entries_find_files(packages, by_file_id, sorted),
    ensures
        packages_link(packages, index, by_file_id, items),
{
    assert forall|p: int, f: int|
        0 <= p < packages.len() && 0 <= f < packages[p].header.entries@.len() implies entry_links(
        #[trigger] packages[p].header.entries@[f],
        index,
        by_file_id,
        items,
    ) by {
        let e = packages[p].header.entries@[f];
        let k = by_file_id[e.file_id];
        let i = index_spec(pre_keys(sorted), sorted.len() as int, k)->0;
        assert(index.lookup(k) == Some(i as u32));
        assert(item_pre(items[i]) == sorted[i]);
    }
}

/// Builds the database from the bundle database, the packages' headers and a
/// hashlist, which the folders implied by the file paths are interned into.
///
/// The items are the files, then the root and the folders, sorted by
/// `path_sort_key` with ties kept in that order; each folder gets its children
/// by `full_walk`; each package entry is linked to the item of its file.
/// `None` where the walk fails, an entry's file is not indexed as a file, a
/// count does not fit in 32 bits, or a folder part of a path takes the hash of
/// the path itself before another `/`.
pub fn from_bdb(hashlist: HashIndex, bdb: &BundleDbFile, packages: &Vec<ParsedBundle>) -> (r: Option<
    Database,
>)
    requires
        hashlist.wf(),
        languages_resolve(bdb),
        file_ids_resolve(packages@, keys_by_file_id(bdb.languages@, bdb.files@, bdb.files@.len() as int)),
    ensures
        r is None ==> some_folder_takes_path_hash(bdb) || exists|h: HashIndex, folders: Seq<u64>, sorted: Seq<
            (u64, u64, u64, bool),
        >|
            #[trigger] collected_from(hashlist, h, folders) && #[trigger] is_stable_sort(
                h,
                gathered(bdb_file_keys(bdb.languages@, bdb.files@), folders),
                sorted,
            ) && arrangement_fails(
                h,
                keys_by_file_id(bdb.languages@, bdb.files@, bdb.files@.len() as int),
                packages@,
                sorted,
            ),
        r matches Some(db) ==> {
            let items = db.item_seq();
            let h = db.hashlist();
            let by_id = keys_by_file_id(bdb.languages@, bdb.files@, bdb.files@.len() as int);
            &&& db.wf()
            &&& exists|folders: Seq<u64>|
                {
                    &&& #[trigger] collected_from(hashlist, h, folders)
                    &&& #[trigger] is_stable_sort(
                        h,
                        gathered(
                            bdb_file_keys(bdb.languages@, bdb.files@),
                            folders,
                        ),
                        items_pre(items),
                    )
                }
            &&& full_walk(
                folder_flags(items_pre(items)),
                item_texts(h, items_pre(items)),
            ) is Some
            &&& forall|i: int|
                0 <= i < items.len() && is_folder_item(#[trigger] items[i]) ==> (
                folder_range(items[i]).0 as int,
                folder_range(items[i]).1 as int,
            ) == range_of(
                full_walk(
                    folder_flags(items_pre(items)),
                    item_texts(h, items_pre(items)),
                )->0,
                i,
            )
            &&& db.package_seq().len() == packages@.len()
            &&& forall|p: int|
                0 <= p < packages@.len() ==> {
                    &&& (#[trigger] db.package_seq()[p]).package_id == packages@[p].package_id
                    &&& db.package_seq()[p].data_path == packages@[p].data_path
                    &&& db.package_seq()[p].last_modified == packages@[p].last_modified
                    &&& db.package_seq()[p].files@.len() == packages@[p].header.entries@.len()
                    &&& forall|f: int|
                        0 <= f < db.package_seq()[p].files@.len() ==> {
                            let e = packages@[p].header.entries@[f];
                            &&& (#[trigger] db.package_seq()[p].files@[f]).offset == e.offset
                            &&& db.package_seq()[p].files@[f].length == e.length
                            &&& Some(db.package_seq()[p].files@[f].item_number) == db.index_of(
                                by_id[e.file_id],
                            )
                        }
                }
            &&& db.package_positions() == package_positions(packages@, packages@.len() as int)
        },
{
    let ghost original = hashlist;
    let mut hashlist = hashlist;
    let c = match collect(&mut hashlist, bdb) {
        None => {
            return None;
        },
        Some(c) => c,
    };
    let sorted = arrange(&hashlist, &c);
    let ghost by_id = keys_by_file_id(bdb.languages@, bdb.files@, bdb.files@.len() as int);
    proof {
        assert(c.file_keys@ =~= bdb_file_keys(bdb.languages@, bdb.files@));
        assert(collected_from(original, hashlist, c.folders@));
    }
    let n = sorted.len();
    if n as u64 > 4294967296u64 {
        assert(arrangement_fails(hashlist, by_id, packages@, sorted@));
        return None;
    }
    let ranges = match assign_children(&hashlist, &sorted) {
        None => {
            assert(arrangement_fails(hashlist, by_id, packages@, sorted@));
            return None;
        },
        Some(r) => r,
    };
    let index = build_index(&sorted);
    let mut items: Vec<ItemRecord> = Vec::new();
    let mut k: usize = 0;
    while k < n
        invariant
            n == sorted@.len(),
            ranges@.len() == n,
            k <= n,
            items@.len() == k,
            forall|q: int|
                0 <= q < k ==> {
                    &&& item_pre(#[trigger] items@[q]) == sorted@[q]
                    &&& file_refs(items@[q]).len() == 0
                    &&& is_folder_item(items@[q]) ==> folder_range(items@[q]) == ranges@[q]
                },
        decreases n - k,
    {
        let it = sorted[k];
        let specifics = if it.3 {
            let (first_child, child_count) = ranges[k];
            ItemRecordSpecifics::Folder(FolderRecord { first_child, child_count })
        } else {
            ItemRecordSpecifics::File(FileRecord { packages: Vec::new() })
        };
        items.push(ItemRecord { path: it.0, language: it.1, extension: it.2, specifics });
        k += 1;
    }
    let ghost built = items@;
    let linked = link_packages(&mut items, &index, &c.by_file_id, packages);
    let (recs, pindex) = match linked {
        None => {
            proof {
                if entries_find_files(packages@, c.by_file_id@, sorted@) {
                    lemma_entries_link(packages@, index, c.by_file_id@, built, sorted@);
                }
                assert(arrangement_fails(hashlist, by_id, packages@, sorted@));
            }
            return None;
        },
        Some(x) => x,
    };
    let ghost hl = hashlist;
    let db = Database {
        hashes: Arc::new(hashlist),
        item_index: index,
        items,
        package_index: pindex,
        packages: recs,
    };
    proof {
        let fitems = db.items@;
        assert(db.hashlist() == hl);
        assert(c.file_keys@ =~= bdb_file_keys(bdb.languages@, bdb.files@));
        assert forall|q: int| 0 <= q < n implies #[trigger] items_pre(fitems)[q] == sorted@[q] by {
            assert(item_pre(built[q]) == sorted@[q]);
        }
        assert(items_pre(fitems) =~= sorted@);
        assert(item_keys(fitems) =~= pre_keys(sorted@));
        let w = full_walk(folder_flags(sorted@), item_texts(hl, sorted@));
        lemma_walk_bounds(folder_flags(sorted@), item_texts(hl, sorted@), 1, 0, Seq::empty(), 1, 0, Map::empty());
        assert forall|i: int| 0 <= i < n && is_folder_item(#[trigger] fitems[i]) implies folder_range(fitems[i]).0
            + folder_range(fitems[i]).1 <= n && (
            folder_range(fitems[i]).0 as int,
            folder_range(fitems[i]).1 as int,
        ) == range_of(w->0, i) by {
            assert(folder_range(fitems[i]) == folder_range(built[i]));
            assert(is_folder_item(built[i]));
            assert(folder_range(built[i]) == ranges@[i]);
        }
        assert forall|p: int, f: int|
            0 <= p < db.packages@.len() && 0 <= f < db.packages@[p].files@.len() implies (
            #[trigger] db.packages@[p].files@[f]).item_number < n && Some(db.packages@[p].files@[f].item_number)
            == index.lookup(c.by_file_id@[packages@[p].header.entries@[f].file_id]) by {
            assert(entry_links(packages@[p].header.entries@[f], index, c.by_file_id@, built));
        }
        assert(packages_link(packages@, index, c.by_file_id@, built));
        let g = gathered(c.file_keys@, c.folders@);
        if c.folders@.contains(diesel_hash::EMPTY) {
            assert(c.folders@.len() >= 1);
        }
        assert(g.len() >= 1);
        assert forall|q: int| 0 <= q < db.packages@.len() implies #[trigger] db.packages@[q].files@.len() <= u32::MAX + 1 by {
            assert(packages@[q].header.entries@.len() <= u32::MAX + 1);
        }
        assert(db.wf());
    }
    Some(db)
}

proof fn lemma_refs_in_row_members(row: Seq<PackageEntryRecord>, p: int, n: int, item: int)
    requires
        0 <= n <= row.len(),
        0 <= p <= u32::MAX,
        n <= u32::MAX + 1,
    ensures
        forall|k: int|
            0 <= k < refs_in_row(row, p, n, item).len() ==> {
                let t = #[trigger] refs_in_row(row, p, n, item)[k];
                &&& t.0 == p
                &&& t.1 < n
                &&& row[t.1 as int].item_number == item
            },
    decreases n,
{
    if n > 0 {
        lemma_refs_in_row_members(row, p, n - 1, item);
        let prev = refs_in_row(row, p, n - 1, item);
        if row[n - 1].item_number == item {
            assert forall|k: int| 0 <= k < prev.len() + 1 implies {
                let t = #[trigger] prev.push((p as u32, (n - 1) as u32))[k];
                &&& t.0 == p
                &&& t.1 < n
                &&& row[t.1 as int].item_number == item
            } by {
                if k < prev.len() {
                    assert(prev.push((p as u32, (n - 1) as u32))[k] == prev[k]);
                }
            }
        }
    }
}

/// Every reference a file lists is to an entry of a package that is that file.
pub proof fn lemma_refs_before_members(rows: Seq<Seq<PackageEntryRecord>>, p: int, item: int)
    requires
        0 <= p <= rows.len(),
        rows.len() <= u32::MAX + 1,
        forall|q: int| 0 <= q < rows.len() ==> #[trigger] rows[q].len() <= u32::MAX + 1,
    ensures
        forall|k: int|
            0 <= k < refs_before(rows, p, item).len() ==> {
                let t = #[trigger] refs_before(rows, p, item)[k];
                &&& t.0 < p
                &&& t.1 < rows[t.0 as int].len()
                &&& rows[t.0 as int][t.1 as int].item_number == item
            },
    decreases p,
{
    if p > 0 {
        lemma_refs_before_members(rows, p - 1, item);
        lemma_refs_in_row_members(rows[p - 1], p - 1, rows[p - 1].len() as int, item);
        let a = refs_before(rows, p - 1, item);
        let b = refs_in_row(rows[p - 1], p - 1, rows[p - 1].len() as int, item);
        assert forall|k: int| 0 <= k < (a + b).len() implies {
            let t = #[trigger] (a + b)[k];
            &&& t.0 < p
            &&& t.1 < rows[t.0 as int].len()
            &&& rows[t.0 as int][t.1 as int].item_number == item
        } by {
            if k < a.len() {
                assert((a + b)[k] == a[k]);
            } else {
                assert((a + b)[k] == b[k - a.len()]);
            }
        }
    }
}

/// How many of the first `n` items are folders.
pub open spec fn folder_count(items: Seq<ItemRecord>, n: int) -> int
    decreases n,
{
    if n <= 0 {
        0
    } else {
        folder_count(items, n - 1) + if is_folder_item(items[n - 1]) {
            1int
        } else {
            0int
        }
    }
}

/// Whether an item is a file or a folder.
pub enum ItemType {
    File,
    Folder,
}

impl Database {
    /// Every package has at most `u32::MAX + 1` entries, and there are at
    /// most that many packages.
    pub open spec fn counts_fit(&self) -> bool {
        &&& self.package_seq().len() <= u32::MAX + 1
        &&& forall|q: int| 0 <= q < self.package_seq().len() ==> #[trigger] self.package_seq()[q].files@.len() <= u32::MAX + 1
    }

    /// The item under a key given by hashes, if there is one.
    pub fn get_by_hashes(&self, path: u64, language: u64, extension: u64) -> (r: Option<DatabaseItem<'_>>)
        ensures
            match self.index_of((path, language, extension)) {
                Some(i) => r matches Some(it) && it.db == self && it.item_number == i,
                None => r is None,
            },
    {
        match self.item_index.get((path, language, extension)) {
            None => None,
            Some(idx) => Some(self.get_by_inode(idx)),
        }
    }

    /// The item under a key given by strings, if there is one.
    pub fn get_by_str(&self, path: &str, language: &str, extension: &str) -> (r: Option<DatabaseItem<'_>>)
        ensures
            match self.index_of(
                (
                    diesel_hash::spec_hash_str(path@),
                    diesel_hash::spec_hash_str(language@),
                    diesel_hash::spec_hash_str(extension@),
                ),
            ) {
                Some(i) => r matches Some(it) && it.db == self && it.item_number == i,
                None => r is None,
            },
    {
        self.get_by_hashes(
            diesel_hash::hash_str(path),
            diesel_hash::hash_str(language),
            diesel_hash::hash_str(extension),
        )
    }

    /// The item at position `inode_number`.
    pub fn get_by_inode(&self, inode_number: u32) -> (r: DatabaseItem<'_>)
        ensures
            r.db == self,
            r.item_number == inode_number,
    {
        DatabaseItem { db: self, item_number: inode_number }
    }

    /// How many items, folders and packages there are, and whether the root
    /// is indexed.
    pub fn stats(&self) -> (r: (usize, usize, usize, bool))
        ensures
            r.0 == self.item_seq().len(),
            r.1 == folder_count(self.item_seq(), self.item_seq().len() as int),
            r.2 == self.package_seq().len(),
            r.3 == (self.index_of(root_key()) is Some),
    {
        let n = self.items.len();
        let mut folders: usize = 0;
        let mut i: usize = 0;
        while i < n
            invariant
                n == self.items@.len(),
                i <= n,
                folders == folder_count(self.items@, i as int),
                folders <= i,
            decreases n - i,
        {
            if let ItemRecordSpecifics::Folder(_) = self.items[i].specifics {
                folders += 1;
            }
            i += 1;
        }
        let has_root = self.item_index.get((diesel_hash::EMPTY, diesel_hash::EMPTY, diesel_hash::EMPTY)).is_some();
        (n, folders, self.packages.len(), has_root)
    }
}

/// An item of a database.
pub struct DatabaseItem<'a> {
    pub db: &'a Database,
    pub item_number: u32,
}

impl<'a> DatabaseItem<'a> {
    /// The database is well formed and the item is one of its items.
    pub open spec fn valid(&self) -> bool {
        &&& self.db.wf()
        &&& self.item_number < self.db.item_seq().len()
    }

    /// The item's record.
    pub open spec fn record(&self) -> ItemRecord {
        self.db.item_seq()[self.item_number as int]
    }

    fn item(&self) -> (r: &'a ItemRecord)
        requires
            self.valid(),
        ensures
            *r == self.record(),
    {
        &self.db.items[self.item_number as usize]
    }

    /// The item's path, language and extension with their texts.
    pub fn key(&self) -> (r: (HashedStr<'a>, HashedStr<'a>, HashedStr<'a>))
        requires
            self.valid(),
        ensures
            (r.0.hash, r.1.hash, r.2.hash) == item_key(self.record()),
            self.db.hashlist().names(r.0),
            self.db.hashlist().names(r.1),
            self.db.hashlist().names(r.2),
    {
        let item = self.item();
        let h: &'a HashIndex = &*self.db.hashes;
        (h.get_hash(item.path), h.get_hash(item.language), h.get_hash(item.extension))
    }

    /// The item's path with its text.
    pub fn path(&self) -> (r: HashedStr<'a>)
        requires
            self.valid(),
        ensures
            r.hash == self.record().path,
            self.db.hashlist().names(r),
    {
        let item = self.item();
        let h: &'a HashIndex = &*self.db.hashes;
        h.get_hash(item.path)
    }

    /// The item's extension with its text; `None` for the empty string.
    pub fn extension(&self) -> (r: Option<HashedStr<'a>>)
        requires
            self.valid(),
        ensures
            self.record().extension == diesel_hash::EMPTY <==> r is None,
            r matches Some(x) ==> x.hash == self.record().extension && self.db.hashlist().names(x),
    {
        let item = self.item();
        let h: &'a HashIndex = &*self.db.hashes;
        let hash = h.get_hash(item.extension);
        if hash.hash == diesel_hash::EMPTY {
            None
        } else {
            Some(hash)
        }
    }

    /// The item's language with its text; `None` for the empty string.
    pub fn language(&self) -> (r: Option<HashedStr<'a>>)
        requires
            self.valid(),
        ensures
            self.record().language == diesel_hash::EMPTY <==> r is None,
            r matches Some(x) ==> x.hash == self.record().language && self.db.hashlist().names(x),
    {
        let item = self.item();
        let h: &'a HashIndex = &*self.db.hashes;
        let hash = h.get_hash(item.language);
        if hash.hash == diesel_hash::EMPTY {
            None
        } else {
            Some(hash)
        }
    }

    /// Whether the item is a file or a folder.
    pub fn item_type(&self) -> (r: ItemType)
        requires
            self.valid(),
        ensures
            r is Folder <==> is_folder_item(self.record()),
    {
        match self.item().specifics {
            ItemRecordSpecifics::File(_) => ItemType::File,
            ItemRecordSpecifics::Folder(_) => ItemType::Folder,
        }
    }

    /// The item's position among the items.
    pub fn item_index(&self) -> (r: u32)
        ensures
            r == self.item_number,
    {
        self.item_number
    }

    /// The children of a folder, in order; none for a file.
    pub fn children(&self) -> (r: ChildIterator<'a>)
        requires
            self.valid(),
            folder_range(self.record()).0 + folder_range(self.record()).1 <= u32::MAX,
        ensures
            r.db == self.db,
            r.current_index == folder_range(self.record()).0,
            r.end_index == folder_range(self.record()).0 + folder_range(self.record()).1,
    {
        match &self.item().specifics {
            ItemRecordSpecifics::File(_) => ChildIterator { db: self.db, current_index: 0, end_index: 0 },
            ItemRecordSpecifics::Folder(folder) => ChildIterator {
                db: self.db,
                current_index: folder.first_child,
                end_index: folder.first_child + folder.child_count,
            },
        }
    }

    /// The first package that holds a file, and the file's entry there.
    fn first_entry(&self) -> (r: Option<(&'a PackageRecord, &'a PackageEntryRecord)>)
        requires
            self.valid(),
            !is_folder_item(self.record()) ==> file_refs(self.record()).len() > 0,
        ensures
            is_folder_item(self.record()) <==> r is None,
            r matches Some((pk, e)) ==> {
                let t = file_refs(self.record())[0];
                &&& *pk == self.db.package_seq()[t.0 as int]
                &&& *e == pk.files@[t.1 as int]
                &&& e.item_number == self.item_number
            },
    {
        let item = self.item();
        match &item.specifics {
            ItemRecordSpecifics::Folder(_) => None,
            ItemRecordSpecifics::File(fi) => {
                proof {
                    let rows = package_rows(self.db.package_seq());
                    assert(file_refs(*item) == refs_before(rows, self.db.package_seq().len() as int, self.item_number as int));
                    assert forall|q: int| 0 <= q < rows.len() implies #[trigger] rows[q].len() <= u32::MAX + 1 by {
                        assert(rows[q] == self.db.package_seq()[q].files@);
                    }
                    lemma_refs_before_members(rows, self.db.package_seq().len() as int, self.item_number as int);
                    assert(file_refs(*item)[0] == (fi.packages@[0].package_number, fi.packages@[0].file_number));
                    assert(rows[fi.packages@[0].package_number as int] == self.db.package_seq()[fi.packages@[0].package_number as int].files@);
                }
                let packref = fi.packages[0];
                let package = &self.db.packages[packref.package_number as usize];
                let entry = &package.files[packref.file_number as usize];
                Some((package, entry))
            },
        }
    }

    /// How many bytes a file holds; 0 for a folder.
    pub fn data_len(&self) -> (r: usize)
        requires
            self.valid(),
            !is_folder_item(self.record()) ==> file_refs(self.record()).len() > 0,
        ensures
            is_folder_item(self.record()) ==> r == 0,
            !is_folder_item(self.record()) ==> {
                let t = file_refs(self.record())[0];
                r == self.db.package_seq()[t.0 as int].files@[t.1 as int].length
            },
    {
        match self.first_entry() {
            None => 0,
            Some((_, e)) => e.length as usize,
        }
    }

    /// When the first package that holds a file last changed; for a folder,
    /// the Unix epoch.
    pub fn last_modified(&self) -> (r: SystemTime)
        requires
            self.valid(),
            !is_folder_item(self.record()) ==> file_refs(self.record()).len() > 0,
        ensures
            !is_folder_item(self.record()) ==> r == self.db.package_seq()[file_refs(
                self.record(),
            )[0].0 as int].last_modified,
    {
        match self.first_entry() {
            None => crate::bundles::unix_epoch(),
            Some((p, _)) => p.last_modified,
        }
    }

    /// Where a file's bytes are: the package's data file, the offset and the
    /// length; `None` for a folder.
    pub fn get_backing_details(&self) -> (r: Option<(&'a PathBuf, usize, usize)>)
        requires
            self.valid(),
            !is_folder_item(self.record()) ==> file_refs(self.record()).len() > 0,
        ensures
            is_folder_item(self.record()) <==> r is None,
            r matches Some((path, offset, length)) ==> {
                let t = file_refs(self.record())[0];
                let pk = self.db.package_seq()[t.0 as int];
                &&& *path == pk.data_path
                &&& offset == pk.files@[t.1 as int].offset
                &&& length == pk.files@[t.1 as int].length
            },
    {
        match self.first_entry() {
            None => None,
            Some((p, e)) => Some((&p.data_path, e.offset as usize, e.length as usize)),
        }
    }
}

/// The children of a folder still to be visited: positions `current_index`
/// up to `end_index`.
pub struct ChildIterator<'a> {
    pub db: &'a Database,
    pub current_index: u32,
    pub end_index: u32,
}

impl<'a> ChildIterator<'a> {
    /// The next child, if any.
    pub fn next(&mut self) -> (r: Option<DatabaseItem<'a>>)
        ensures
            old(self).current_index >= old(self).end_index ==> r is None && *final(self) == *old(self),
            old(self).current_index < old(self).end_index ==> {
                &&& r matches Some(it) && it.db == old(self).db && it.item_number == old(self).current_index
                &&& final(self).current_index == old(self).current_index + 1
                &&& final(self).end_index == old(self).end_index
                &&& final(self).db == old(self).db
            },
    {
        if self.current_index >= self.end_index {
            None
        } else {
            let thing = DatabaseItem { db: self.db, item_number: self.current_index };
            self.current_index += 1;
            Some(thing)
        }
    }
}

proof fn lemma_index_spec(keys: Seq<(u64, u64, u64)>, n: int, k: (u64, u64, u64))
    requires
        1 <= n <= keys.len(),
    ensures
        index_spec(keys, n, k) matches Some(j) ==> 0 <= j < n && (keys[j] == k || (j == 0 && k == root_key())),
        forall|i: int| 1 <= i < n && #[trigger] keys[i] == k ==> (index_spec(keys, n, k) matches Some(j) && i <= j),
    decreases n,
{
    if n > 1 {
        lemma_index_spec(keys, n - 1, k);
    }
}

/// The index finds items by their keys: what it gives for a key is an item
/// with that key (or position 0 for the root key), and the key of every item
/// from position 1 on leads to that item or a later one with the same key.
pub proof fn lemma_index_finds_items(db: &Database, k: (u64, u64, u64))
    requires
        db.wf(),
    ensures
        db.index_of(k) matches Some(j) ==> j < db.item_seq().len() && (item_key(db.item_seq()[j as int]) == k || (
        j == 0 && k == root_key())),
        forall|i: int|
            1 <= i < db.item_seq().len() && item_key(#[trigger] db.item_seq()[i]) == k ==> (db.index_of(
                k,
            ) matches Some(j) && i <= j),
{
    let items = db.item_seq();
    lemma_index_spec(item_keys(items), items.len() as int, k);
    assert forall|i: int|
        1 <= i < items.len() && item_key(#[trigger] items[i]) == k implies (db.index_of(k) matches Some(j)
        && i <= j) by {
        assert(item_keys(items)[i] == item_key(items[i]));
    }
    if let Some(j) = db.index_of(k) {
        assert(item_keys(items)[j as int] == item_key(items[j as int]));
    }
}

proof fn lemma_refs_in_row_complete(row: Seq<PackageEntryRecord>, p: int, n: int, item: int, f: int)
    requires
        0 <= f < n <= row.len(),
        row[f].item_number == item,
    ensures
        refs_in_row(row, p, n, item).contains((p as u32, f as u32)),
    decreases n,
{
    let prev = refs_in_row(row, p, n - 1, item);
    if f < n - 1 {
        lemma_refs_in_row_complete(row, p, n - 1, item, f);
        if row[n - 1].item_number == item {
            let k = choose|k: int| 0 <= k < prev.len() && prev[k] == (p as u32, f as u32);
            assert(prev.push((p as u32, (n - 1) as u32))[k] == prev[k]);
        }
    } else {
        assert(prev.push((p as u32, f as u32))[prev.len() as int] == (p as u32, f as u32));
    }
}

proof fn lemma_refs_before_complete(rows: Seq<Seq<PackageEntryRecord>>, pp: int, item: int, p: int, f: int)
    requires
        0 <= p < pp <= rows.len(),
        0 <= f < rows[p].len(),
        rows[p][f].item_number == item,
    ensures
        refs_before(rows, pp, item).contains((p as u32, f as u32)),
    decreases pp,
{
    let a = refs_before(rows, pp - 1, item);
    let b = refs_in_row(rows[pp - 1], pp - 1, rows[pp - 1].len() as int, item);
    if p < pp - 1 {
        lemma_refs_before_complete(rows, pp - 1, item, p, f);
        let k = choose|k: int| 0 <= k < a.len() && a[k] == (p as u32, f as u32);
        assert((a + b)[k] == a[k]);
    } else {
        lemma_refs_in_row_complete(rows[p], p, rows[p].len() as int, item, f);
        let k = choose|k: int| 0 <= k < b.len() && b[k] == (p as u32, f as u32);
        assert((a + b)[a.len() + k] == b[k]);
    }
}

/// The references a file lists and the entries of the packages agree: entry
/// `f` of package `p` is item `i` exactly when item `i` lists `(p, f)`.
pub proof fn lemma_refs_agree(db: &Database, i: int, p: int, f: int)
    requires
        db.wf(),
        0 <= i < db.item_seq().len(),
        0 <= p < db.package_seq().len(),
        0 <= f < db.package_seq()[p].files@.len(),
    ensures
        file_refs(db.item_seq()[i]).contains((p as u32, f as u32)) <==> db.package_seq()[p].files@[f].item_number
            == i,
{
    let rows = package_rows(db.package_seq());
    let np = db.package_seq().len() as int;
    assert forall|q: int| 0 <= q < rows.len() implies #[trigger] rows[q].len() <= u32::MAX + 1 by {
        assert(rows[q] == db.package_seq()[q].files@);
    }
    assert(rows[p] == db.package_seq()[p].files@);
    lemma_refs_before_members(rows, np, i);
    let refs = refs_before(rows, np, i);
    assert(file_refs(db.item_seq()[i]) == refs);
    if refs.contains((p as u32, f as u32)) {
        let k = choose|k: int| 0 <= k < refs.len() && refs[k] == (p as u32, f as u32);
        assert(refs[k].0 == p as u32);
    }
    if db.package_seq()[p].files@[f].item_number == i {
        lemma_refs_before_complete(rows, np, i, p, f);
    }
}

/// A file to read: its key, when its package last changed, and where it
/// lies in the package's data file.
#[derive(Debug, Clone, Copy)]
pub struct ReadItem<'a> {
    pub key: HashStrKey<'a>,
    pub last_modified: SystemTime,
    pub offset: usize,
    pub length: usize,
}

/// The key of a read item by hashes.
pub open spec fn read_key(it: ReadItem) -> (u64, u64, u64) {
    (it.key.path.hash, it.key.language.hash, it.key.extension.hash)
}

impl Database {
    /// Entry `f` of package `p` is a file item, and `it` reads it: the key,
    /// the package's time, the entry's offset and length.
    pub open spec fn reads_entry(&self, it: ReadItem, p: int, f: int) -> bool {
        let items = self.item_seq();
        let e = self.package_seq()[p].files@[f];
        &&& 0 <= p < self.package_seq().len()
        &&& 0 <= f < self.package_seq()[p].files@.len()
        &&& !is_folder_item(items[e.item_number as int])
        &&& read_key(it) == item_key(items[e.item_number as int])
        &&& it.last_modified == self.package_seq()[p].last_modified
        &&& it.offset == e.offset
        &&& it.length == e.length
    }

    /// The key of entry `f` of package `p`.
    pub open spec fn entry_key(&self, p: int, f: int) -> (u64, u64, u64) {
        item_key(self.item_seq()[self.package_seq()[p].files@[f].item_number as int])
    }

    /// Every total of entry lengths of one package fits in a `usize`.
    pub open spec fn totals_fit(&self) -> bool {
        forall|p: int| 0 <= p < self.package_seq().len() ==> #[trigger] length_total(self.package_seq()[p].files@, self.package_seq()[p].files@.len() as int) <= usize::MAX
    }
}

/// The sum of the lengths of the first `n` entries.
pub open spec fn length_total(files: Seq<PackageEntryRecord>, n: int) -> int
    decreases n,
{
    if n <= 0 {
        0
    } else {
        length_total(files, n - 1) + files[n - 1].length
    }
}

impl Database {
    /// Whether `cond` surely keeps every key with hashes `k`: every result it
    /// may give for such a key is `true`.
    pub open spec fn keeps<'s, F: Fn(HashStrKey<'s>) -> bool>(cond: F, k: (u64, u64, u64)) -> bool {
        forall|hk: HashStrKey<'s>, b: bool|
            (hk.path.hash, hk.language.hash, hk.extension.hash) == k && cond.ensures((hk,), b) ==> b
    }

    /// Whether `cond` surely drops every key with hashes `k`.
    pub open spec fn drops<'s, F: Fn(HashStrKey<'s>) -> bool>(cond: F, k: (u64, u64, u64)) -> bool {
        forall|hk: HashStrKey<'s>, b: bool|
            (hk.path.hash, hk.language.hash, hk.extension.hash) == k && cond.ensures((hk,), b) ==> !b
    }

    /// Whether `cond` decides every key by its hashes alone: it surely keeps
    /// it or surely drops it.
    pub open spec fn decides<'s, F: Fn(HashStrKey<'s>) -> bool>(cond: F) -> bool {
        forall|k: (u64, u64, u64)| #[trigger] Self::keeps(cond, k) || Self::drops(cond, k)
    }

    /// Entry `f` of package `p` is a file that `cond` keeps.
    pub open spec fn entry_kept<'s, F: Fn(HashStrKey<'s>) -> bool>(&self, cond: F, p: int, f: int) -> bool {
        &&& 0 <= f < self.package_seq()[p].files@.len()
        &&& !is_folder_item(self.item_seq()[self.package_seq()[p].files@[f].item_number as int])
        &&& Self::keeps(cond, self.entry_key(p, f))
    }

    /// The sum of the lengths of the entries among the first `n` of package
    /// `p` that are files `cond` keeps.
    pub open spec fn kept_total<'s, F: Fn(HashStrKey<'s>) -> bool>(&self, cond: F, p: int, n: int) -> int
        decreases n,
    {
        if n <= 0 {
            0
        } else {
            self.kept_total(cond, p, n - 1) + if self.entry_kept(cond, p, n - 1) {
                self.package_seq()[p].files@[n - 1].length as int
            } else {
                0
            }
        }
    }

    /// The bytes of the files of package `p` that `cond` keeps.
    pub open spec fn kept_bytes<'s, F: Fn(HashStrKey<'s>) -> bool>(&self, cond: F, p: int) -> int {
        self.kept_total(cond, p, self.package_seq()[p].files@.len() as int)
    }

    /// Package `p` has a file with key `k` that `cond` keeps.
    pub open spec fn holds_kept<'s, F: Fn(HashStrKey<'s>) -> bool>(&self, cond: F, p: int, k: (u64, u64, u64)) -> bool {
        exists|f: int| #[trigger] self.entry_kept(cond, p, f) && self.entry_key(p, f) == k
    }

    /// A list of the result reads entries of a package `p`, and no package
    /// with more bytes of kept files than `p` holds any of its keys.
    pub open spec fn taken_first<'s, F: Fn(HashStrKey<'s>) -> bool>(&self, cond: F, pack: (&PathBuf, Vec<ReadItem>)) -> bool {
        exists|p: int| #[trigger] self.pack_of(pack, p) && forall|j: int, p2: int|
            0 <= j < pack.1@.len() && 0 <= p2 < self.package_seq().len() && self.kept_bytes(cond, p2) > self.kept_bytes(cond, p)
                ==> !#[trigger] self.holds_kept(cond, p2, read_key(#[trigger] pack.1@[j]))
    }

    /// The files of package `p` whose keys `cond` accepts, in entry order,
    /// with the sum of their lengths.
    fn package_reads<'s, F: Fn(HashStrKey<'s>) -> bool>(&'s self, p: usize, cond: &F) -> (r: (
        Vec<ReadItem<'s>>,
        usize,
        Ghost<Seq<int>>,
    ))
        requires
            self.wf(),
            self.totals_fit(),
            p < self.package_seq().len(),
            forall|k: HashStrKey<'s>| cond.requires((k,)),
        ensures
            r.2@.len() == r.0@.len(),
            forall|k: int| 0 <= k < r.0@.len() ==> #[trigger] self.reads_entry(r.0@[k], p as int, r.2@[k]),
            forall|k: int| 0 <= k < r.0@.len() ==> cond.ensures((#[trigger] r.0@[k].key,), true),
            forall|f: int|
                0 <= f < self.package_seq()[p as int].files@.len() && !is_folder_item(
                    self.item_seq()[self.package_seq()[p as int].files@[f].item_number as int],
                ) && Self::keeps(*cond, self.entry_key(p as int, f)) ==> exists|k: int|
                    0 <= k < r.0@.len() && read_key(#[trigger] r.0@[k]) == self.entry_key(p as int, f),
            r.1 == read_total(r.0@, r.0@.len() as int),
            Self::decides(*cond) ==> r.1 == self.kept_bytes(*cond, p as int),
    {
        let pkg = &self.packages[p];
        let h: &'s HashIndex = &*self.hashes;
        let ne = pkg.files.len();
        let mut out: Vec<ReadItem<'s>> = Vec::new();
        let ghost mut srcs: Seq<int> = Seq::empty();
        let mut total: usize = 0;
        let mut f: usize = 0;
        while f < ne
            invariant
                self.wf(),
                self.totals_fit(),
                p < self.package_seq().len(),
                pkg == self.package_seq()[p as int],
                h == self.hashlist(),
                ne == pkg.files@.len(),
                f <= ne,
                forall|k: HashStrKey<'s>| cond.requires((k,)),
                srcs.len() == out@.len(),
                forall|k: int|
                    0 <= k < out@.len() ==> 0 <= #[trigger] srcs[k] < f && self.reads_entry(out@[k], p as int, srcs[k]),
                forall|k: int| 0 <= k < out@.len() ==> cond.ensures((#[trigger] out@[k].key,), true),
                forall|g: int|
                    0 <= g < f && !is_folder_item(
                        self.item_seq()[self.package_seq()[p as int].files@[g].item_number as int],
                    ) && Self::keeps(*cond, self.entry_key(p as int, g)) ==> exists|k: int|
                        0 <= k < out@.len() && read_key(#[trigger] out@[k]) == self.entry_key(p as int, g),
                total == read_total(out@, out@.len() as int),
                total <= length_total(pkg.files@, f as int),
                Self::decides(*cond) ==> total == self.kept_total(*cond, p as int, f as int),
            decreases ne - f,
        {
            let per = pkg.files[f];
            assert(per.item_number < self.items@.len());
            let item = &self.items[per.item_number as usize];
            let key = HashStrKey::from_hashes(h, (item.path, item.language, item.extension));
            let keep = cond(key);
            let is_file = match item.specifics {
                ItemRecordSpecifics::File(_) => true,
                ItemRecordSpecifics::Folder(_) => false,
            };
            let ghost old_out = out@;
            let ghost old_total = total;
            proof {
                lemma_length_total_monotone(pkg.files@, f as int, f + 1);
                if Self::decides(*cond) {
                    let ek = self.entry_key(p as int, f as int);
                    assert(Self::keeps(*cond, ek) || Self::drops(*cond, ek));
                    assert((key.path.hash, key.language.hash, key.extension.hash) == ek);
                    assert(self.entry_kept(*cond, p as int, f as int) <==> (keep && is_file));
                }
            }
            if keep && is_file {
                let it = ReadItem {
                    key,
                    last_modified: pkg.last_modified,
                    offset: per.offset as usize,
                    length: per.length as usize,
                };
                proof {
                    assert(length_total(pkg.files@, f + 1) <= usize::MAX) by {
                        lemma_length_total_monotone(pkg.files@, f + 1, ne as int);
                    }
                }
                total = total + per.length as usize;
                out.push(it);
                proof {
                    lemma_read_total_prefix(out@, old_out, old_out.len() as int);
                    srcs = srcs.push(f as int);
                    assert(self.reads_entry(it, p as int, f as int));
                    assert(out@.drop_last() =~= old_out);
                    assert forall|g: int|
                        0 <= g < f + 1 && !is_folder_item(
                            self.item_seq()[self.package_seq()[p as int].files@[g].item_number as int],
                        ) && Self::keeps(*cond, self.entry_key(p as int, g)) implies exists|k: int|
                            0 <= k < out@.len() && read_key(#[trigger] out@[k]) == self.entry_key(p as int, g) by {
                        if g < f {
                            let k = choose|k: int| 0 <= k < old_out.len() && read_key(#[trigger] old_out[k]) == self.entry_key(p as int, g);
                            assert(out@[k] == old_out[k]);
                        } else {
                            assert(read_key(out@[out@.len() - 1]) == self.entry_key(p as int, g));
                        }
                    }
                }
            } else {
                proof {
                    assert forall|g: int|
                        0 <= g < f + 1 && !is_folder_item(
                            self.item_seq()[self.package_seq()[p as int].files@[g].item_number as int],
                        ) && Self::keeps(*cond, self.entry_key(p as int, g)) implies exists|k: int|
                            0 <= k < out@.len() && read_key(#[trigger] out@[k]) == self.entry_key(p as int, g) by {
                        if g == f {
                            assert(self.entry_key(p as int, g) == (key.path.hash, key.language.hash, key.extension.hash));
                            assert(keep);
                        }
                    }
                }
            }
            proof {
                if Self::decides(*cond) {
                    assert(self.kept_total(*cond, p as int, f + 1) == self.kept_total(*cond, p as int, f as int) + if self.entry_kept(*cond, p as int, f as int) {
                        self.package_seq()[p as int].files@[f as int].length as int
                    } else {
                        0
                    });
                }
            }
            f += 1;
        }
        (out, total, Ghost(srcs))
    }
}

/// The items sorted by offset, items with equal offsets keeping their order.
fn sort_by_offset<'s>(items: &Vec<ReadItem<'s>>) -> (r: Vec<ReadItem<'s>>)
    ensures
        r@.len() == items@.len(),
        by_offset(r@),
        exists|pos: Seq<usize>|
            #[trigger] holds_range(pos, 0, items@.len() as int) && pos.no_duplicates() && forall|k: int|
                0 <= k < r@.len() ==> #[trigger] r@[k] == items@[pos[k] as int],
{
    let n = items.len();
    let mut keys: Vec<Vec<u64>> = Vec::new();
    let mut i: usize = 0;
    while i < n
        invariant
            n == items@.len(),
            i <= n,
            keys@.len() == i,
            forall|k: int| 0 <= k < i ==> (#[trigger] keys@[k])@ == seq![items@[k].offset as u64],
        decreases n - i,
    {
        let mut key: Vec<u64> = Vec::new();
        key.push(items[i].offset as u64);
        assert(key@ =~= seq![items@[i as int].offset as u64]);
        keys.push(key);
        i += 1;
    }
    let pos = sort_positions(&keys);
    let mut r: Vec<ReadItem<'s>> = Vec::new();
    let mut m: usize = 0;
    while m < n
        invariant
            n == items@.len(),
            n == keys@.len(),
            holds_range(pos@, 0, n as int),
            m <= n,
            r@.len() == m,
            forall|k: int| 0 <= k < m ==> #[trigger] r@[k] == items@[pos@[k] as int],
        decreases n - m,
    {
        assert(pos@.contains(pos@[m as int]));
        let q = pos[m];
        r.push(items[q]);
        m += 1;
    }
    proof {
        let ks = key_seq(keys@);
        assert forall|a: int, b: int| 0 <= a < b < r@.len() implies (#[trigger] r@[a]).offset <= (#[trigger] r@[b]).offset by {
            assert(goes_before(ks, pos@[a] as int, pos@[b] as int));
            assert(pos@.contains(pos@[a]));
            assert(pos@.contains(pos@[b]));
            assert(ks[pos@[a] as int] == keys@[pos@[a] as int]@);
            assert(ks[pos@[b] as int] == keys@[pos@[b] as int]@);
            lemma_single_key_order(items@[pos@[a] as int].offset as u64, items@[pos@[b] as int].offset as u64);
            if ks[pos@[a] as int] == ks[pos@[b] as int] {
                assert(ks[pos@[a] as int][0] == ks[pos@[b] as int][0]);
            }
        }
        assert(holds_range(pos@, 0, items@.len() as int));
    }
    r
}

/// Some read item of `s` has key `k`.
pub open spec fn has_key(s: Seq<ReadItem>, k: (u64, u64, u64)) -> bool {
    exists|a: int| 0 <= a < s.len() && read_key(#[trigger] s[a]) == k
}

/// The items of `items` whose keys `seen` does not hold yet, in order, each
/// key once; `seen` then holds their keys too.
fn take_unseen<'s>(seen: &mut ItemIndex, items: &Vec<ReadItem<'s>>) -> (r: Vec<ReadItem<'s>>)
    ensures
        forall|a: int| 0 <= a < r@.len() ==> items@.contains(#[trigger] r@[a]),
        distinct_keys(r@),
        forall|a: int| 0 <= a < r@.len() ==> old(seen).lookup(read_key(#[trigger] r@[a])) is None,
        forall|k: (u64, u64, u64)|
            #[trigger] final(seen).lookup(k) is Some <==> (old(seen).lookup(k) is Some || has_key(r@, k)),
        forall|j: int| 0 <= j < items@.len() ==> final(seen).lookup(read_key(#[trigger] items@[j])) is Some,
{
    let mut out: Vec<ReadItem<'s>> = Vec::new();
    let n = items.len();
    let mut j: usize = 0;
    while j < n
        invariant
            n == items@.len(),
            j <= n,
            forall|a: int| 0 <= a < out@.len() ==> items@.contains(#[trigger] out@[a]),
            distinct_keys(out@),
            forall|a: int| 0 <= a < out@.len() ==> old(seen).lookup(read_key(#[trigger] out@[a])) is None,
            forall|k: (u64, u64, u64)|
                #[trigger] seen.lookup(k) is Some <==> (old(seen).lookup(k) is Some || has_key(out@, k)),
            forall|q: int| 0 <= q < j ==> seen.lookup(read_key(#[trigger] items@[q])) is Some,
        decreases n - j,
    {
        let it = items[j];
        let k = (it.key.path.hash, it.key.language.hash, it.key.extension.hash);
        assert(k == read_key(items@[j as int]));
        if seen.get(k).is_none() {
            let ghost old_out = out@;
            seen.insert(k, 0);
            out.push(it);
            proof {
                assert(items@.contains(it)) by {
                    assert(items@[j as int] == it);
                }
                assert forall|a: int| 0 <= a < out@.len() implies items@.contains(#[trigger] out@[a]) by {
                    if a < old_out.len() {
                        assert(out@[a] == old_out[a]);
                    }
                }
                assert forall|a: int, b: int| 0 <= a < b < out@.len() implies read_key(#[trigger] out@[a]) != read_key(#[trigger] out@[b]) by {
                    if b == old_out.len() {
                        assert(out@[a] == old_out[a]);
                        assert(!has_key(old_out, k));
                    } else {
                        assert(out@[a] == old_out[a]);
                        assert(out@[b] == old_out[b]);
                    }
                }
                assert forall|a: int| 0 <= a < out@.len() implies old(seen).lookup(read_key(#[trigger] out@[a])) is None by {
                    if a < old_out.len() {
                        assert(out@[a] == old_out[a]);
                    }
                }
                assert forall|kk: (u64, u64, u64)| #[trigger] seen.lookup(kk) is Some <==> (old(seen).lookup(kk) is Some || has_key(out@, kk)) by {
                    if has_key(old_out, kk) {
                        let a = choose|a: int| 0 <= a < old_out.len() && read_key(#[trigger] old_out[a]) == kk;
                        assert(out@[a] == old_out[a]);
                    }
                    if has_key(out@, kk) {
                        let a = choose|a: int| 0 <= a < out@.len() && read_key(#[trigger] out@[a]) == kk;
                        if a < old_out.len() {
                            assert(out@[a] == old_out[a]);
                        }
                    }
                    if kk == k {
                        assert(read_key(out@[out@.len() - 1]) == kk);
                    }
                }
            }
        }
        j += 1;
    }
    out
}

impl Database {
    /// `it` reads some entry of package `p`.
    pub open spec fn reads_some_entry(&self, it: ReadItem, p: int) -> bool {
        exists|f: int| #[trigger] self.reads_entry(it, p, f)
    }

    /// A list of the result is `p`'s data path with items that read entries
    /// of `p`, at least one, by offset.
    pub open spec fn pack_of(&self, pack: (&PathBuf, Vec<ReadItem>), p: int) -> bool {
        &&& 0 <= p < self.package_seq().len()
        &&& *pack.0 == self.package_seq()[p].data_path
        &&& pack.1@.len() > 0
        &&& by_offset(pack.1@)
        &&& forall|j: int| 0 <= j < pack.1@.len() ==> self.reads_some_entry(#[trigger] pack.1@[j], p)
    }

    /// A list of the result is made of entries of one package.
    pub open spec fn from_some_package(&self, pack: (&PathBuf, Vec<ReadItem>)) -> bool {
        exists|p: int| #[trigger] self.pack_of(pack, p)
    }

    /// The files to read, by package: every file entry whose key `cond`
    /// accepts, each key once, taken from the package with the most bytes of
    /// accepted files (the packages are gone through from the most bytes
    /// down); each package's files in the order they lie in its data file.
    pub fn filter_key_sort_physical<'s, F: Fn(HashStrKey<'s>) -> bool>(&'s self, cond: F) -> (r: Vec<
        (&'s PathBuf, Vec<ReadItem<'s>>),
    >)
        requires
            self.wf(),
            self.totals_fit(),
            forall|k: HashStrKey<'s>| cond.requires((k,)),
        ensures
            forall|i: int| 0 <= i < r@.len() ==> self.from_some_package(#[trigger] r@[i]),
            forall|i: int, j: int|
                0 <= i < r@.len() && 0 <= j < r@[i].1@.len() ==> cond.ensures((#[trigger] r@[i].1@[j].key,), true),
            forall|i1: int, j1: int, i2: int, j2: int|
                0 <= i1 < r@.len() && 0 <= j1 < r@[i1].1@.len() && 0 <= i2 < r@.len() && 0 <= j2 < r@[i2].1@.len()
                    && (i1 != i2 || j1 != j2) ==> read_key(#[trigger] r@[i1].1@[j1]) != read_key(#[trigger] r@[i2].1@[j2]),
            forall|p: int, f: int|
                0 <= p < self.package_seq().len() && 0 <= f < self.package_seq()[p].files@.len() && !is_folder_item(
                    self.item_seq()[self.package_seq()[p].files@[f].item_number as int],
                ) && Self::keeps(cond, #[trigger] self.entry_key(p, f)) ==> lists_have_key(r@, self.entry_key(p, f)),
            Self::decides(cond) ==> forall|i: int| 0 <= i < r@.len() ==> self.taken_first(cond, #[trigger] r@[i]),
    {
        let np = self.packages.len();
        let mut packs: Vec<(usize, usize, Vec<ReadItem<'s>>)> = Vec::new();
        let mut p: usize = 0;
        while p < np
            invariant
                self.wf(),
                self.totals_fit(),
                np == self.package_seq().len(),
                p <= np,
                forall|k: HashStrKey<'s>| cond.requires((k,)),
                forall|q: int|
                    0 <= q < packs@.len() ==> {
                        &&& (#[trigger] packs@[q]).0 < np
                        &&& forall|j: int|
                            0 <= j < packs@[q].2@.len() ==> self.reads_some_entry(#[trigger] packs@[q].2@[j], packs@[q].0 as int)
                                && cond.ensures((packs@[q].2@[j].key,), true)
                    },
                forall|pp: int, f: int|
                    0 <= pp < p && 0 <= f < self.package_seq()[pp].files@.len() && !is_folder_item(
                        self.item_seq()[self.package_seq()[pp].files@[f].item_number as int],
                    ) && Self::keeps(cond, #[trigger] self.entry_key(pp, f)) ==> exists|q: int|
                        0 <= q < packs@.len() && #[trigger] has_key(packs@[q].2@, self.entry_key(pp, f)),
                Self::decides(cond) ==> forall|q: int| 0 <= q < packs@.len() ==> (#[trigger] packs@[q]).1 == self.kept_bytes(cond, packs@[q].0 as int),
                forall|p2: int, k: (u64, u64, u64)|
                    0 <= p2 < p && #[trigger] self.holds_kept(cond, p2, k) ==> exists|qi: int|
                        0 <= qi < packs@.len() && packs@[qi].0 == p2 && #[trigger] has_key(packs@[qi].2@, k),
            decreases np - p,
        {
            let (items, total, Ghost(srcs)) = self.package_reads(p, &cond);
            let ghost old_packs = packs@;
            if items.len() > 0 {
                packs.push((p, total, items));
            }
            proof {
                assert forall|q: int| 0 <= q < packs@.len() implies {
                    &&& (#[trigger] packs@[q]).0 < np
                    &&& forall|j: int|
                        0 <= j < packs@[q].2@.len() ==> self.reads_some_entry(#[trigger] packs@[q].2@[j], packs@[q].0 as int)
                            && cond.ensures((packs@[q].2@[j].key,), true)
                } by {
                    if q < old_packs.len() {
                        assert(packs@[q] == old_packs[q]);
                    } else {
                        assert forall|j: int| 0 <= j < packs@[q].2@.len() implies self.reads_some_entry(#[trigger] packs@[q].2@[j], packs@[q].0 as int)
                            && cond.ensures((packs@[q].2@[j].key,), true) by {
                            assert(self.reads_entry(packs@[q].2@[j], p as int, srcs[j]));
                        }
                    }
                }
                assert forall|pp: int, f: int|
                    0 <= pp < p + 1 && 0 <= f < self.package_seq()[pp].files@.len() && !is_folder_item(
                        self.item_seq()[self.package_seq()[pp].files@[f].item_number as int],
                    ) && Self::keeps(cond, #[trigger] self.entry_key(pp, f)) implies exists|q: int|
                        0 <= q < packs@.len() && #[trigger] has_key(packs@[q].2@, self.entry_key(pp, f)) by {
                    if pp < p {
                        let q = choose|q: int| 0 <= q < old_packs.len() && #[trigger] has_key(old_packs[q].2@, self.entry_key(pp, f));
                        assert(packs@[q] == old_packs[q]);
                    } else {
                        let q = old_packs.len() as int;
                        assert(packs@[q].2@ == items@);
                        let k = choose|k: int| 0 <= k < items@.len() && read_key(#[trigger] items@[k]) == self.entry_key(pp, f);
                        assert(has_key(packs@[q].2@, self.entry_key(pp, f)));
                    }
                }
                if Self::decides(cond) {
                    assert forall|q: int| 0 <= q < packs@.len() implies (#[trigger] packs@[q]).1 == self.kept_bytes(cond, packs@[q].0 as int) by {
                        if q < old_packs.len() {
                            assert(packs@[q] == old_packs[q]);
                        }
                    }
                }
                assert forall|p2: int, k: (u64, u64, u64)|
                    0 <= p2 < p + 1 && #[trigger] self.holds_kept(cond, p2, k) implies exists|qi: int|
                        0 <= qi < packs@.len() && packs@[qi].0 == p2 && #[trigger] has_key(packs@[qi].2@, k) by {
                    if p2 < p {
                        let qi = choose|qi: int| 0 <= qi < old_packs.len() && old_packs[qi].0 == p2 && #[trigger] has_key(old_packs[qi].2@, k);
                        assert(packs@[qi] == old_packs[qi]);
                    } else {
                        let f = choose|f: int| #[trigger] self.entry_kept(cond, p2, f) && self.entry_key(p2, f) == k;
                        let kk = choose|kk: int| 0 <= kk < items@.len() && read_key(#[trigger] items@[kk]) == self.entry_key(p as int, f);
                        let qi = old_packs.len() as int;
                        assert(packs@[qi].2@ == items@);
                        assert(has_key(packs@[qi].2@, k));
                    }
                }
            }
            p += 1;
        }
        let npk = packs.len();
        let mut keys: Vec<Vec<u64>> = Vec::new();
        let mut z: usize = 0;
        while z < npk
            invariant
                npk == packs@.len(),
                z <= npk,
                keys@.len() == z,
                forall|zz: int| 0 <= zz < z ==> (#[trigger] keys@[zz])@ == seq![(18446744073709551615 - packs@[zz].1) as u64],
            decreases npk - z,
        {
            let mut key: Vec<u64> = Vec::new();
            key.push(18446744073709551615u64 - packs[z].1 as u64);
            let ghost old_keys = keys@;
            keys.push(key);
            proof {
                assert forall|zz: int| 0 <= zz < z + 1 implies (#[trigger] keys@[zz])@ == seq![(18446744073709551615 - packs@[zz].1) as u64] by {
                    if zz < z {
                        assert(keys@[zz] == old_keys[zz]);
                    }
                }
            }
            z += 1;
        }
        let order = sort_positions(&keys);
        let mut seen = ItemIndex::new();
        let mut result: Vec<(&'s PathBuf, Vec<ReadItem<'s>>)> = Vec::new();
        let mut q: usize = 0;
        while q < npk
            invariant
                self.wf(),
                npk == packs@.len(),
                npk == keys@.len(),
                holds_range(order@, 0, npk as int),
                q <= npk,
                forall|qq: int|
                    0 <= qq < packs@.len() ==> {
                        &&& (#[trigger] packs@[qq]).0 < self.package_seq().len()
                        &&& forall|j: int|
                            0 <= j < packs@[qq].2@.len() ==> self.reads_some_entry(#[trigger] packs@[qq].2@[j], packs@[qq].0 as int)
                                && cond.ensures((packs@[qq].2@[j].key,), true)
                    },
                forall|i: int| 0 <= i < result@.len() ==> self.from_some_package(#[trigger] result@[i]),
                forall|i: int, j: int|
                    0 <= i < result@.len() && 0 <= j < result@[i].1@.len() ==> cond.ensures((#[trigger] result@[i].1@[j].key,), true),
                forall|i1: int, j1: int, i2: int, j2: int|
                    0 <= i1 < result@.len() && 0 <= j1 < result@[i1].1@.len() && 0 <= i2 < result@.len() && 0 <= j2 < result@[i2].1@.len()
                        && (i1 != i2 || j1 != j2) ==> read_key(#[trigger] result@[i1].1@[j1]) != read_key(#[trigger] result@[i2].1@[j2]),
                forall|k: (u64, u64, u64)| #[trigger] seen.lookup(k) is Some <==> lists_have_key(result@, k),
                forall|qq: int, j: int|
                    0 <= qq < q && 0 <= j < packs@[order@[qq] as int].2@.len() ==> seen.lookup(read_key(#[trigger] packs@[order@[qq] as int].2@[j])) is Some,
                strictly_sorted(key_seq(keys@), order@),
                forall|zz: int| 0 <= zz < npk ==> (#[trigger] keys@[zz])@ == seq![(18446744073709551615 - packs@[zz].1) as u64],
                Self::decides(cond) ==> forall|qq: int| 0 <= qq < packs@.len() ==> (#[trigger] packs@[qq]).1 == self.kept_bytes(cond, packs@[qq].0 as int),
                forall|p2: int, k: (u64, u64, u64)|
                    0 <= p2 < self.package_seq().len() && #[trigger] self.holds_kept(cond, p2, k) ==> exists|qi: int|
                        0 <= qi < packs@.len() && packs@[qi].0 == p2 && #[trigger] has_key(packs@[qi].2@, k),
                Self::decides(cond) ==> forall|i: int| 0 <= i < result@.len() ==> self.taken_first(cond, #[trigger] result@[i]),
            decreases npk - q,
        {
            assert(order@.contains(order@[q as int]));
            let pk = &packs[order[q]];
            let ghost pp = pk.0 as int;
            let ghost old_seen = seen;
            let unseen = take_unseen(&mut seen, &pk.2);
            let sorted = sort_by_offset(&unseen);
            let ghost old_result = result@;
            if sorted.len() > 0 {
                let path: &'s PathBuf = &self.packages[pk.0].data_path;
                result.push((path, sorted));
            }
            proof {
                let pos = choose|pos: Seq<usize>|
                    #[trigger] holds_range(pos, 0, unseen@.len() as int) && pos.no_duplicates() && forall|k: int|
                        0 <= k < sorted@.len() ==> #[trigger] sorted@[k] == unseen@[pos[k] as int];
                assert forall|a: int| 0 <= a < sorted@.len() implies pk.2@.contains(#[trigger] sorted@[a]) by {
                    assert(unseen@.contains(unseen@[pos[a] as int])) by {
                        assert(pos.contains(pos[a]));
                    }
                    assert(pk.2@.contains(unseen@[pos[a] as int]));
                }
                assert forall|kk: (u64, u64, u64)| has_key(sorted@, kk) <==> has_key(unseen@, kk) by {
                    if has_key(sorted@, kk) {
                        let a = choose|a: int| 0 <= a < sorted@.len() && read_key(#[trigger] sorted@[a]) == kk;
                        assert(pos.contains(pos[a]));
                        assert(read_key(unseen@[pos[a] as int]) == kk);
                    }
                    if has_key(unseen@, kk) {
                        let b = choose|b: int| 0 <= b < unseen@.len() && read_key(#[trigger] unseen@[b]) == kk;
                        assert(pos.contains(b as usize));
                        let a = choose|a: int| 0 <= a < pos.len() && pos[a] == b as usize;
                        assert(read_key(sorted@[a]) == kk);
                    }
                }
                assert forall|a: int, b: int| 0 <= a < b < sorted@.len() implies read_key(#[trigger] sorted@[a]) != read_key(#[trigger] sorted@[b]) by {
                    assert(pos.contains(pos[a]));
                    assert(pos.contains(pos[b]));
                    assert(pos[a] != pos[b]);
                    if pos[a] < pos[b] {
                        assert(read_key(unseen@[pos[a] as int]) != read_key(unseen@[pos[b] as int]));
                    } else {
                        assert(read_key(unseen@[pos[b] as int]) != read_key(unseen@[pos[a] as int]));
                    }
                }
                if sorted@.len() > 0 {
                    let n_old = old_result.len() as int;
                    assert(result@[n_old].1@ == sorted@);
                    assert(self.pack_of(result@[n_old], pp)) by {
                        assert forall|j: int| 0 <= j < sorted@.len() implies self.reads_some_entry(#[trigger] sorted@[j], pp) by {
                            let t = choose|t: int| 0 <= t < pk.2@.len() && pk.2@[t] == sorted@[j];
                            assert(self.reads_some_entry(pk.2@[t], pp));
                        }
                    }
                    assert forall|i: int| 0 <= i < result@.len() implies self.from_some_package(#[trigger] result@[i]) by {
                        if i < n_old {
                            assert(result@[i] == old_result[i]);
                        } else {
                            assert(self.pack_of(result@[i], pp));
                        }
                    }
                    assert forall|i: int, j: int|
                        0 <= i < result@.len() && 0 <= j < result@[i].1@.len() implies cond.ensures((#[trigger] result@[i].1@[j].key,), true) by {
                        if i < n_old {
                            assert(result@[i] == old_result[i]);
                        } else {
                            let t = choose|t: int| 0 <= t < pk.2@.len() && pk.2@[t] == sorted@[j];
                            assert(cond.ensures((pk.2@[t].key,), true));
                        }
                    }
                    assert forall|i1: int, j1: int, i2: int, j2: int|
                        0 <= i1 < result@.len() && 0 <= j1 < result@[i1].1@.len() && 0 <= i2 < result@.len() && 0 <= j2 < result@[i2].1@.len()
                            && (i1 != i2 || j1 != j2) implies read_key(#[trigger] result@[i1].1@[j1]) != read_key(#[trigger] result@[i2].1@[j2]) by {
                        if i1 < n_old && i2 < n_old {
                            assert(result@[i1] == old_result[i1]);
                            assert(result@[i2] == old_result[i2]);
                        } else if i1 < n_old {
                            assert(result@[i1] == old_result[i1]);
                            assert(lists_have_key(old_result, read_key(result@[i1].1@[j1])));
                            assert(old_seen.lookup(read_key(sorted@[j2])) is None) by {
                                assert(has_key(sorted@, read_key(sorted@[j2])));
                                let b = choose|b: int| 0 <= b < unseen@.len() && read_key(#[trigger] unseen@[b]) == read_key(sorted@[j2]);
                            }
                        } else if i2 < n_old {
                            assert(result@[i2] == old_result[i2]);
                            assert(lists_have_key(old_result, read_key(result@[i2].1@[j2])));
                            assert(old_seen.lookup(read_key(sorted@[j1])) is None) by {
                                assert(has_key(sorted@, read_key(sorted@[j1])));
                                let b = choose|b: int| 0 <= b < unseen@.len() && read_key(#[trigger] unseen@[b]) == read_key(sorted@[j1]);
                            }
                        } else {
                            if j1 < j2 {
                                assert(read_key(sorted@[j1]) != read_key(sorted@[j2]));
                            } else {
                                assert(read_key(sorted@[j2]) != read_key(sorted@[j1]));
                            }
                        }
                    }
                    assert forall|k: (u64, u64, u64)| #[trigger] seen.lookup(k) is Some <==> lists_have_key(result@, k) by {
                        if lists_have_key(result@, k) {
                            let (i, j) = choose|i: int, j: int|
                                0 <= i < result@.len() && 0 <= j < result@[i].1@.len() && read_key(#[trigger] result@[i].1@[j]) == k;
                            if i < n_old {
                                assert(result@[i] == old_result[i]);
                                assert(lists_have_key(old_result, k));
                            } else {
                                assert(has_key(sorted@, k));
                            }
                        }
                        if seen.lookup(k) is Some {
                            if old_seen.lookup(k) is Some {
                                let (i, j) = choose|i: int, j: int|
                                    0 <= i < old_result.len() && 0 <= j < old_result[i].1@.len() && read_key(#[trigger] old_result[i].1@[j]) == k;
                                assert(result@[i] == old_result[i]);
                            } else {
                                assert(has_key(sorted@, k));
                                let a = choose|a: int| 0 <= a < sorted@.len() && read_key(#[trigger] sorted@[a]) == k;
                                assert(read_key(result@[n_old].1@[a]) == k);
                            }
                        }
                    }
                    if Self::decides(cond) {
                        assert forall|j: int| 0 <= j < result@[n_old].1@.len() implies old_seen.lookup(read_key(#[trigger] result@[n_old].1@[j])) is None by {
                            assert(pos.contains(pos[j]));
                            assert(sorted@[j] == unseen@[pos[j] as int]);
                        }
                        self.lemma_taken_first(cond, packs@, keys@, order@, q as int, old_seen, result@[n_old]);
                        assert forall|i: int| 0 <= i < result@.len() implies self.taken_first(cond, #[trigger] result@[i]) by {
                            if i < n_old {
                                assert(result@[i] == old_result[i]);
                            }
                        }
                    }
                } else {
                    assert forall|k: (u64, u64, u64)| #[trigger] seen.lookup(k) is Some <==> lists_have_key(result@, k) by {
                        if seen.lookup(k) is Some && old_seen.lookup(k) is None {
                            assert(has_key(unseen@, k));
                            assert(has_key(sorted@, k));
                        }
                    }
                }
                assert forall|qq: int, j: int|
                    0 <= qq < q + 1 && 0 <= j < packs@[order@[qq] as int].2@.len() implies seen.lookup(read_key(#[trigger] packs@[order@[qq] as int].2@[j])) is Some by {
                    if qq < q {
                        assert(old_seen.lookup(read_key(packs@[order@[qq] as int].2@[j])) is Some);
                    }
                }
            }
            q += 1;
        }
        proof {
            assert forall|pp: int, f: int|
                0 <= pp < self.package_seq().len() && 0 <= f < self.package_seq()[pp].files@.len() && !is_folder_item(
                    self.item_seq()[self.package_seq()[pp].files@[f].item_number as int],
                ) && Self::keeps(cond, #[trigger] self.entry_key(pp, f)) implies lists_have_key(result@, self.entry_key(pp, f)) by {
                let qi = choose|qi: int| 0 <= qi < packs@.len() && #[trigger] has_key(packs@[qi].2@, self.entry_key(pp, f));
                assert(order@.contains(qi as usize));
                let qq = choose|qq: int| 0 <= qq < order@.len() && order@[qq] == qi as usize;
                let j = choose|j: int| 0 <= j < packs@[qi].2@.len() && read_key(#[trigger] packs@[qi].2@[j]) == self.entry_key(pp, f);
                assert(seen.lookup(read_key(packs@[order@[qq] as int].2@[j])) is Some);
            }
        }
        result
    }
}

impl Database {
    /// A list made, in the pass by descending bytes, of the not yet seen
    /// files of package `packs[order[q]].0` was taken from the first package
    /// holding each of its keys.
    proof fn lemma_taken_first<'s, F: Fn(HashStrKey<'s>) -> bool>(
        &self,
        cond: F,
        packs: Seq<(usize, usize, Vec<ReadItem>)>,
        keys: Seq<Vec<u64>>,
        order: Seq<usize>,
        q: int,
        old_seen: ItemIndex,
        pack: (&PathBuf, Vec<ReadItem>),
    )
        requires
            Self::decides(cond),
            0 <= q < order.len(),
            packs.len() <= usize::MAX,
            keys.len() == packs.len(),
            holds_range(order, 0, packs.len() as int),
            strictly_sorted(key_seq(keys), order),
            self.pack_of(pack, packs[order[q] as int].0 as int),
            forall|z: int| 0 <= z < keys.len() ==> (#[trigger] keys[z])@ == seq![(18446744073709551615 - packs[z].1) as u64],
            forall|z: int| 0 <= z < packs.len() ==> (#[trigger] packs[z]).1 == self.kept_bytes(cond, packs[z].0 as int),
            forall|p2: int, k: (u64, u64, u64)|
                0 <= p2 < self.package_seq().len() && #[trigger] self.holds_kept(cond, p2, k) ==> exists|qi: int|
                    0 <= qi < packs.len() && packs[qi].0 == p2 && #[trigger] has_key(packs[qi].2@, k),
            forall|qq: int, j: int|
                0 <= qq < q && 0 <= j < packs[order[qq] as int].2@.len() ==> old_seen.lookup(read_key(#[trigger] packs[order[qq] as int].2@[j])) is Some,
            forall|j: int| 0 <= j < pack.1@.len() ==> old_seen.lookup(read_key(#[trigger] pack.1@[j])) is None,
        ensures
            self.taken_first(cond, pack),
    {
        let pp = packs[order[q] as int].0 as int;
        assert(order.contains(order[q]));
        assert forall|j: int, p2: int|
            0 <= j < pack.1@.len() && 0 <= p2 < self.package_seq().len() && self.kept_bytes(cond, p2) > self.kept_bytes(cond, pp)
                implies !#[trigger] self.holds_kept(cond, p2, read_key(#[trigger] pack.1@[j])) by {
            let k = read_key(pack.1@[j]);
            if self.holds_kept(cond, p2, k) {
                let qi = choose|qi: int| 0 <= qi < packs.len() && packs[qi].0 == p2 && #[trigger] has_key(packs[qi].2@, k);
                assert(order.contains(qi as usize));
                let a = choose|a: int| 0 <= a < order.len() && order[a] == qi as usize;
                let tq = packs[order[q] as int].1;
                let ti = packs[qi].1;
                assert(ti > tq);
                assert(order[a] as int == qi);
                if a > q {
                    assert(goes_before(key_seq(keys), order[q] as int, order[a] as int));
                    assert(key_seq(keys)[order[q] as int] == keys[order[q] as int]@);
                    assert(key_seq(keys)[qi] == keys[qi]@);
                    let x = (18446744073709551615 - tq) as u64;
                    let y = (18446744073709551615 - ti) as u64;
                    assert(x == 18446744073709551615 - tq);
                    assert(y == 18446744073709551615 - ti);
                    lemma_single_key_order(x, y);
                    assert(seq![x][0] != seq![y][0]);
                    assert(false);
                } else if a < q {
                    let b = choose|b: int| 0 <= b < packs[qi].2@.len() && read_key(#[trigger] packs[qi].2@[b]) == k;
                    assert(packs[order[a] as int] == packs[qi]);
                    assert(old_seen.lookup(read_key(packs[order[a] as int].2@[b])) is Some);
                    assert(false);
                }
            }
        }
        assert(self.pack_of(pack, pp));
    }
}

proof fn lemma_read_total_prefix(a: Seq<ReadItem>, b: Seq<ReadItem>, n: int)
    requires
        0 <= n <= a.len(),
        n <= b.len(),
        forall|k: int| 0 <= k < n ==> a[k] == b[k],
    ensures
        read_total(a, n) == read_total(b, n),
    decreases n,
{
    if n > 0 {
        lemma_read_total_prefix(a, b, n - 1);
    }
}

/// No two of the read items have one key.
pub open spec fn distinct_keys(s: Seq<ReadItem>) -> bool {
    forall|a: int, b: int| 0 <= a < b < s.len() ==> read_key(#[trigger] s[a]) != read_key(#[trigger] s[b])
}

/// Some read item of the lists has key `k`.
pub open spec fn lists_have_key(lists: Seq<(&PathBuf, Vec<ReadItem>)>, k: (u64, u64, u64)) -> bool {
    exists|i: int, j: int|
        0 <= i < lists.len() && 0 <= j < lists[i].1@.len() && read_key(#[trigger] lists[i].1@[j]) == k
}

/// The read items of the lists, each list in order, by offset.
pub open spec fn by_offset(s: Seq<ReadItem>) -> bool {
    forall|a: int, b: int| 0 <= a < b < s.len() ==> (#[trigger] s[a]).offset <= (#[trigger] s[b]).offset
}

proof fn lemma_single_key_order(a: u64, b: u64)
    ensures
        shortlex_lt(seq![a], seq![b]) <==> a < b,
{
    if a < b {
        assert(crate::sorting::first_less_at(seq![a], seq![b], 0));
    }
    if shortlex_lt(seq![a], seq![b]) {
        let k = choose|k: int| #[trigger] crate::sorting::first_less_at(seq![a], seq![b], k);
        assert(k == 0);
    }
}

/// The sum of the lengths of the first `n` read items.
pub open spec fn read_total(items: Seq<ReadItem>, n: int) -> int
    decreases n,
{
    if n <= 0 {
        0
    } else {
        read_total(items, n - 1) + items[n - 1].length
    }
}

proof fn lemma_length_total_monotone(files: Seq<PackageEntryRecord>, m: int, n: int)
    requires
        0 <= m <= n <= files.len(),
    ensures
        length_total(files, m) <= length_total(files, n),
    decreases n - m,
{
    if m < n {
        lemma_length_total_monotone(files, m, n - 1);
    }
}

} // verus!
