//! `bundle_db.blb`: the list of languages and of every file in the packages.
use vstd::prelude::*;
use crate::read_helpers::{le_u32, le_u64, read_u32_le, read_u64_le};

verus! {

/// A language: its Idstring and the id that files refer to it by.
pub struct LanguageEntry {
    pub hash: u64,
    pub id: u32,
}

/// A file: its extension and path hashes, its language id (0 for none) and
/// the id that package headers refer to it by.
pub struct FileEntry {
    pub extension: u64,
    pub path: u64,
    pub lang_id: u32,
    pub file_id: u32,
}

/// The contents of `bundle_db.blb`.
pub struct BundleDbFile {
    pub tag: u32,
    pub languages: Vec<LanguageEntry>,
    pub files: Vec<FileEntry>,
}

/// Where the header of `bundle_db.blb` says the tables are:
/// `(language count, language offset, file count, file offset)`.
///
/// There are three layouts. A non-zero word at 4 is the language count of
/// the PD2 layout. Otherwise the count is at 8, and a non-zero word at 12
/// marks the x64 layout, a zero one the RAID layout.
pub open spec fn bdb_layout(b: Seq<u8>) -> (u32, u64, u32, u64) {
    if le_u32(b, 4) != 0 {
        (le_u32(b, 4), le_u32(b, 12) as u64, le_u32(b, 28), le_u32(b, 36) as u64)
    } else if le_u32(b, 12) != 0 {
        (le_u32(b, 8), le_u64(b, 16), le_u32(b, 48), le_u64(b, 56))
    } else {
        (le_u32(b, 8), le_u64(b, 24), le_u32(b, 56), le_u64(b, 72))
    }
}

/// Where each layout keeps its counts and offsets, field by field:
/// - PD2 (non-zero word at 4): language count at 4, language offset (`u32`)
///   at 12, file count at 28, file offset (`u32`) at 36;
/// - x64 (zero at 4, non-zero at 12): language count at 8, language offset
///   (`u64`) at 16, file count at 48, file offset (`u64`) at 56;
/// - RAID (zero at 4 and 12): language count at 8, language offset (`u64`)
///   at 24, file count at 56, file offset (`u64`) at 72.
pub proof fn lemma_bdb_header_fields(b: Seq<u8>)
    ensures
        le_u32(b, 4) != 0 ==> {
            &&& bdb_layout(b).0 == le_u32(b, 4)
            &&& bdb_layout(b).1 == le_u32(b, 12) as u64
            &&& bdb_layout(b).2 == le_u32(b, 28)
            &&& bdb_layout(b).3 == le_u32(b, 36) as u64
        },
        le_u32(b, 4) == 0 && le_u32(b, 12) != 0 ==> {
            &&& bdb_layout(b).0 == le_u32(b, 8)
            &&& bdb_layout(b).1 == le_u64(b, 16)
            &&& bdb_layout(b).2 == le_u32(b, 48)
            &&& bdb_layout(b).3 == le_u64(b, 56)
        },
        le_u32(b, 4) == 0 && le_u32(b, 12) == 0 ==> {
            &&& bdb_layout(b).0 == le_u32(b, 8)
            &&& bdb_layout(b).1 == le_u64(b, 24)
            &&& bdb_layout(b).2 == le_u32(b, 56)
            &&& bdb_layout(b).3 == le_u64(b, 72)
        },
{
}

/// A language entry is its Idstring (`u64`) then its id (`u32`); a file
/// entry is its extension and path Idstrings (`u64` each), its language id
/// (`u32`), four unused bytes, and its file id (`u32`).
pub proof fn lemma_bdb_entry_fields(b: Seq<u8>, at: int)
    ensures
        spec_language(b, at).0 == le_u64(b, at),
        spec_language(b, at).1 == le_u32(b, at + 8),
        spec_file(b, at).0 == le_u64(b, at),
        spec_file(b, at).1 == le_u64(b, at + 8),
        spec_file(b, at).2 == le_u32(b, at + 16),
        spec_file(b, at).3 == le_u32(b, at + 24),
{
}

/// The header of its layout lies within `b`.
pub open spec fn bdb_header_fits(b: Seq<u8>) -> bool {
    &&& b.len() >= 8
    &&& le_u32(b, 4) != 0 ==> b.len() >= 40
    &&& le_u32(b, 4) == 0 ==> b.len() >= 16 && (if le_u32(b, 12) != 0 {
        b.len() >= 64
    } else {
        b.len() >= 80
    })
}

/// The header fits and both tables lie within `b`.
pub open spec fn bdb_fits(b: Seq<u8>) -> bool {
    let (lc, lo, fc, fo) = bdb_layout(b);
    &&& bdb_header_fits(b)
    &&& lo + 16 * lc <= b.len()
    &&& fo + 32 * fc <= b.len()
}

/// The language entry at `at`: the hash, then the id.
pub open spec fn spec_language(b: Seq<u8>, at: int) -> (u64, u32) {
    (le_u64(b, at), le_u32(b, at + 8))
}

/// The file entry at `at`: extension, path, language id, four unused bytes,
/// file id.
pub open spec fn spec_file(b: Seq<u8>, at: int) -> (u64, u64, u32, u32) {
    (le_u64(b, at), le_u64(b, at + 8), le_u32(b, at + 16), le_u32(b, at + 24))
}

/// Whether the header and both tables of `bundle_db.blb` lie within `blb`.
pub fn bundle_db_fits(blb: &[u8]) -> (r: bool)
    ensures
        r == bdb_fits(blb@),
{
    let n = blb.len() as u64;
    if n < 8 {
        return false;
    }
    let lang_count: u32;
    let lang_offset: u64;
    let file_count: u32;
    let file_offset: u64;
    let w4 = read_u32_le(blb, 4);
    if w4 != 0 {
        if n < 40 {
            return false;
        }
        lang_count = w4;
        lang_offset = read_u32_le(blb, 12) as u64;
        file_count = read_u32_le(blb, 28);
        file_offset = read_u32_le(blb, 36) as u64;
    } else {
        if n < 16 {
            return false;
        }
        let w12 = read_u32_le(blb, 12);
        if w12 != 0 {
            if n < 64 {
                return false;
            }
            lang_count = read_u32_le(blb, 8);
            lang_offset = read_u64_le(blb, 16);
            file_count = read_u32_le(blb, 48);
            file_offset = read_u64_le(blb, 56);
        } else {
            if n < 80 {
                return false;
            }
            lang_count = read_u32_le(blb, 8);
            lang_offset = read_u64_le(blb, 24);
            file_count = read_u32_le(blb, 56);
            file_offset = read_u64_le(blb, 72);
        }
    }
    assert((lang_count, lang_offset, file_count, file_offset) == bdb_layout(blb@));
    let lang_span = 16 * lang_count as u64;
    let file_span = 32 * file_count as u64;
    lang_offset <= n && lang_span <= n - lang_offset && file_offset <= n && file_span <= n - file_offset
}

/// Reads `bundle_db.blb`.
pub fn read_bundle_db(blb: &[u8]) -> (res: BundleDbFile)
    requires
        bdb_fits(blb@),
    ensures
        res.tag == le_u32(blb@, 0),
        ({
            let (lc, lo, fc, fo) = bdb_layout(blb@);
            &&& res.languages@.len() == lc
            &&& forall|i: int|
                0 <= i < lc ==> spec_language(blb@, lo + 16 * i) == (
                #[trigger] res.languages@[i].hash,
                res.languages@[i].id,
            )
            &&& res.files@.len() == fc
            &&& forall|i: int|
                0 <= i < fc ==> spec_file(blb@, fo + 32 * i) == (
                #[trigger] res.files@[i].extension,
                res.files@[i].path,
                res.files@[i].lang_id,
                res.files@[i].file_id,
            )
        }),
{
    let _len = blb.len();
    let tag = read_u32_le(blb, 0);
    let maybe_lang_count = read_u32_le(blb, 4);
    let lang_count: u32;
    let lang_offset: u64;
    let file_entries_count: u32;
    let file_entries_offset: u64;
    if maybe_lang_count != 0 {
        lang_count = maybe_lang_count;
        lang_offset = read_u32_le(blb, 12) as u64;
        file_entries_count = read_u32_le(blb, 28);
        file_entries_offset = read_u32_le(blb, 36) as u64;
    } else {
        lang_count = read_u32_le(blb, 8);
        let discriminator = read_u32_le(blb, 12);
        if discriminator != 0 {
            lang_offset = read_u64_le(blb, 16);
            file_entries_count = read_u32_le(blb, 48);
            file_entries_offset = read_u64_le(blb, 56);
        } else {
            lang_offset = read_u64_le(blb, 24);
            file_entries_count = read_u32_le(blb, 56);
            file_entries_offset = read_u64_le(blb, 72);
        }
    }
    assert((lang_count, lang_offset, file_entries_count, file_entries_offset) == bdb_layout(blb@));
    let languages = read_languages(blb, lang_offset as usize, lang_count as usize);
    let files = read_files(blb, file_entries_offset as usize, file_entries_count as usize);
    BundleDbFile { tag, languages, files }
}

/// Reads `count` language entries from `base` on, one every 16 bytes.
fn read_languages(data: &[u8], base: usize, count: usize) -> (r: Vec<LanguageEntry>)
    requires
        base + 16 * count <= data@.len(),
    ensures
        r@.len() == count,
        forall|i: int|
            0 <= i < count ==> spec_language(data@, base + 16 * i) == (
            #[trigger] r@[i].hash,
            r@[i].id,
        ),
{
    let mut dest: Vec<LanguageEntry> = Vec::with_capacity(count);
    let n = data.len();
    let mut i: usize = 0;
    while i < count
        invariant
            i <= count,
            n == data@.len(),
            base + 16 * count <= data@.len(),
            dest@.len() == i,
            forall|j: int|
                0 <= j < i ==> spec_language(data@, base + 16 * j) == (
                #[trigger] dest@[j].hash,
                dest@[j].id,
            ),
        decreases count - i,
    {
        let offset = base + i * 16;
        let slice = &data[offset..offset + 16];
        let hash = read_u64_le(slice, 0);
        let id = read_u32_le(slice, 8);
        proof {
            assert(slice@ =~= data@.subrange(offset as int, offset + 16));
            assert(le_u64(slice@, 0) == le_u64(data@, offset as int));
            assert(le_u32(slice@, 8) == le_u32(data@, offset + 8));
        }
        dest.push(LanguageEntry { hash, id });
        i += 1;
    }
    dest
}

/// Reads `count` file entries from `base` on, one every 32 bytes.
fn read_files(data: &[u8], base: usize, count: usize) -> (r: Vec<FileEntry>)
    requires
        base + 32 * count <= data@.len(),
    ensures
        r@.len() == count,
        forall|i: int|
            0 <= i < count ==> spec_file(data@, base + 32 * i) == (
            #[trigger] r@[i].extension,
            r@[i].path,
            r@[i].lang_id,
            r@[i].file_id,
        ),
{
    let mut dest: Vec<FileEntry> = Vec::with_capacity(count);
    let n = data.len();
    let mut i: usize = 0;
    while i < count
        invariant
            i <= count,
            n == data@.len(),
            base + 32 * count <= data@.len(),
            dest@.len() == i,
            forall|j: int|
                0 <= j < i ==> spec_file(data@, base + 32 * j) == (
                #[trigger] dest@[j].extension,
                dest@[j].path,
                dest@[j].lang_id,
                dest@[j].file_id,
            ),
        decreases count - i,
    {
        let offset = base + i * 32;
        let slice = &data[offset..offset + 32];
        let extension = read_u64_le(slice, 0);
        let path = read_u64_le(slice, 8);
        let lang_id = read_u32_le(slice, 16);
        let file_id = read_u32_le(slice, 24);
        proof {
            assert(slice@ =~= data@.subrange(offset as int, offset + 32));
            assert(le_u64(slice@, 0) == le_u64(data@, offset as int));
            assert(le_u64(slice@, 8) == le_u64(data@, offset + 8));
            assert(le_u32(slice@, 16) == le_u32(data@, offset + 16));
            assert(le_u32(slice@, 24) == le_u32(data@, offset + 24));
        }
        dest.push(FileEntry { extension, path, lang_id, file_id });
        i += 1;
    }
    dest
}

} // verus!
