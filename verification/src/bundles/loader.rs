//! The packages of an asset directory, as read from disk.
use vstd::prelude::*;
use std::path::PathBuf;
use std::time::SystemTime;
use vstd::string::StringExecFns;
use super::packageheader_reader::PackageHeaderFile;
use crate::diesel_hash;
use crate::text::{bytes_of, str_slice, lemma_after_ascii_cuttable, lemma_char_boundary_iff};
use crate::filesystem::raw_bundledb::last_index_of;

verus! {

/// A package: its data file, when it or its header last changed, its id, and
/// its header.
pub struct ParsedBundle {
    pub data_path: PathBuf,
    pub last_modified: SystemTime,
    pub package_id: u64,
    pub header: PackageHeaderFile,
}

/// The first position of byte `c` in `b` from `i` on.
pub open spec fn first_index_of(b: Seq<u8>, c: u8, i: int) -> Option<int>
    decreases b.len() - i,
{
    if i < 0 || i >= b.len() {
        None
    } else if b[i] == c {
        Some(i)
    } else {
        first_index_of(b, c, i + 1)
    }
}

/// A file name cut at its last dot into stem and extension, as `Path` does:
/// no extension when there is no dot, when the only dot starts the name, or
/// for `..`.
pub open spec fn stem_and_extension(name: Seq<u8>) -> (Seq<u8>, Option<Seq<u8>>) {
    if name == seq![46u8, 46u8] {
        (name, None)
    } else {
        match last_index_of(name, 46u8, name.len() as int) {
            None => (name, None),
            Some(i) => if i == 0 {
                (name, None)
            } else {
                (name.subrange(0, i), Some(name.subrange(i + 1, name.len() as int)))
            },
        }
    }
}

/// The bytes `bundle`.
pub open spec fn bundle_word() -> Seq<u8> {
    seq![98u8, 117, 110, 100, 108, 101]
}

/// The bytes `_h.bundle`.
pub open spec fn header_suffix() -> Seq<u8> {
    seq![95u8, 104, 46, 98, 117, 110, 100, 108, 101]
}

/// What the name of a package data file says: the name of its header file,
/// its index in a shared header (for `<name>_<index>.bundle`), and its
/// package id (the Idstring of the stem for a shared header, else the stem
/// read as hex with its bytes swapped). `None` for names that are not
/// `.bundle` files or are header files themselves.
pub open spec fn spec_bundle_file_info(name: Seq<u8>) -> Option<(Seq<u8>, Option<u64>, u64)> {
    let (stem, ext) = stem_and_extension(name);
    if ext != Some(bundle_word()) {
        None
    } else {
        match first_index_of(stem, 95u8, 0) {
            Some(u) => {
                let a = stem.subrange(0, u);
                let b = stem.subrange(u + 1, stem.len() as int);
                if b == seq![104u8] {
                    None
                } else {
                    Some((a + header_suffix(), Some(diesel_hash::spec_parse_radix(b, 10)->0), diesel_hash::spec_hash_level(stem, 0)))
                }
            },
            None => Some((stem + header_suffix(), None, diesel_hash::spec_swap_bytes(diesel_hash::spec_parse_radix(stem, 16)->0))),
        }
    }
}

/// The name can be read without a number failing to parse: the index of a
/// shared-header name is decimal, and a plain stem is hex, each fitting in 64
/// bits.
pub open spec fn bundle_name_parses(name: Seq<u8>) -> bool {
    let (stem, ext) = stem_and_extension(name);
    ext == Some(bundle_word()) ==> match first_index_of(stem, 95u8, 0) {
        Some(u) => {
            let b = stem.subrange(u + 1, stem.len() as int);
            b != seq![104u8] ==> diesel_hash::spec_parse_radix(b, 10) is Some
        },
        None => diesel_hash::spec_parse_radix(stem, 16) is Some,
    }
}

fn first_byte_index(b: &[u8], c: u8) -> (r: Option<usize>)
    ensures
        r is None ==> first_index_of(b@, c, 0) is None,
        r matches Some(i) ==> i < b@.len() && b@[i as int] == c && first_index_of(b@, c, 0) == Some(i as int),
{
    let n = b.len();
    let mut i: usize = 0;
    while i < n
        invariant
            n == b@.len(),
            i <= n,
            first_index_of(b@, c, i as int) == first_index_of(b@, c, 0),
        decreases n - i,
    {
        if b[i] == c {
            return Some(i);
        }
        i += 1;
    }
    None
}

fn last_dot(b: &[u8]) -> (r: Option<usize>)
    ensures
        r is None ==> last_index_of(b@, 46u8, b@.len() as int) is None,
        r matches Some(i) ==> i < b@.len() && b@[i as int] == 46u8 && last_index_of(b@, 46u8, b@.len() as int)
            == Some(i as int),
{
    let mut n = b.len();
    while n > 0
        invariant
            n <= b@.len(),
            last_index_of(b@, 46u8, n as int) == last_index_of(b@, 46u8, b@.len() as int),
        decreases n,
    {
        if b[n - 1] == 46u8 {
            return Some(n - 1);
        }
        n -= 1;
    }
    None
}

fn bytes_equal(a: &[u8], b: &[u8]) -> (r: bool)
    ensures
        r == (a@ == b@),
{
    if a.len() != b.len() {
        return false;
    }
    let n = a.len();
    let mut i: usize = 0;
    while i < n
        invariant
            n == a@.len(),
            n == b@.len(),
            i <= n,
            forall|k: int| 0 <= k < i ==> a@[k] == b@[k],
        decreases n - i,
    {
        if a[i] != b[i] {
            return false;
        }
        i += 1;
    }
    assert(a@ =~= b@);
    true
}

/// Whether the numbers in the name of a package data file can be read, so
/// that `file_info_for_name` may be asked about it.
pub fn bundle_name_readable(name: &str) -> (r: bool)
    ensures
        r == bundle_name_parses(bytes_of(name)),
{
    let nb = name.as_bytes();
    let n = nb.len();
    proof {
        vstd::utf8::encode_utf8_valid_utf8(name@);
        lemma_char_boundary_iff(nb@, 0);
    }
    let dotdot: &[u8] = &[46u8, 46u8];
    assert(dotdot@ =~= seq![46u8, 46u8]);
    let (stem, ext): (&str, Option<&str>) = if bytes_equal(nb, dotdot) {
        (name, None)
    } else {
        match last_dot(nb) {
            None => (name, None),
            Some(i) => if i == 0 {
                (name, None)
            } else {
                proof {
                    lemma_after_ascii_cuttable(nb@, i as int);
                }
                (str_slice(name, 0, i), Some(str_slice(name, i + 1, n)))
            },
        }
    };
    let bundle: &[u8] = &[98u8, 117, 110, 100, 108, 101];
    assert(bundle@ =~= bundle_word());
    match ext {
        None => {
            return true;
        },
        Some(e) => {
            if !bytes_equal(e.as_bytes(), bundle) {
                return true;
            }
        },
    }
    let sb = stem.as_bytes();
    let sn = sb.len();
    proof {
        vstd::utf8::encode_utf8_valid_utf8(stem@);
        lemma_char_boundary_iff(sb@, 0);
    }
    match first_byte_index(sb, 95u8) {
        Some(u) => {
            proof {
                lemma_after_ascii_cuttable(sb@, u as int);
            }
            let b = str_slice(stem, u + 1, sn);
            let h: &[u8] = &[104u8];
            assert(h@ =~= seq![104u8]);
            bytes_equal(b.as_bytes(), h) || diesel_hash::parse_radix(b.as_bytes(), 10).is_some()
        },
        None => diesel_hash::parse_radix(sb, 16).is_some(),
    }
}

/// What the file name of a package data file says: its header file's name,
/// its index in a shared header, and its package id.
pub fn file_info_for_name(name: &str) -> (r: Option<(String, Option<u64>, u64)>)
    requires
        bundle_name_parses(bytes_of(name)),
    ensures
        match spec_bundle_file_info(bytes_of(name)) {
            None => r is None,
            Some((h, idx, id)) => r matches Some((rh, ridx, rid)) && vstd::utf8::encode_utf8(rh@) == h && ridx == idx
                && rid == id,
        },
{
    let nb = name.as_bytes();
    let n = nb.len();
    proof {
        vstd::utf8::encode_utf8_valid_utf8(name@);
        lemma_char_boundary_iff(nb@, 0);
    }
    let dotdot: &[u8] = &[46u8, 46u8];
    assert(dotdot@ =~= seq![46u8, 46u8]);
    let (stem, ext): (&str, Option<&str>) = if bytes_equal(nb, dotdot) {
        (name, None)
    } else {
        match last_dot(nb) {
            None => (name, None),
            Some(i) => if i == 0 {
                (name, None)
            } else {
                proof {
                    lemma_after_ascii_cuttable(nb@, i as int);
                }
                (str_slice(name, 0, i), Some(str_slice(name, i + 1, n)))
            },
        }
    };
    let ghost (sstem, sext) = stem_and_extension(bytes_of(name));
    assert(bytes_of(stem) == sstem);
    assert(match ext { Some(e) => sext == Some(bytes_of(e)), None => sext is None });
    let bundle: &[u8] = &[98u8, 117, 110, 100, 108, 101];
    assert(bundle@ =~= bundle_word());
    match ext {
        None => {
            return None;
        },
        Some(e) => {
            if !bytes_equal(e.as_bytes(), bundle) {
                return None;
            }
        },
    }
    let suffix = "_h.bundle";
    proof {
        reveal_strlit("_h.bundle");
        assert(vstd::utf8::is_ascii_chars(suffix@));
        vstd::utf8::is_ascii_chars_encode_utf8(suffix@);
        assert(bytes_of(suffix) =~= header_suffix());
    }
    let sb = stem.as_bytes();
    let sn = sb.len();
    proof {
        vstd::utf8::encode_utf8_valid_utf8(stem@);
        lemma_char_boundary_iff(sb@, 0);
    }
    match first_byte_index(sb, 95u8) {
        Some(u) => {
            proof {
                lemma_after_ascii_cuttable(sb@, u as int);
            }
            let a = str_slice(stem, 0, u);
            let b = str_slice(stem, u + 1, sn);
            let h: &[u8] = &[104u8];
            assert(h@ =~= seq![104u8]);
            if bytes_equal(b.as_bytes(), h) {
                return None;
            }
            let idx = diesel_hash::parse_radix(b.as_bytes(), 10).unwrap();
            let mut header = String::from_str(a);
            header.append(suffix);
            proof {
                crate::text::lemma_encode_utf8_append(a@, suffix@);
            }
            Some((header, Some(idx), diesel_hash::hash_level(sb, 0)))
        },
        None => {
            let v = diesel_hash::parse_radix(sb, 16).unwrap();
            let mut header = String::from_str(stem);
            header.append(suffix);
            proof {
                crate::text::lemma_encode_utf8_append(stem@, suffix@);
            }
            Some((header, None, diesel_hash::swap_bytes(v)))
        },
    }
}

} // verus!
