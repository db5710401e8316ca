//! Package headers: which files a package holds, and where in it.
use vstd::prelude::*;
use std::collections::HashMap;
use crate::read_helpers::{le_u32, le_u64, read_u32_le, read_u64_le};
use super::ReadError;

verus! {

/// The entries of one package.
pub struct PackageHeaderFile {
    pub entries: Vec<PackageHeaderEntry>,
}

/// A file in a package: its id, and its offset and length in the package.
#[derive(Debug, Copy, Clone)]
pub struct PackageHeaderEntry {
    pub file_id: u32,
    pub offset: u32,
    pub length: u32,
}

/// A header file that describes several packages, by package index.
pub struct MultiBundleHeader {
    pub bundles: HashMap<u64, PackageHeaderFile>,
}

/// An entry as a tuple `(file_id, offset, length)`.
pub open spec fn entry_tuple(e: PackageHeaderEntry) -> (u32, u32, u32) {
    (e.file_id, e.offset, e.length)
}

/// A zero word at 8 and a non-zero one at 12 mark the 64-bit layout.
pub open spec fn normal_is_x64(b: Seq<u8>) -> bool {
    le_u32(b, 8) == 0 && le_u32(b, 12) != 0
}

/// The five header words after the reference offset.
pub open spec fn normal_words(b: Seq<u8>) -> (u64, u64, u64, u64, u64) {
    if normal_is_x64(b) {
        (le_u64(b, 4), le_u64(b, 12), le_u64(b, 20), le_u32(b, 28) as u64, le_u32(b, 32) as u64)
    } else {
        (
            le_u32(b, 4) as u64,
            le_u32(b, 8) as u64,
            le_u32(b, 12) as u64,
            le_u32(b, 16) as u64,
            le_u32(b, 20) as u64,
        )
    }
}

/// `(count, offset, has_length)`: the entry count appears twice in a row,
/// and the offset follows it. With the count in the first two words the
/// entries have no length.
pub open spec fn normal_layout(b: Seq<u8>) -> Option<(u64, u64, bool)> {
    let w = normal_words(b);
    if w.0 == w.1 {
        Some((w.0, w.2, false))
    } else if w.1 == w.2 {
        Some((w.1, w.3, true))
    } else if w.2 == w.3 {
        Some((w.2, w.4, true))
    } else {
        None
    }
}

/// Where the entries start: an offset of zero means the reference offset in
/// the first word, any other is four bytes short.
pub open spec fn normal_start(b: Seq<u8>, offset: u64) -> int {
    if offset == 0 {
        le_u32(b, 0) as int
    } else {
        offset + 4
    }
}

/// The offset field of the `i`th short entry.
pub open spec fn short_offset(b: Seq<u8>, start: int, i: int) -> u32 {
    le_u32(b, start + 8 * i + 4)
}

/// The header and, if it is recognised, all its entries lie within `b`; the
/// short entries' offsets do not decrease and the last is within the
/// package of length `dlen`.
pub open spec fn normal_fits(b: Seq<u8>, dlen: u64) -> bool {
    &&& b.len() >= 16
    &&& b.len() >= (if normal_is_x64(b) {
        36int
    } else {
        24int
    })
    &&& match normal_layout(b) {
        None => true,
        Some((n, off, has_len)) => {
            let s = normal_start(b, off);
            &&& s <= usize::MAX
            &&& has_len ==> (n == 0 || s + 12 * n <= b.len())
            &&& !has_len ==> {
                &&& n == 0 || s + 8 * n <= b.len()
                &&& forall|i: int|
                    0 <= i < n - 1 ==> #[trigger] short_offset(b, s, i) <= short_offset(b, s, i + 1)
                &&& n > 0 ==> dlen <= u32::MAX && short_offset(b, s, n - 1) <= dlen
            }
        },
    }
}

/// The `i`th entry of a recognised header.
pub open spec fn normal_entry(b: Seq<u8>, dlen: u64, i: int) -> (u32, u32, u32) {
    let (n, off, has_len) = normal_layout(b)->0;
    let s = normal_start(b, off);
    if has_len {
        (le_u32(b, s + 12 * i), le_u32(b, s + 12 * i + 4), le_u32(b, s + 12 * i + 8))
    } else {
        let length = if i + 1 < n {
            short_offset(b, s, i + 1) - short_offset(b, s, i)
        } else {
            dlen - short_offset(b, s, i)
        };
        (le_u32(b, s + 8 * i), short_offset(b, s, i), length as u32)
    }
}

/// Reads the header of a package whose data file is `datafile_length`
/// bytes long.
pub fn read_normal(data: &[u8], datafile_length: u64) -> (res: Result<PackageHeaderFile, ReadError>)
    requires
        normal_fits(data@, datafile_length),
    ensures
        normal_layout(data@) is None <==> res matches Err(ReadError::UnknownFormatOrMalformed),
        res is Err ==> normal_layout(data@) is None,
        res matches Ok(h) ==> {
            &&& h.entries@.len() == (normal_layout(data@)->0).0
            &&& forall|i: int|
                0 <= i < h.entries@.len() ==> entry_tuple(#[trigger] h.entries@[i]) == normal_entry(
                    data@,
                    datafile_length,
                    i,
                )
        },
{
    let _len = data.len();
    let mut res = PackageHeaderFile { entries: Vec::new() };
    let is_x64 = read_u32_le(data, 8) == 0 && read_u32_le(data, 12) != 0;
    let ref_offset = read_u32_le(data, 0);
    let words = if is_x64 {
        (
            read_u64_le(data, 4),
            read_u64_le(data, 12),
            read_u64_le(data, 20),
            read_u32_le(data, 28) as u64,
            read_u32_le(data, 32) as u64,
        )
    } else {
        (
            read_u32_le(data, 4) as u64,
            read_u32_le(data, 8) as u64,
            read_u32_le(data, 12) as u64,
            read_u32_le(data, 16) as u64,
            read_u32_le(data, 20) as u64,
        )
    };
    assert(words == normal_words(data@));
    let item_count: u64;
    let offset: u64;
    let has_length: bool;
    if words.0 == words.1 {
        item_count = words.0;
        offset = words.2;
        has_length = false;
    } else if words.1 == words.2 {
        item_count = words.1;
        offset = words.3;
        has_length = true;
    } else if words.2 == words.3 {
        item_count = words.2;
        offset = words.4;
        has_length = true;
    } else {
        return Err(ReadError::UnknownFormatOrMalformed);
    }
    assert(normal_layout(data@) == Some((item_count, offset, has_length)));
    let actual_offset: usize = if offset == 0 {
        ref_offset as usize
    } else {
        offset as usize + 4
    };
    let ghost s = normal_start(data@, offset);
    assert(actual_offset == s);
    if has_length {
        let mut i: u64 = 0;
        while i < item_count
            invariant
                i <= item_count,
                _len == data@.len(),
                normal_layout(data@) == Some((item_count, offset, true)),
                actual_offset == normal_start(data@, offset),
                normal_fits(data@, datafile_length),
                res.entries@.len() == i,
                forall|j: int|
                    0 <= j < i ==> entry_tuple(#[trigger] res.entries@[j]) == normal_entry(
                        data@,
                        datafile_length,
                        j,
                    ),
            decreases item_count - i,
        {
            let offs: usize = actual_offset + (i as usize) * 12;
            res.entries.push(
                PackageHeaderEntry {
                    file_id: read_u32_le(data, offs + 0),
                    offset: read_u32_le(data, offs + 4),
                    length: read_u32_le(data, offs + 8),
                },
            );
            i += 1;
        }
    } else {
        let mut i: u64 = 0;
        while i < item_count
            invariant
                i <= item_count,
                _len == data@.len(),
                normal_layout(data@) == Some((item_count, offset, false)),
                actual_offset == normal_start(data@, offset),
                normal_fits(data@, datafile_length),
                res.entries@.len() == i,
                forall|j: int|
                    0 <= j < i - 1 ==> entry_tuple(#[trigger] res.entries@[j]) == normal_entry(
                        data@,
                        datafile_length,
                        j,
                    ),
                i > 0 ==> res.entries@[i - 1].file_id == le_u32(
                    data@,
                    actual_offset + 8 * (i - 1),
                ) && res.entries@[i - 1].offset == short_offset(data@, actual_offset as int, i - 1),
            decreases item_count - i,
        {
            let offs: usize = actual_offset + (i as usize) * 8;
            let curr = PackageHeaderEntry {
                file_id: read_u32_le(data, offs + 0),
                offset: read_u32_le(data, offs + 4),
                length: 0,
            };
            let k = res.entries.len();
            if k > 0 {
                let mut prev = res.entries[k - 1];
                assert(short_offset(data@, actual_offset as int, (i - 1) as int) <= short_offset(
                    data@,
                    actual_offset as int,
                    i as int,
                ));
                prev.length = curr.offset - prev.offset;
                res.entries.set(k - 1, prev);
            }
            res.entries.push(curr);
            i += 1;
        }
        let k = res.entries.len();
        if k > 0 {
            let mut prev = res.entries[k - 1];
            prev.length = (datafile_length as u32) - prev.offset;
            res.entries.set(k - 1, prev);
        }
    }
    Ok(res)
}

/// The start of the `i`th package record of a multi-package header.
pub open spec fn multi_record(i: int) -> int {
    20 + 28 * i
}

/// The package index of the `i`th record.
pub open spec fn multi_index(b: Seq<u8>, i: int) -> u64 {
    le_u64(b, multi_record(i))
}

/// The entry count of the `i`th record (the record states it twice).
pub open spec fn multi_count(b: Seq<u8>, i: int) -> u32 {
    le_u32(b, multi_record(i) + 8)
}

/// The offset of the `i`th record's entries.
pub open spec fn multi_offset(b: Seq<u8>, i: int) -> u64 {
    le_u64(b, multi_record(i) + 16)
}

/// A record is valid when its two counts agree and its last word is 1.
pub open spec fn multi_valid(b: Seq<u8>, i: int) -> bool {
    le_u32(b, multi_record(i) + 24) == 1 && le_u32(b, multi_record(i) + 8) == le_u32(
        b,
        multi_record(i) + 12,
    )
}

/// The `ie`th entry of the `i`th record, four bytes past twelve per entry.
pub open spec fn multi_entry(b: Seq<u8>, i: int, ie: int) -> (u32, u32, u32) {
    let at = multi_offset(b, i) + 12 * ie + 4;
    (le_u32(b, at), le_u32(b, at + 4), le_u32(b, at + 8))
}

/// Every record that is reached (all before it valid) lies within `b`, its
/// offset fits a `usize`, and if it is valid so do its entries.
pub open spec fn multi_fits(b: Seq<u8>) -> bool {
    &&& b.len() >= 8
    &&& forall|i: int|
        0 <= i < le_u32(b, 4) && (forall|j: int| 0 <= j < i ==> multi_valid(b, j))
            ==> #[trigger] multi_record(i) + 28 <= b.len() && multi_offset(b, i) <= usize::MAX && (
        multi_valid(b, i) ==> (multi_count(b, i) == 0 || multi_offset(b, i) + 12 * multi_count(
            b,
            i,
        ) + 4 <= b.len()))
}

/// The packages of the first `n` records, later records with the same
/// index replacing earlier ones.
pub open spec fn multi_map(b: Seq<u8>, n: nat) -> Map<u64, Seq<(u32, u32, u32)>>
    decreases n,
{
    if n == 0 {
        Map::empty()
    } else {
        let i = n - 1;
        multi_map(b, (n - 1) as nat).insert(
            multi_index(b, i),
            Seq::new(multi_count(b, i) as nat, |ie: int| multi_entry(b, i, ie)),
        )
    }
}

/// Reads a header file that describes several packages.
pub fn read_multi(data: &[u8]) -> (res: Result<MultiBundleHeader, ReadError>)
    requires
        multi_fits(data@),
    ensures
        res is Ok <==> forall|i: int| 0 <= i < le_u32(data@, 4) ==> #[trigger] multi_valid(data@, i),
        res is Err ==> res matches Err(ReadError::BadMultiBundleHeader),
        res matches Ok(h) ==> forall|k: u64|
            #![trigger h.bundles@.contains_key(k)]
            (h.bundles@.contains_key(k) <==> multi_map(data@, le_u32(data@, 4) as nat).contains_key(k))
                && (h.bundles@.contains_key(k) ==> h.bundles@[k].entries@.map_values(
                |e: PackageHeaderEntry| entry_tuple(e),
            ) == multi_map(data@, le_u32(data@, 4) as nat)[k]),
{
    let n = data.len();
    let mut res = MultiBundleHeader { bundles: HashMap::new() };
    let bundle_count = read_u32_le(data, 4);
    let bundle_base: usize = 20;
    let mut i: u32 = 0;
    while i < bundle_count
        invariant
            n == data@.len(),
            bundle_count == le_u32(data@, 4),
            multi_fits(data@),
            i <= bundle_count,
            bundle_base == 20,
            forall|j: int| 0 <= j < i ==> #[trigger] multi_valid(data@, j),
            forall|k: u64|
                #![trigger res.bundles@.contains_key(k)]
                (res.bundles@.contains_key(k) <==> multi_map(data@, i as nat).contains_key(k)) && (
                res.bundles@.contains_key(k) ==> res.bundles@[k].entries@.map_values(
                    |e: PackageHeaderEntry| entry_tuple(e),
                ) == multi_map(data@, i as nat)[k]),
        decreases bundle_count - i,
    {
        assert(multi_record(i as int) + 28 <= data@.len());
        let header_offs = bundle_base + 28 * (i as usize);
        let bundle_index = read_u64_le(data, header_offs + 0);
        let entry_count_1 = read_u32_le(data, header_offs + 8) as usize;
        let entry_count_2 = read_u32_le(data, header_offs + 12) as usize;
        let offset = read_u64_le(data, header_offs + 16) as usize;
        let always_one = read_u32_le(data, header_offs + 24);
        if always_one != 1 || entry_count_1 != entry_count_2 {
            assert(!multi_valid(data@, i as int));
            return Err(ReadError::BadMultiBundleHeader);
        }
        let mut entries: Vec<PackageHeaderEntry> = Vec::new();
        let mut ie: usize = 0;
        while ie < entry_count_1
            invariant
                n == data@.len(),
                ie <= entry_count_1,
                entry_count_1 == multi_count(data@, i as int),
                offset == multi_offset(data@, i as int),
                entry_count_1 == 0 || offset + 12 * entry_count_1 + 4 <= data@.len(),
                entries@.len() == ie,
                forall|j: int|
                    0 <= j < ie ==> entry_tuple(#[trigger] entries@[j]) == multi_entry(
                        data@,
                        i as int,
                        j,
                    ),
            decreases entry_count_1 - ie,
        {
            let pe_offset = offset + (12 * ie) + 4;
            let pe = PackageHeaderEntry {
                file_id: read_u32_le(data, pe_offset + 0),
                offset: read_u32_le(data, pe_offset + 4),
                length: read_u32_le(data, pe_offset + 8),
            };
            entries.push(pe);
            ie += 1;
        }
        let ghost es = entries@;
        res.bundles.insert(bundle_index, PackageHeaderFile { entries });
        proof {
            let m = multi_map(data@, (i + 1) as nat);
            assert(es.map_values(|e: PackageHeaderEntry| entry_tuple(e)) =~= Seq::new(
                multi_count(data@, i as int) as nat,
                |ie: int| multi_entry(data@, i as int, ie),
            ));
            assert forall|k: u64| #![trigger res.bundles@.contains_key(k)]
                (res.bundles@.contains_key(k) <==> m.contains_key(k)) && (res.bundles@.contains_key(k)
                    ==> res.bundles@[k].entries@.map_values(|e: PackageHeaderEntry| entry_tuple(e))
                    == m[k]) by {
            }
        }
        i += 1;
    }
    Ok(res)
}

/// Whether `read_normal` can read `data` for a package of `dlen` bytes
/// (`normal_fits`).
pub fn normal_header_fits(data: &[u8], dlen: u64) -> (r: bool)
    ensures
        r == normal_fits(data@, dlen),
{
    let len = data.len();
    if len < 16 {
        return false;
    }
    let x64 = read_u32_le(data, 8) == 0 && read_u32_le(data, 12) != 0;
    assert(x64 == normal_is_x64(data@));
    if len < (if x64 { 36 } else { 24 }) {
        return false;
    }
    let w: (u64, u64, u64, u64, u64) = if x64 {
        (read_u64_le(data, 4), read_u64_le(data, 12), read_u64_le(data, 20), read_u32_le(data, 28) as u64, read_u32_le(data, 32) as u64)
    } else {
        (read_u32_le(data, 4) as u64, read_u32_le(data, 8) as u64, read_u32_le(data, 12) as u64, read_u32_le(data, 16) as u64, read_u32_le(data, 20) as u64)
    };
    assert(w == normal_words(data@));
    let (n, off, has_len): (u64, u64, bool) = if w.0 == w.1 {
        (w.0, w.2, false)
    } else if w.1 == w.2 {
        (w.1, w.3, true)
    } else if w.2 == w.3 {
        (w.2, w.4, true)
    } else {
        return true;
    };
    assert(normal_layout(data@) == Some((n, off, has_len)));
    let s: u128 = if off == 0 {
        read_u32_le(data, 0) as u128
    } else {
        off as u128 + 4
    };
    assert(s == normal_start(data@, off));
    if s > usize::MAX as u128 {
        return false;
    }
    if has_len {
        return n == 0 || s + 12 * (n as u128) <= len as u128;
    }
    if !(n == 0 || s + 8 * (n as u128) <= len as u128) {
        return false;
    }
    if n == 0 {
        return true;
    }
    let mut i: u64 = 0;
    while i + 1 < n
        invariant
            n > 0,
            normal_layout(data@) == Some((n, off, false)),
            s == normal_start(data@, off),
            s <= usize::MAX,
            data@.len() <= usize::MAX,
            s + 8 * n <= data@.len(),
            i + 1 <= n,
            forall|j: int| 0 <= j < i ==> #[trigger] short_offset(data@, s as int, j) <= short_offset(data@, s as int, j + 1),
        decreases n - i,
    {
        assert(i < n);
        assert(8 * (i as int) + 12 <= 8 * (n as int)) by (nonlinear_arith)
            requires
                i + 1 < n,
        ;
        let i8: u128 = 8 * (i as u128);
        let at: u128 = s + i8;
        let a = read_u32_le(data, (at + 4) as usize);
        let b = read_u32_le(data, (at + 12) as usize);
        assert(a == short_offset(data@, s as int, i as int));
        assert(b == short_offset(data@, s as int, i + 1));
        if a > b {
            assert(!(short_offset(data@, s as int, i as int) <= short_offset(data@, s as int, i + 1)));
            return false;
        }
        i += 1;
    }
    let last = read_u32_le(data, (s + 8 * ((n - 1) as u128) + 4) as usize);
    assert(last == short_offset(data@, s as int, n - 1));
    dlen <= u32::MAX as u64 && last as u64 <= dlen
}

/// Whether `read_multi` can read `data` (`multi_fits`).
pub fn multi_header_fits(data: &[u8]) -> (r: bool)
    ensures
        r == multi_fits(data@),
{
    let len = data.len();
    if len < 8 {
        return false;
    }
    let count = read_u32_le(data, 4);
    let mut i: u32 = 0;
    while i < count
        invariant
            len == data@.len(),
            len >= 8,
            count == le_u32(data@, 4),
            i <= count,
            forall|j: int| 0 <= j < i ==> #[trigger] multi_valid(data@, j),
            forall|j: int|
                0 <= j < i ==> #[trigger] multi_record(j) + 28 <= data@.len() && multi_offset(data@, j) <= usize::MAX
                    && (multi_count(data@, j) == 0 || multi_offset(data@, j) + 12 * multi_count(data@, j) + 4
                    <= data@.len()),
        decreases count - i,
    {
        let rec: u128 = 20 + 28 * (i as u128);
        assert(rec == multi_record(i as int));
        if rec + 28 > len as u128 {
            return false;
        }
        let c1 = read_u32_le(data, (rec + 8) as usize);
        let c2 = read_u32_le(data, (rec + 12) as usize);
        let off = read_u64_le(data, (rec + 16) as usize);
        let last = read_u32_le(data, (rec + 24) as usize);
        assert(c1 == multi_count(data@, i as int));
        assert(off == multi_offset(data@, i as int));
        if off as u128 > usize::MAX as u128 {
            return false;
        }
        let valid = last == 1 && c1 == c2;
        assert(valid == multi_valid(data@, i as int));
        if valid && !(c1 == 0 || off as u128 + 12 * (c1 as u128) + 4 <= len as u128) {
            return false;
        }
        if !valid {
            proof {
                assert forall|k: int|
                    0 <= k < le_u32(data@, 4) && (forall|j: int| 0 <= j < k ==> multi_valid(data@, j)) implies #[trigger] multi_record(
                    k,
                ) + 28 <= data@.len() && multi_offset(data@, k) <= usize::MAX && (multi_valid(data@, k) ==> (multi_count(
                    data@,
                    k,
                ) == 0 || multi_offset(data@, k) + 12 * multi_count(data@, k) + 4 <= data@.len())) by {
                    if k > i {
                        assert(!multi_valid(data@, i as int));
                    }
                }
            }
            return true;
        }
        i += 1;
    }
    true
}

} // verus!
