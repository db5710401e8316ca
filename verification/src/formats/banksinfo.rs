//! `banksinfo`: the sound banks, and which sound each sound Idstring plays.
use vstd::prelude::*;
use std::collections::HashMap;
use crate::read_helpers::{le_u32, le_u64, read_u32_le, read_u64_le};
use crate::text::utf8_str;
use crate::formats::player_save::first_zero;
use crate::formats::fdm::meshoid::dec_text;
use crate::formats::scriptdata::generic_xml::{append, dec_string};
use crate::hashindex::hex_digit;
use crate::text::push_char;
use vstd::string::StrSliceExecFns;

verus! {

/// The sound banks by name, and for each sound id the Idstring that names
/// it and the string stored with that Idstring; `lookup_order` holds the ids
/// of `sound_lookups` in the order their entries come in the file.
#[derive(Debug)]
pub struct BanksInfo {
    pub sound_banks: Vec<String>,
    pub sound_lookups: HashMap<u64, (crate::hashindex::Hash, String)>,
    pub lookup_order: Vec<u64>,
}

/// A read past the end: the offset it started at.
#[derive(Debug, PartialEq, Eq, Clone, Copy, Structural)]
pub struct TryFromBytesError {
    pub offset: u64,
}

/// Why `banksinfo` could not be read.
#[derive(Debug)]
pub enum BankParseFailure {
    SliceError(TryFromBytesError),
    BadString(std::str::Utf8Error),
}

/// A `u32` lies at `off`.
pub open spec fn fits32(src: Seq<u8>, off: int) -> bool {
    0 <= off && off + 4 <= src.len()
}

/// A `u64` lies at `off`.
pub open spec fn fits64(src: Seq<u8>, off: int) -> bool {
    0 <= off && off + 8 <= src.len()
}

/// The header words that are read, in order, by offset.
pub open spec fn header_offsets() -> Seq<int> {
    seq![0int, 8, 12, 16, 20, 28, 32, 36, 40, 44, 52]
}

/// What reading one item gave: its bytes, a read past the end at an offset,
/// bytes that are not UTF-8, or a string that runs off the end.
pub enum Step {
    Fine(Seq<u8>),
    OutOfRange(int),
    NotUtf8,
    Unterminated,
}

/// The zero-terminated UTF-8 string at `start`.
pub open spec fn string_step(src: Seq<u8>, start: int) -> Step {
    match first_zero(src, start) {
        None => Step::Unterminated,
        Some(e) => if vstd::utf8::valid_utf8(src.subrange(start, e)) {
            Step::Fine(src.subrange(start, e))
        } else {
            Step::NotUtf8
        },
    }
}

/// Bank `i` of the table at `base`: a word of zeroes, then the offset of its
/// name.
pub open spec fn bank_step(src: Seq<u8>, base: int, i: int) -> Step {
    let at = base + 8 * i + 4;
    if !fits32(src, at) {
        Step::OutOfRange(at)
    } else {
        string_step(src, le_u32(src, at) as int)
    }
}

/// Sound `i` of the table at `base`: its id then its Idstring.
pub open spec fn sound_step(src: Seq<u8>, base: int, i: int) -> Step {
    let at = base + 16 * i;
    if !fits64(src, at) {
        Step::OutOfRange(at)
    } else if !fits64(src, at + 8) {
        Step::OutOfRange(at + 8)
    } else {
        Step::Fine(Seq::empty())
    }
}

/// String entry `i` of the table at `base`: its Idstring, a zero word, and
/// the offset of its string.
pub open spec fn lookup_step(src: Seq<u8>, base: int, i: int) -> Step {
    let at = base + 16 * i;
    if !fits64(src, at) {
        Step::OutOfRange(at)
    } else if !fits32(src, at + 8) {
        Step::OutOfRange(at + 8)
    } else if !fits32(src, at + 12) {
        Step::OutOfRange(at + 12)
    } else {
        string_step(src, le_u32(src, at + 12) as int)
    }
}

/// The first of the first `n` banks, sounds or string entries (by `kind`
/// 0, 1, 2) that is not `Fine`.
pub open spec fn first_bad(src: Seq<u8>, kind: int, base: int, n: int) -> Option<int>
    decreases n,
{
    if n <= 0 {
        None
    } else {
        match first_bad(src, kind, base, n - 1) {
            Some(i) => Some(i),
            None => if step_of(src, kind, base, n - 1) is Fine {
                None
            } else {
                Some(n - 1)
            },
        }
    }
}

/// The step of item `i` of table kind `kind`.
pub open spec fn step_of(src: Seq<u8>, kind: int, base: int, i: int) -> Step {
    if kind == 0 {
        bank_step(src, base, i)
    } else if kind == 1 {
        sound_step(src, base, i)
    } else {
        lookup_step(src, base, i)
    }
}

/// Where the three tables are and how long they are:
/// `(bank count, bank offset, sound count, sound offset, entry count, entry offset)`.
pub open spec fn tables(src: Seq<u8>) -> (int, int, int, int, int, int) {
    (
        le_u32(src, 0) as int,
        le_u32(src, 8) as int,
        le_u32(src, 20) as int,
        le_u32(src, 28) as int,
        le_u32(src, 44) as int,
        le_u32(src, 52) as int,
    )
}

/// The first item that is not `Fine`, over the banks, then the sounds, then
/// the string entries: `(kind, index)`.
pub open spec fn first_failure(src: Seq<u8>) -> Option<(int, int)> {
    let (bc, bo, sc, so, uc, uo) = tables(src);
    match first_bad(src, 0, bo, bc) {
        Some(i) => Some((0, i)),
        None => match first_bad(src, 1, so, sc) {
            Some(i) => Some((1, i)),
            None => match first_bad(src, 2, uo, uc) {
                Some(i) => Some((2, i)),
                None => None,
            },
        },
    }
}

/// The bytes of a `Fine` step.
pub open spec fn fine_bytes(s: Step) -> Seq<u8> {
    match s {
        Step::Fine(b) => b,
        _ => Seq::empty(),
    }
}

/// The sound ids of the first `n` sounds by Idstring; the first sound with an
/// Idstring keeps it.
pub open spec fn sound_ids(src: Seq<u8>, base: int, n: int) -> Map<u64, u64>
    decreases n,
{
    if n <= 0 {
        Map::empty()
    } else {
        let m = sound_ids(src, base, n - 1);
        let at = base + 16 * (n - 1);
        let hash = le_u64(src, at + 8);
        if m.contains_key(hash) {
            m
        } else {
            m.insert(hash, le_u64(src, at))
        }
    }
}

/// The lookups from the first `n` string entries: an entry whose Idstring is
/// a sound's gives that sound id its Idstring and string, unless an earlier
/// entry already did.
pub open spec fn lookups(src: Seq<u8>, ids: Map<u64, u64>, base: int, n: int) -> Map<u64, (u64, Seq<u8>)>
    decreases n,
{
    if n <= 0 {
        Map::empty()
    } else {
        let m = lookups(src, ids, base, n - 1);
        let at = base + 16 * (n - 1);
        let hash = le_u64(src, at);
        if ids.contains_key(hash) && !m.contains_key(ids[hash]) {
            m.insert(ids[hash], (hash, fine_bytes(lookup_step(src, base, n - 1))))
        } else {
            m
        }
    }
}

/// The sound ids that the first `n` string entries give a lookup, in the
/// order of the entries.
pub open spec fn lookup_ids(src: Seq<u8>, ids: Map<u64, u64>, base: int, n: int) -> Seq<u64>
    decreases n,
{
    if n <= 0 {
        Seq::empty()
    } else {
        let s = lookup_ids(src, ids, base, n - 1);
        let hash = le_u64(src, base + 16 * (n - 1));
        if ids.contains_key(hash) && !lookups(src, ids, base, n - 1).contains_key(ids[hash]) {
            s.push(ids[hash])
        } else {
            s
        }
    }
}

/// The offset of the table of kind `kind`.
pub open spec fn table_base(src: Seq<u8>, kind: int) -> int {
    let (bc, bo, sc, so, uc, uo) = tables(src);
    if kind == 0 {
        bo
    } else if kind == 1 {
        so
    } else {
        uo
    }
}

/// The step of the first item that is not `Fine`, if any.
pub open spec fn failure_step(src: Seq<u8>) -> Option<Step> {
    match first_failure(src) {
        Some((kind, i)) => Some(step_of(src, kind, table_base(src, kind), i)),
        None => None,
    }
}

/// The offset of the first header word that does not fit in `n` bytes.
pub open spec fn header_failure(n: int) -> u64 {
    if n < 4 {
        0
    } else if n < 12 {
        8
    } else if n < 16 {
        12
    } else if n < 20 {
        16
    } else if n < 24 {
        20
    } else if n < 32 {
        28
    } else if n < 36 {
        32
    } else if n < 40 {
        36
    } else if n < 44 {
        40
    } else if n < 48 {
        44
    } else {
        52
    }
}

/// No string read before the first failure runs off the end of `src`.
pub open spec fn banksinfo_readable(src: Seq<u8>) -> bool {
    src.len() >= 56 ==> !(failure_step(src) matches Some(Step::Unterminated))
}

/// The lookups as Idstrings and string bytes.
pub open spec fn lookup_view(m: Map<u64, (crate::hashindex::Hash, String)>) -> Map<u64, (u64, Seq<u8>)> {
    Map::new(|k: u64| m.contains_key(k), |k: u64| (m[k].0.0, vstd::utf8::encode_utf8(m[k].1@)))
}

fn read32(src: &[u8], off: u64) -> (r: Result<u32, TryFromBytesError>)
    ensures
        match r {
            Ok(v) => fits32(src@, off as int) && v == le_u32(src@, off as int),
            Err(e) => !fits32(src@, off as int) && e.offset == off,
        },
{
    let n = src.len() as u64;
    if off > n || n - off < 4 {
        return Err(TryFromBytesError { offset: off });
    }
    Ok(read_u32_le(src, off as usize))
}

fn read64(src: &[u8], off: u64) -> (r: Result<u64, TryFromBytesError>)
    ensures
        match r {
            Ok(v) => fits64(src@, off as int) && v == le_u64(src@, off as int),
            Err(e) => !fits64(src@, off as int) && e.offset == off,
        },
{
    let n = src.len() as u64;
    if off > n || n - off < 8 {
        return Err(TryFromBytesError { offset: off });
    }
    Ok(read_u64_le(src, off as usize))
}

fn find_zero(src: &[u8], start: u64) -> (r: Option<usize>)
    ensures
        r is None ==> first_zero(src@, start as int) is None,
        r matches Some(e) ==> first_zero(src@, start as int) == Some(e as int) && start <= e < src@.len(),
{
    let n = src.len();
    if start >= n as u64 {
        return None;
    }
    let mut e = start as usize;
    while e < n
        invariant
            n == src@.len(),
            start <= e <= n,
            first_zero(src@, e as int) == first_zero(src@, start as int),
        decreases n - e,
    {
        if src[e] == 0 {
            return Some(e);
        }
        e += 1;
    }
    None
}

fn read_string_at(src: &[u8], start: u64) -> (r: Result<String, std::str::Utf8Error>)
    requires
        !(string_step(src@, start as int) is Unterminated),
    ensures
        string_step(src@, start as int) is NotUtf8 <==> r is Err,
        r matches Ok(s) ==> string_step(src@, start as int) == Step::Fine(vstd::utf8::encode_utf8(s@)),
{
    let end = match find_zero(src, start) {
        None => {
            assert(false);
            0
        },
        Some(e) => e,
    };
    let slice = vstd::slice::slice_subrange(src, start as usize, end);
    match utf8_str(slice) {
        Err(e) => Err(e),
        Ok(t) => Ok(t.to_owned()),
    }
}

/// Reads `banksinfo`: a header of three tables (banks, sounds, string
/// entries), each a count, a copy of it, an offset and unused words; then the
/// tables themselves.
pub fn try_from_bytes(src: &[u8]) -> (r: Result<BanksInfo, BankParseFailure>)
    requires
        banksinfo_readable(src@),
    ensures
        src@.len() < 56 ==> (r matches Err(BankParseFailure::SliceError(e)) && e.offset == header_failure(
            src@.len() as int,
        )),
        src@.len() >= 56 ==> match failure_step(src@) {
            Some(Step::OutOfRange(o)) => r matches Err(BankParseFailure::SliceError(e)) && e.offset == o,
            Some(Step::NotUtf8) => r matches Err(BankParseFailure::BadString(_)),
            Some(_) => false,
            None => r matches Ok(info) && {
                let (bc, bo, sc, so, uc, uo) = tables(src@);
                &&& info.sound_banks@.len() == bc
                &&& forall|i: int|
                    0 <= i < bc ==> Step::Fine(vstd::utf8::encode_utf8((#[trigger] info.sound_banks@[i])@))
                        == bank_step(src@, bo, i)
                &&& lookup_view(info.sound_lookups@) == lookups(src@, sound_ids(src@, so, sc), uo, uc)
                &&& info.lookup_order@ == lookup_ids(src@, sound_ids(src@, so, sc), uo, uc)
                &&& forall|i: int|
                    0 <= i < info.lookup_order@.len() ==> info.sound_lookups@.contains_key(
                        #[trigger] info.lookup_order@[i],
                    )
            },
        },
{
    let ghost b = src@;
    let bnk_count = match read32(src, 0) { Err(e) => { return Err(BankParseFailure::SliceError(e)); }, Ok(v) => v };
    let bnk_offset = match read32(src, 8) { Err(e) => { return Err(BankParseFailure::SliceError(e)); }, Ok(v) => v };
    match read32(src, 12) { Err(e) => { return Err(BankParseFailure::SliceError(e)); }, Ok(_) => {} };
    match read32(src, 16) { Err(e) => { return Err(BankParseFailure::SliceError(e)); }, Ok(_) => {} };
    let sound_count = match read32(src, 20) { Err(e) => { return Err(BankParseFailure::SliceError(e)); }, Ok(v) => v };
    let sound_offset = match read32(src, 28) { Err(e) => { return Err(BankParseFailure::SliceError(e)); }, Ok(v) => v };
    match read32(src, 32) { Err(e) => { return Err(BankParseFailure::SliceError(e)); }, Ok(_) => {} };
    match read32(src, 36) { Err(e) => { return Err(BankParseFailure::SliceError(e)); }, Ok(_) => {} };
    match read32(src, 40) { Err(e) => { return Err(BankParseFailure::SliceError(e)); }, Ok(_) => {} };
    let u_count = match read32(src, 44) { Err(e) => { return Err(BankParseFailure::SliceError(e)); }, Ok(v) => v };
    let u_offset = match read32(src, 52) { Err(e) => { return Err(BankParseFailure::SliceError(e)); }, Ok(v) => v };
    assert(tables(b) == (bnk_count as int, bnk_offset as int, sound_count as int, sound_offset as int, u_count as int, u_offset as int));

    let mut sound_banks: Vec<String> = Vec::new();
    let mut i: u32 = 0;
    while i < bnk_count
        invariant
            b == src@,
            b.len() >= 56,
            banksinfo_readable(b),
            tables(b) == (bnk_count as int, bnk_offset as int, sound_count as int, sound_offset as int, u_count as int, u_offset as int),
            i <= bnk_count,
            first_bad(b, 0, bnk_offset as int, i as int) is None,
            sound_banks@.len() == i,
            forall|k: int|
                0 <= k < i ==> Step::Fine(vstd::utf8::encode_utf8((#[trigger] sound_banks@[k])@))
                    == bank_step(b, bnk_offset as int, k),
        decreases bnk_count - i,
    {
        let at = bnk_offset as u64 + (i as u64) * 8 + 4;
        let start = match read32(src, at) {
            Err(e) => {
                proof {
                    assert(first_bad(b, 0, bnk_offset as int, i + 1) == Some(i as int));
                    lemma_first_bad_prefix(b, 0, bnk_offset as int, i + 1, bnk_count as int);
                }
                return Err(BankParseFailure::SliceError(e));
            },
            Ok(v) => v,
        };
        proof {
            if string_step(b, start as int) is Unterminated {
                assert(first_bad(b, 0, bnk_offset as int, i + 1) == Some(i as int));
                lemma_first_bad_prefix(b, 0, bnk_offset as int, i + 1, bnk_count as int);
            }
        }
        let text = match read_string_at(src, start as u64) {
            Err(e) => {
                proof {
                    assert(first_bad(b, 0, bnk_offset as int, i + 1) == Some(i as int));
                    lemma_first_bad_prefix(b, 0, bnk_offset as int, i + 1, bnk_count as int);
                }
                return Err(BankParseFailure::BadString(e));
            },
            Ok(t) => t,
        };
        sound_banks.push(text);
        i += 1;
    }

    let mut ids: HashMap<u64, u64> = HashMap::new();
    let mut j: u32 = 0;
    while j < sound_count
        invariant
            b == src@,
            b.len() >= 56,
            tables(b) == (bnk_count as int, bnk_offset as int, sound_count as int, sound_offset as int, u_count as int, u_offset as int),
            first_bad(b, 0, bnk_offset as int, bnk_count as int) is None,
            j <= sound_count,
            first_bad(b, 1, sound_offset as int, j as int) is None,
            ids@ == sound_ids(b, sound_offset as int, j as int),
        decreases sound_count - j,
    {
        let at = sound_offset as u64 + (j as u64) * 16;
        let id = match read64(src, at) {
            Err(e) => {
                proof {
                    assert(first_bad(b, 1, sound_offset as int, j + 1) == Some(j as int));
                    lemma_first_bad_prefix(b, 1, sound_offset as int, j + 1, sound_count as int);
                }
                return Err(BankParseFailure::SliceError(e));
            },
            Ok(v) => v,
        };
        let hash = match read64(src, at + 8) {
            Err(e) => {
                proof {
                    assert(first_bad(b, 1, sound_offset as int, j + 1) == Some(j as int));
                    lemma_first_bad_prefix(b, 1, sound_offset as int, j + 1, sound_count as int);
                }
                return Err(BankParseFailure::SliceError(e));
            },
            Ok(v) => v,
        };
        if !ids.contains_key(&hash) {
            ids.insert(hash, id);
        }
        j += 1;
    }

    let mut sound_lookups: HashMap<u64, (crate::hashindex::Hash, String)> = HashMap::new();
    let mut lookup_order: Vec<u64> = Vec::new();
    let mut k: u32 = 0;
    while k < u_count
        invariant
            b == src@,
            b.len() >= 56,
            banksinfo_readable(b),
            tables(b) == (bnk_count as int, bnk_offset as int, sound_count as int, sound_offset as int, u_count as int, u_offset as int),
            first_bad(b, 0, bnk_offset as int, bnk_count as int) is None,
            first_bad(b, 1, sound_offset as int, sound_count as int) is None,
            ids@ == sound_ids(b, sound_offset as int, sound_count as int),
            k <= u_count,
            first_bad(b, 2, u_offset as int, k as int) is None,
            lookup_view(sound_lookups@) == lookups(b, ids@, u_offset as int, k as int),
            lookup_order@ == lookup_ids(b, ids@, u_offset as int, k as int),
            forall|i: int|
                0 <= i < lookup_order@.len() ==> sound_lookups@.contains_key(#[trigger] lookup_order@[i]),
        decreases u_count - k,
    {
        let at = u_offset as u64 + (k as u64) * 16;
        let hash = match read64(src, at) {
            Err(e) => {
                proof {
                    assert(first_bad(b, 2, u_offset as int, k + 1) == Some(k as int));
                    lemma_first_bad_prefix(b, 2, u_offset as int, k + 1, u_count as int);
                }
                return Err(BankParseFailure::SliceError(e));
            },
            Ok(v) => v,
        };
        match read32(src, at + 8) {
            Err(e) => {
                proof {
                    assert(first_bad(b, 2, u_offset as int, k + 1) == Some(k as int));
                    lemma_first_bad_prefix(b, 2, u_offset as int, k + 1, u_count as int);
                }
                return Err(BankParseFailure::SliceError(e));
            },
            Ok(_) => {},
        };
        let string_offset = match read32(src, at + 12) {
            Err(e) => {
                proof {
                    assert(first_bad(b, 2, u_offset as int, k + 1) == Some(k as int));
                    lemma_first_bad_prefix(b, 2, u_offset as int, k + 1, u_count as int);
                }
                return Err(BankParseFailure::SliceError(e));
            },
            Ok(v) => v,
        };
        proof {
            if string_step(b, string_offset as int) is Unterminated {
                assert(first_bad(b, 2, u_offset as int, k + 1) == Some(k as int));
                lemma_first_bad_prefix(b, 2, u_offset as int, k + 1, u_count as int);
            }
        }
        let string = match read_string_at(src, string_offset as u64) {
            Err(e) => {
                proof {
                    assert(first_bad(b, 2, u_offset as int, k + 1) == Some(k as int));
                    lemma_first_bad_prefix(b, 2, u_offset as int, k + 1, u_count as int);
                }
                return Err(BankParseFailure::BadString(e));
            },
            Ok(t) => t,
        };
        let ghost before = sound_lookups@;
        let ghost sbytes = vstd::utf8::encode_utf8(string@);
        match ids.get(&hash) {
            None => {},
            Some(id) => {
                let id = *id;
                assert(lookup_view(before).dom() =~= before.dom());
                if !sound_lookups.contains_key(&id) {
                    sound_lookups.insert(id, (crate::hashindex::Hash(hash), string));
                    lookup_order.push(id);
                    proof {
                        assert(lookup_view(sound_lookups@) =~= lookup_view(before).insert(id, (hash, sbytes)));
                    }
                }
            },
        }
        k += 1;
    }
    Ok(BanksInfo { sound_banks, sound_lookups, lookup_order })
}

proof fn lemma_first_bad_prefix(src: Seq<u8>, kind: int, base: int, m: int, n: int)
    requires
        0 <= m <= n,
        first_bad(src, kind, base, m) is Some,
    ensures
        first_bad(src, kind, base, n) == first_bad(src, kind, base, m),
    decreases n - m,
{
    if m < n {
        lemma_first_bad_prefix(src, kind, base, m, n - 1);
    }
}

/// Whether the string at `start` is unterminated (`2`), not UTF-8 (`1`), or
/// fine (`0`).
fn string_check(src: &[u8], start: u64) -> (r: u8)
    ensures
        r == 2 <==> string_step(src@, start as int) is Unterminated,
        r == 1 <==> string_step(src@, start as int) is NotUtf8,
        r == 0 <==> string_step(src@, start as int) is Fine,
{
    match find_zero(src, start) {
        None => 2,
        Some(end) => {
            let slice = vstd::slice::slice_subrange(src, start as usize, end);
            match utf8_str(slice) {
                Err(_) => 1,
                Ok(_) => 0,
            }
        },
    }
}

/// Whether item `i` of table kind `kind` at `base` is fine (`0`), out of
/// range (`1`), not UTF-8 (`2`) or unterminated (`3`).
fn step_check(src: &[u8], kind: u8, base: u64, i: u64) -> (r: u8)
    requires
        kind <= 2,
        base <= u32::MAX,
        i <= u32::MAX,
    ensures
        r == 0 <==> step_of(src@, kind as int, base as int, i as int) is Fine,
        r == 1 <==> step_of(src@, kind as int, base as int, i as int) is OutOfRange,
        r == 2 <==> step_of(src@, kind as int, base as int, i as int) is NotUtf8,
        r == 3 <==> step_of(src@, kind as int, base as int, i as int) is Unterminated,
{
    if kind == 0 {
        let at = base + i * 8 + 4;
        match read32(src, at) {
            Err(_) => 1,
            Ok(start) => {
                let c = string_check(src, start as u64);
                if c == 0 {
                    0
                } else if c == 1 {
                    2
                } else {
                    3
                }
            },
        }
    } else if kind == 1 {
        let at = base + i * 16;
        match read64(src, at) {
            Err(_) => 1,
            Ok(_) => match read64(src, at + 8) {
                Err(_) => 1,
                Ok(_) => 0,
            },
        }
    } else {
        let at = base + i * 16;
        match read64(src, at) {
            Err(_) => 1,
            Ok(_) => match read32(src, at + 8) {
                Err(_) => 1,
                Ok(_) => match read32(src, at + 12) {
                    Err(_) => 1,
                    Ok(start) => {
                        let c = string_check(src, start as u64);
                        if c == 0 {
                            0
                        } else if c == 1 {
                            2
                        } else {
                            3
                        }
                    },
                },
            },
        }
    }
}

/// The first item of `n` in table kind `kind` at `base` that is not fine,
/// with its check.
fn first_bad_check(src: &[u8], kind: u8, base: u64, n: u64) -> (r: Option<(u64, u8)>)
    requires
        kind <= 2,
        base <= u32::MAX,
        n <= u32::MAX,
    ensures
        r is None ==> first_bad(src@, kind as int, base as int, n as int) is None,
        r matches Some((i, c)) ==> first_bad(src@, kind as int, base as int, n as int) == Some(i as int) && c != 0
            && (c == 1 <==> step_of(src@, kind as int, base as int, i as int) is OutOfRange) && (c == 2
            <==> step_of(src@, kind as int, base as int, i as int) is NotUtf8) && (c == 3 <==> step_of(
            src@,
            kind as int,
            base as int,
            i as int,
        ) is Unterminated),
{
    let mut i: u64 = 0;
    while i < n
        invariant
            kind <= 2,
            base <= u32::MAX,
            n <= u32::MAX,
            i <= n,
            first_bad(src@, kind as int, base as int, i as int) is None,
        decreases n - i,
    {
        let c = step_check(src, kind, base, i);
        if c != 0 {
            proof {
                assert(first_bad(src@, kind as int, base as int, i + 1) == Some(i as int));
                lemma_first_bad_prefix(src@, kind as int, base as int, i + 1, n as int);
            }
            return Some((i, c));
        }
        i += 1;
    }
    None
}

/// Whether `try_from_bytes` can read `src` without running off its end:
/// no string read before the first failure is unterminated.
pub fn banksinfo_readable_check(src: &[u8]) -> (r: bool)
    ensures
        r == banksinfo_readable(src@),
{
    if src.len() < 56 {
        return true;
    }
    let bc = read_u32_le(src, 0) as u64;
    let bo = read_u32_le(src, 8) as u64;
    let sc = read_u32_le(src, 20) as u64;
    let so = read_u32_le(src, 28) as u64;
    let uc = read_u32_le(src, 44) as u64;
    let uo = read_u32_le(src, 52) as u64;
    assert(tables(src@) == (bc as int, bo as int, sc as int, so as int, uc as int, uo as int));
    match first_bad_check(src, 0, bo, bc) {
        Some((_, c)) => return c != 3,
        None => {},
    }
    match first_bad_check(src, 1, so, sc) {
        Some((_, c)) => return c != 3,
        None => {},
    }
    match first_bad_check(src, 2, uo, uc) {
        Some((_, c)) => c != 3,
        None => true,
    }
}

/// How the text of a sound bank list shows one character of a string: the
/// escapes of `Debug` for quotes, backslashes and ASCII control characters
/// (`\0`, `\t`, `\r`, `\n`, else `\u{..}` in lowercase hex); every other
/// character as it is.
pub open spec fn escape_debug(c: char) -> Seq<char> {
    if c == '\0' {
        seq!['\\', '0']
    } else if c == '\t' {
        seq!['\\', 't']
    } else if c == '\r' {
        seq!['\\', 'r']
    } else if c == '\n' {
        seq!['\\', 'n']
    } else if c == '\\' {
        seq!['\\', '\\']
    } else if c == '"' {
        seq!['\\', '"']
    } else if (c as u32) < 0x20 || c as u32 == 0x7f {
        seq!['\\', 'u', '{'] + small_hex(c as u32 as int) + seq!['}']
    } else {
        seq![c]
    }
}

/// `v`, below 256, in lowercase hex without leading zeros.
pub open spec fn small_hex(v: int) -> Seq<char> {
    if v < 16 {
        seq![hex_digit(v)]
    } else {
        seq![hex_digit(v / 16), hex_digit(v % 16)]
    }
}

/// The escapes of the first `n` characters of `s`, one after another.
pub open spec fn escaped_debug(s: Seq<char>, n: int) -> Seq<char>
    decreases n,
{
    if n <= 0 {
        Seq::empty()
    } else {
        escaped_debug(s, n - 1) + escape_debug(s[n - 1])
    }
}

/// `s` quoted, as the text shows a string.
pub open spec fn debug_str(s: Seq<char>) -> Seq<char> {
    seq!['"'] + escaped_debug(s, s.len() as int) + seq!['"']
}

/// The first `n` bank names, quoted and separated by `, `.
pub open spec fn banks_text(banks: Seq<Seq<char>>, n: int) -> Seq<char>
    decreases n,
{
    if n <= 0 {
        Seq::empty()
    } else if n == 1 {
        debug_str(banks[0])
    } else {
        banks_text(banks, n - 1) + seq![',', ' '] + debug_str(banks[n - 1])
    }
}

/// One lookup: the sound id, then its Idstring and string.
pub open spec fn lookup_text(id: u64, entry: (u64, Seq<u8>)) -> Seq<char> {
    dec_text(id as nat) + ": (Hash("@ + dec_text(entry.0 as nat) + "), "@ + debug_str(
        vstd::utf8::decode_utf8(entry.1),
    ) + ")"@
}

/// The lookups of the first `n` ids of `order`, separated by `, `.
pub open spec fn lookups_text(order: Seq<u64>, m: Map<u64, (u64, Seq<u8>)>, n: int) -> Seq<char>
    decreases n,
{
    if n <= 0 {
        Seq::empty()
    } else if n == 1 {
        lookup_text(order[0], m[order[0]])
    } else {
        lookups_text(order, m, n - 1) + seq![',', ' '] + lookup_text(order[n - 1], m[order[n - 1]])
    }
}

/// The text of a list that was read: its bank names, then its lookups in
/// the order `order`.
pub open spec fn list_text(banks: Seq<Seq<char>>, order: Seq<u64>, m: Map<u64, (u64, Seq<u8>)>) -> Seq<char> {
    "Ok(BanksInfo { sound_banks: ["@ + banks_text(banks, banks.len() as int) + "], sound_lookups: {"@
        + lookups_text(order, m, order.len() as int) + "} })"@
}

/// The text of a read past the end at `offset`.
pub open spec fn slice_error_text(offset: int) -> Seq<char> {
    "Err(SliceError(TryFromBytesError { offset: "@ + dec_text(offset as nat) + " }))"@
}

/// The text of a string that is not UTF-8, around the text `detail` of the
/// standard library's error.
pub open spec fn bad_string_text(detail: Seq<char>) -> Seq<char> {
    "Err(BadString("@ + detail + "))"@
}

/// The bank names of a list whose banks table is at `base` and has `n`
/// entries, each read as UTF-8.
pub open spec fn bank_names(src: Seq<u8>, base: int, n: int) -> Seq<Seq<char>> {
    Seq::new(n as nat, |i: int| vstd::utf8::decode_utf8(fine_bytes(bank_step(src, base, i))))
}

/// Whether `t` is the text of reading the sound bank list `src`: the list
/// with its lookups in file order, or the place past the end where a read
/// failed, or (for a string that is not UTF-8) the standard library's error
/// inside `Err(BadString(..))`.
pub open spec fn bank_text_of(src: Seq<u8>, t: Seq<char>) -> bool {
    if src.len() < 56 {
        t == slice_error_text(header_failure(src.len() as int) as int)
    } else {
        match failure_step(src) {
            Some(Step::OutOfRange(o)) => t == slice_error_text(o),
            Some(Step::NotUtf8) => exists|d: Seq<char>| t == #[trigger] bad_string_text(d),
            Some(_) => false,
            None => {
                let (bc, bo, sc, so, uc, uo) = tables(src);
                t == list_text(
                    bank_names(src, bo, bc),
                    lookup_ids(src, sound_ids(src, so, sc), uo, uc),
                    lookups(src, sound_ids(src, so, sc), uo, uc),
                )
            },
        }
    }
}

/// `format!("{:?}", ..)` of the standard library's UTF-8 error.
#[verifier::external_body]
fn utf8_error_text(e: &std::str::Utf8Error) -> (s: String) {
    format!("{:?}", e)
}

fn hex_char(d: u32) -> (c: char)
    requires
        d < 16,
    ensures
        c == hex_digit(d as int),
{
    if d < 10 {
        ((48 + d) as u8) as char
    } else {
        ((87 + d) as u8) as char
    }
}

/// Appends `s` quoted, with the escapes of `escape_debug`.
fn push_debug_str(out: &mut String, s: &str)
    ensures
        final(out)@ == old(out)@ + debug_str(s@),
{
    push_char(out, '"');
    let n = s.unicode_len();
    let mut i: usize = 0;
    while i < n
        invariant
            n == s@.len(),
            i <= n,
            out@ == old(out)@ + seq!['"'] + escaped_debug(s@, i as int),
        decreases n - i,
    {
        let c = s.get_char(i);
        let ghost before = out@;
        if c == '\0' {
            push_char(out, '\\');
            push_char(out, '0');
        } else if c == '\t' {
            push_char(out, '\\');
            push_char(out, 't');
        } else if c == '\r' {
            push_char(out, '\\');
            push_char(out, 'r');
        } else if c == '\n' {
            push_char(out, '\\');
            push_char(out, 'n');
        } else if c == '\\' {
            push_char(out, '\\');
            push_char(out, '\\');
        } else if c == '"' {
            push_char(out, '\\');
            push_char(out, '"');
        } else if (c as u32) < 0x20 || c as u32 == 0x7f {
            let v = c as u32;
            push_char(out, '\\');
            push_char(out, 'u');
            push_char(out, '{');
            if v < 16 {
                push_char(out, hex_char(v));
            } else {
                push_char(out, hex_char(v / 16));
                push_char(out, hex_char(v % 16));
            }
            push_char(out, '}');
        } else {
            push_char(out, c);
        }
        assert(out@ =~= before + escape_debug(c));
        i += 1;
        assert(out@ =~= old(out)@ + seq!['"'] + escaped_debug(s@, i as int));
    }
    push_char(out, '"');
    assert(out@ =~= old(out)@ + debug_str(s@));
}

/// The text of a list that was read.
fn info_text(info: &BanksInfo) -> (r: String)
    requires
        forall|i: int|
            0 <= i < info.lookup_order@.len() ==> info.sound_lookups@.contains_key(
                #[trigger] info.lookup_order@[i],
            ),
    ensures
        r@ == list_text(
            Seq::new(info.sound_banks@.len(), |i: int| info.sound_banks@[i]@),
            info.lookup_order@,
            lookup_view(info.sound_lookups@),
        ),
{
    let ghost banks = Seq::new(info.sound_banks@.len(), |i: int| info.sound_banks@[i]@);
    let ghost m = lookup_view(info.sound_lookups@);
    let ghost order = info.lookup_order@;
    let mut out = String::new();
    append(&mut out, "Ok(BanksInfo { sound_banks: [");
    let ghost start = out@;
    let nb = info.sound_banks.len();
    let mut i: usize = 0;
    while i < nb
        invariant
            nb == banks.len(),
            banks == Seq::new(info.sound_banks@.len(), |i: int| info.sound_banks@[i]@),
            i <= nb,
            out@ == start + banks_text(banks, i as int),
        decreases nb - i,
    {
        if i > 0 {
            push_char(&mut out, ',');
            push_char(&mut out, ' ');
        }
        push_debug_str(&mut out, info.sound_banks[i].as_str());
        assert(banks[i as int] == info.sound_banks@[i as int]@);
        i += 1;
        assert(out@ =~= start + banks_text(banks, i as int));
    }
    append(&mut out, "], sound_lookups: {");
    let ghost mid = out@;
    let nl = info.lookup_order.len();
    let mut k: usize = 0;
    while k < nl
        invariant
            nl == order.len(),
            order == info.lookup_order@,
            m == lookup_view(info.sound_lookups@),
            forall|i: int|
                0 <= i < info.lookup_order@.len() ==> info.sound_lookups@.contains_key(
                    #[trigger] info.lookup_order@[i],
                ),
            k <= nl,
            out@ == mid + lookups_text(order, m, k as int),
        decreases nl - k,
    {
        if k > 0 {
            push_char(&mut out, ',');
            push_char(&mut out, ' ');
        }
        let id = info.lookup_order[k];
        assert(info.sound_lookups@.contains_key(order[k as int]));
        let entry = info.sound_lookups.get(&id);
        match entry {
            None => {
                assert(false);
            },
            Some(e) => {
                let ghost ev = m[id];
                assert(ev == (e.0.0, vstd::utf8::encode_utf8(e.1@)));
                proof {
                    vstd::utf8::encode_utf8_decode_utf8(e.1@);
                }
                append(&mut out, dec_string(id as u128).as_str());
                append(&mut out, ": (Hash(");
                append(&mut out, dec_string(e.0.0 as u128).as_str());
                append(&mut out, "), ");
                push_debug_str(&mut out, e.1.as_str());
                append(&mut out, ")");
            },
        }
        k += 1;
        assert(out@ =~= mid + lookups_text(order, m, k as int));
    }
    append(&mut out, "} })");
    assert(out@ =~= list_text(banks, order, m));
    out
}

/// The text of why a list could not be read.
fn failure_text(f: &BankParseFailure) -> (r: String)
    ensures
        f matches BankParseFailure::SliceError(e) ==> r@ == slice_error_text(e.offset as int),
        f matches BankParseFailure::BadString(_) ==> exists|d: Seq<char>| r@ == #[trigger] bad_string_text(d),
{
    match f {
        BankParseFailure::SliceError(e) => {
            let mut out = String::new();
            append(&mut out, "Err(SliceError(TryFromBytesError { offset: ");
            append(&mut out, dec_string(e.offset as u128).as_str());
            append(&mut out, " }))");
            assert(out@ =~= slice_error_text(e.offset as int));
            out
        },
        BankParseFailure::BadString(e) => {
            let d = utf8_error_text(e);
            let mut out = String::new();
            append(&mut out, "Err(BadString(");
            append(&mut out, d.as_str());
            append(&mut out, "))");
            assert(out@ =~= bad_string_text(d@));
            out
        },
    }
}

/// The text of reading a sound bank list: the list, with its bank names and
/// its lookups in the order of the file, or why it could not be read, as
/// `Debug` shows them. `None` where a string runs off the end of `src`.
pub fn banksinfo_text(src: &[u8]) -> (r: Option<String>)
    ensures
        match r {
            None => !banksinfo_readable(src@),
            Some(t) => banksinfo_readable(src@) && bank_text_of(src@, t@),
        },
{
    if !banksinfo_readable_check(src) {
        return None;
    }
    match try_from_bytes(src) {
        Ok(info) => {
            let t = info_text(&info);
            proof {
                let (bc, bo, sc, so, uc, uo) = tables(src@);
                let names = bank_names(src@, bo, bc);
                let got = Seq::new(info.sound_banks@.len(), |i: int| info.sound_banks@[i]@);
                assert forall|i: int| 0 <= i < bc implies #[trigger] got[i] == names[i] by {
                    vstd::utf8::encode_utf8_decode_utf8(info.sound_banks@[i]@);
                }
                assert(got =~= names);
            }
            Some(t)
        },
        Err(f) => Some(failure_text(&f)),
    }
}

} // verus!
