//! Player save data.
use vstd::prelude::*;
use crate::read_helpers::{le_u32, take_bytes, take_u32};
use crate::text::utf8_str;

verus! {

/// The key that save data strings are scrambled with.
pub const XOR_KEY: [u8; 34] = [
    0x74, 0x3E, 0x3F, 0xA4, 0x32, 0x43, 0x26, 0x2E, 0x23, 0x36,
    0x37, 0x6A, 0x6D, 0x3A, 0x48, 0x47, 0x3D, 0x53, 0x2D, 0x63,
    0x41, 0x6B, 0x29, 0x38, 0x6A, 0x68, 0x5F, 0x4D, 0x4A, 0x68,
    0x3C, 0x6E, 0x66, 0xF6,
];

/// The byte that the `i`th byte of an `n`-byte buffer is XORed with: the key
/// byte at `(n + i) * 7` (wrapping, modulo the key length) times `n - i`,
/// truncated to a byte.
pub open spec fn scramble_byte(n: usize, i: usize) -> u8 {
    let key_idx = n.wrapping_add(i).wrapping_mul(7) % 34;
    let key = XOR_KEY@[key_idx as int] as u64;
    let ctr = (n - i) as u64;
    key.wrapping_mul(ctr) as u8
}

/// What `scramble` gives: each byte XORed with its `scramble_byte`.
pub open spec fn spec_scramble(data: Seq<u8>) -> Seq<u8> {
    Seq::new(data.len(), |i: int| data[i] ^ scramble_byte(data.len() as usize, i as usize))
}

/// XOR-based symmetric scramble and descramble.
pub fn scramble(scrambled_data: &[u8]) -> (data: Vec<u8>)
    ensures
        data@ == spec_scramble(scrambled_data@),
{
    let mut data = vstd::slice::slice_to_vec(scrambled_data);
    let n = data.len();
    let mut i: usize = 0;
    while i < n
        invariant
            n == data@.len(),
            n == scrambled_data@.len(),
            i <= n,
            forall|j: int|
                0 <= j < n ==> #[trigger] data@[j] == if j < i {
                    scrambled_data@[j] ^ scramble_byte(n, j as usize)
                } else {
                    scrambled_data@[j]
                },
        decreases n - i,
    {
        let key_idx = n.wrapping_add(i).wrapping_mul(7) % 34;
        let key: u64 = XOR_KEY[key_idx] as u64;
        let ctr: u64 = (n - i) as u64;
        let scramble: u8 = key.wrapping_mul(ctr) as u8;
        let b = data[i] ^ scramble;
        data.set(i, b);
        i += 1;
    }
    assert(data@ =~= spec_scramble(scrambled_data@));
    data
}

/// Scrambling is its own inverse.
pub proof fn lemma_scramble_involution(data: Seq<u8>)
    requires
        data.len() <= usize::MAX,
    ensures
        spec_scramble(spec_scramble(data)) == data,
{
    let once = spec_scramble(data);
    assert forall|i: int| 0 <= i < data.len() implies #[trigger] spec_scramble(once)[i] == data[i] by {
        let k = scramble_byte(data.len() as usize, i as usize);
        let b = data[i];
        assert((b ^ k) ^ k == b) by (bit_vector);
    }
    assert(spec_scramble(once) =~= data);
}

/// Byte `i` of a scrambled `n`-byte buffer is the data byte XORed with the
/// key byte at position `(n + i) * 7` (taken modulo the word size, then
/// modulo the key's 34 bytes), multiplied by the count `n - i` of bytes from
/// `i` to the end, keeping the low eight bits of the product.
pub proof fn lemma_scramble_bytes(data: Seq<u8>, i: int)
    requires
        data.len() <= usize::MAX,
        0 <= i < data.len(),
    ensures
        ({
            let n = data.len() as int;
            let word: int = usize::MAX as int + 1;
            let pos: int = (((n + i) % word) * 7 % word) % 34;
            spec_scramble(data)[i] == data[i] ^ (((XOR_KEY@[pos] as int) * (n - i)) % 256) as u8
        }),
{
    let n = data.len() as int;
    let word: int = usize::MAX as int + 1;
    let nu = data.len() as usize;
    let iu = i as usize;
    let s = nu.wrapping_add(iu);
    assert(s as int == (n + i) % word) by {
        if n + i <= usize::MAX {
            vstd::arithmetic::div_mod::lemma_small_mod((n + i) as nat, word as nat);
        } else {
            vstd::arithmetic::div_mod::lemma_mod_sub_multiples_vanish(n + i, word);
            vstd::arithmetic::div_mod::lemma_small_mod((n + i - word) as nat, word as nat);
        }
    }
    let key_idx = s.wrapping_mul(7) % 34;
    assert(key_idx as int == ((((n + i) % word) * 7 % word) % 34));
    let key = XOR_KEY@[key_idx as int] as u64;
    let ctr = (nu - iu) as u64;
    let prod = key.wrapping_mul(ctr);
    assert(prod as int == (key as int * ctr as int) % 0x1_0000_0000_0000_0000);
    assert((prod as u8) as int == prod as int % 256) by (bit_vector);
    vstd::arithmetic::div_mod::lemma_mod_mod(key as int * ctr as int, 256, 0x100_0000_0000_0000);
    assert(256 * 0x100_0000_0000_0000int == 0x1_0000_0000_0000_0000int);
    assert(scramble_byte(nu, iu) == prod as u8);
}

/// The bytes that pad each byte of a scrambled string.
pub const STRING_PADDING: [u8; 12] = [0xDF, 0xC1, 0xA3, 0x85, 0x67, 0x49, 0x2B, 0x0D, 0xED, 0xCF, 0xB1, 0x93];

/// Why reading save data failed.
#[derive(Debug)]
pub enum SaveError {
    MissingBlockSize,
    MissingBlockVersion,
    UnknownBlockVersion(u32),
    StringNotTerminated,
    NotUtf8NorDigest,
    BadDigestPadding,
    MissingVersion,
    UnknownVersion(u32),
    MissingTag,
    MissingValue(u8),
    MissingDictionaryLength,
    InvalidTag(u8),
}

/// A string of save data: text, or a scrambled digest (descrambled).
#[derive(Debug)]
pub enum SaveString {
    Text(String),
    Scrambled(Vec<u8>),
}

/// A data block lies within `b`: unless the size or version is missing or
/// the version is not 10, the size covers its own word and the 16-byte
/// checksum, and the body and checksum follow the header.
pub open spec fn datablock_fits(b: Seq<u8>) -> bool {
    (b.len() >= 8 && le_u32(b, 4) == 10) ==> (le_u32(b, 0) >= 20 && 8 + (le_u32(b, 0) - 20) + 16 <= b.len())
}

/// Reads a data block: its size (counting its own four bytes and the 16-byte
/// checksum after the body, not the version), its version, which must be 10,
/// the body and the checksum. Gives the body and leaves the input after the
/// checksum.
pub fn read_datablock(bytes: &mut &[u8]) -> (r: Result<Vec<u8>, SaveError>)
    requires
        datablock_fits(old(bytes)@),
    ensures
        ({
            let b = old(bytes)@;
            if b.len() < 4 {
                r matches Err(SaveError::MissingBlockSize) && final(bytes)@ == b
            } else if b.len() < 8 {
                r matches Err(SaveError::MissingBlockVersion) && final(bytes)@ == b.subrange(4, b.len() as int)
            } else if le_u32(b, 4) != 10 {
                r matches Err(SaveError::UnknownBlockVersion(v)) && v == le_u32(b, 4) && final(bytes)@ == b.subrange(8, b.len() as int)
            } else {
                let end = 8 + le_u32(b, 0) - 20;
                &&& r matches Ok(body) && body@ == b.subrange(8, end)
                &&& final(bytes)@ == b.subrange(end + 16, b.len() as int)
            }
        }),
{
    let ghost b = bytes@;
    let block_size = match take_u32(bytes) {
        None => {
            return Err(SaveError::MissingBlockSize);
        },
        Some(v) => v,
    };
    let block_version = match take_u32(bytes) {
        None => {
            return Err(SaveError::MissingBlockVersion);
        },
        Some(v) => v,
    };
    proof {
        assert(b.subrange(4, b.len() as int).len() >= 4);
        let t = b.subrange(4, b.len() as int);
        assert(t[0] == b[4] && t[1] == b[5] && t[2] == b[6] && t[3] == b[7]);
        assert(le_u32(t, 0) == le_u32(b, 4));
        assert(b.subrange(4, b.len() as int).subrange(4, b.len() - 4) =~= b.subrange(8, b.len() as int));
    }
    if block_version != 10 {
        return Err(SaveError::UnknownBlockVersion(block_version));
    }
    let body_size = block_size - 16 - 4;
    let cur: &[u8] = *bytes;
    let (body, rest) = cur.split_at(body_size as usize);
    let (_checksum, rest) = rest.split_at(16);
    *bytes = rest;
    assert(body@ =~= b.subrange(8, 8 + block_size - 20));
    assert(rest@ =~= b.subrange(8 + block_size - 20 + 16, b.len() as int));
    Ok(vstd::slice::slice_to_vec(body))
}

/// The position of the first zero byte of `b` from `i` on.
pub open spec fn first_zero(b: Seq<u8>, i: int) -> Option<int>
    decreases b.len() - i,
{
    if i < 0 || i >= b.len() {
        None
    } else if b[i] == 0 {
        Some(i)
    } else {
        first_zero(b, i + 1)
    }
}

/// Every byte of the digest `d` at an odd position is the padding byte for its
/// pair.
pub open spec fn digest_padded(d: Seq<u8>) -> bool {
    forall|k: int| 0 <= k < d.len() / 2 && k < 12 ==> #[trigger] d[2 * k + 1] == STRING_PADDING@[k]
}

/// `0xFE` less `x`, wrapping.
pub open spec fn fe_minus(x: u8) -> u8 {
    if x <= 0xFE {
        (0xFE - x) as u8
    } else {
        (0xFE - x + 256) as u8
    }
}

/// The bytes a digest stands for: `0xFE` less each byte at an even position.
pub open spec fn descramble(d: Seq<u8>) -> Seq<u8> {
    Seq::new((d.len() / 2) as nat, |k: int| fe_minus(d[2 * k]))
}

/// A string's bytes can be decided on without reading padding beyond the
/// twelve known bytes: it is text, of odd length, shorter than thirteen pairs,
/// or a padding byte among the first twelve pairs is wrong.
pub open spec fn string_decidable(s: Seq<u8>) -> bool {
    vstd::utf8::valid_utf8(s) || s.len() % 2 != 0 || s.len() / 2 <= 12 || !digest_padded(s)
}

/// Reads a zero-terminated string: text if its bytes are UTF-8, else a
/// digest of byte pairs, each a scrambled byte and a padding byte.
pub fn read_string(bytes: &mut &[u8]) -> (r: Result<SaveString, SaveError>)
    requires
        first_zero(old(bytes)@, 0) matches Some(z) ==> string_decidable(old(bytes)@.subrange(0, z)),
    ensures
        ({
            let b = old(bytes)@;
            match first_zero(b, 0) {
                None => r matches Err(SaveError::StringNotTerminated) && final(bytes)@.len() == 0,
                Some(z) => {
                    let s = b.subrange(0, z);
                    &&& final(bytes)@ == b.subrange(z + 1, b.len() as int)
                    &&& if vstd::utf8::valid_utf8(s) {
                        r matches Ok(SaveString::Text(t)) && vstd::utf8::encode_utf8(t@) == s
                    } else if s.len() % 2 != 0 {
                        r matches Err(SaveError::NotUtf8NorDigest)
                    } else if !digest_padded(s) {
                        r matches Err(SaveError::BadDigestPadding)
                    } else {
                        r matches Ok(SaveString::Scrambled(d)) && d@ == descramble(s)
                    }
                },
            }
        }),
{
    let ghost b = bytes@;
    let mut buf: Vec<u8> = Vec::new();
    let mut terminated = false;
    loop
        invariant_except_break
            bytes@ == b.subrange(buf@.len() as int, b.len() as int),
            buf@ == b.subrange(0, buf@.len() as int),
            buf@.len() <= b.len(),
            first_zero(b, buf@.len() as int) == first_zero(b, 0),
            !terminated,
        ensures
            terminated ==> buf@.len() < b.len() && bytes@ == b.subrange(buf@.len() as int + 1, b.len() as int)
                && buf@ == b.subrange(0, buf@.len() as int) && first_zero(b, 0) == Some(buf@.len() as int),
            !terminated ==> bytes@.len() == 0 && first_zero(b, 0) is None,
        decreases bytes@.len(),
    {
        let cur: &[u8] = *bytes;
        if cur.len() == 0 {
            assert(buf@.len() == b.len());
            break;
        }
        let byte = cur[0];
        let (_, rest) = cur.split_at(1);
        *bytes = rest;
        assert(byte == b[buf@.len() as int]);
        assert(rest@ =~= b.subrange(buf@.len() as int + 1, b.len() as int));
        if byte == 0 {
            terminated = true;
            break;
        }
        buf.push(byte);
        assert(buf@ =~= b.subrange(0, buf@.len() as int));
        assert(bytes@ =~= b.subrange(buf@.len() as int, b.len() as int));
    }
    if !terminated {
        return Err(SaveError::StringNotTerminated);
    }
    let ghost s = buf@;
    match utf8_str(buf.as_slice()) {
        Ok(t) => {
            return Ok(SaveString::Text(t.to_owned()));
        },
        Err(_) => {},
    }
    let pairs = match cast_pairs(buf.as_slice()) {
        Err(_) => {
            return Err(SaveError::NotUtf8NorDigest);
        },
        Ok(p) => p,
    };
    let mut descrambled: Vec<u8> = Vec::new();
    let n = pairs.len();
    let mut idx: usize = 0;
    let mut bad = false;
    while idx < n
        invariant_except_break
            idx <= n,
            !bad,
            forall|k: int| 0 <= k < idx ==> k < 12 && #[trigger] s[2 * k + 1] == STRING_PADDING@[k],
            descrambled@ == descramble(s).subrange(0, idx as int),
        invariant
            n == pairs@.len(),
            n == s.len() / 2,
            s.len() % 2 == 0,
            !vstd::utf8::valid_utf8(s),
            string_decidable(s),
            forall|k: int| 0 <= k < n ==> (#[trigger] pairs@[k])@ == seq![s[2 * k], s[2 * k + 1]],
        ensures
            bad ==> !digest_padded(s),
            !bad ==> digest_padded(s) && descrambled@ == descramble(s),
        decreases n - idx,
    {
        let pair = pairs[idx];
        assert(pair@ == seq![s[2 * idx as int], s[2 * idx + 1]]);
        if idx >= 12 {
            assert(digest_padded(s));
            assert(false);
        }
        if pair[1] != STRING_PADDING[idx] {
            assert(s[2 * idx as int + 1] != STRING_PADDING@[idx as int]);
            bad = true;
            break;
        }
        let d = 0xFEu8.wrapping_sub(pair[0]);
        assert(d == fe_minus(s[2 * idx as int]));
        descrambled.push(d);
        idx += 1;
        assert(descrambled@ =~= descramble(s).subrange(0, idx as int));
        if idx == n {
            assert(descrambled@ =~= descramble(s));
        }
    }
    if bad {
        return Err(SaveError::BadDigestPadding);
    }
    Ok(SaveString::Scrambled(descrambled))
}

/// The error of `bytemuck` for a slice that cannot be cast, carried through
/// unread.
#[verifier::external_type_specification]
#[verifier::external_body]
pub struct ExPodCastError(bytemuck::PodCastError);

/// `bytemuck::try_cast_slice` from bytes to byte pairs: succeeds exactly when
/// the length is even (a pair needs no more alignment than a byte), and then
/// pair `k` is bytes `2k` and `2k + 1`.
#[verifier::external_body]
fn cast_pairs(b: &[u8]) -> (r: Result<&[[u8; 2]], bytemuck::PodCastError>)
    ensures
        r is Ok <==> b@.len() % 2 == 0,
        r matches Ok(p) ==> p@.len() == b@.len() / 2 && forall|k: int|
            0 <= k < p@.len() ==> (#[trigger] p@[k])@ == seq![b@[2 * k], b@[2 * k + 1]],
{
    bytemuck::try_cast_slice(b)
}

/// An item of save data. A float is held as its bits.
#[derive(Debug)]
pub enum DataItem {
    String(String),
    ScrambledString(Vec<u8>),
    Float(u32),
    Empty,
    Byte(u8),
    Short(u16),
    Bool(bool),
    Dictionary(Vec<(DataItem, DataItem)>),
    Unknown9([u8; 12]),
}

/// What an item of save data is: its strings as characters or bytes, its
/// dictionaries as sequences of pairs.
pub enum ItemView {
    Text(Seq<char>),
    Scrambled(Seq<u8>),
    Float(u32),
    Empty,
    Byte(u8),
    Short(u16),
    Bool(bool),
    Dictionary(Seq<(ItemView, ItemView)>),
    Unknown9(Seq<u8>),
}

impl DataItem {
    pub open spec fn view(&self) -> ItemView
        decreases self,
    {
        match self {
            DataItem::String(s) => ItemView::Text(s@),
            DataItem::ScrambledString(b) => ItemView::Scrambled(b@),
            DataItem::Float(f) => ItemView::Float(*f),
            DataItem::Empty => ItemView::Empty,
            DataItem::Byte(b) => ItemView::Byte(*b),
            DataItem::Short(v) => ItemView::Short(*v),
            DataItem::Bool(b) => ItemView::Bool(*b),
            DataItem::Dictionary(v) => ItemView::Dictionary(pairs_view(v@)),
            DataItem::Unknown9(b) => ItemView::Unknown9(b@),
        }
    }
}

/// The views of some pairs of items.
pub open spec fn pairs_view(s: Seq<(DataItem, DataItem)>) -> Seq<(ItemView, ItemView)>
    decreases s,
{
    if s.len() == 0 {
        Seq::empty()
    } else {
        pairs_view(s.drop_last()).push((s.last().0.view(), s.last().1.view()))
    }
}

/// Whether the bits of a float are a NaN.
pub open spec fn nan_bits(x: u32) -> bool {
    x & 0x7f80_0000 == 0x7f80_0000 && x & 0x007f_ffff != 0
}

/// Whether two keys of a dictionary are one: the same kind with the same
/// contents, floats by their bits with every NaN one key. Dictionaries are
/// never one key.
pub open spec fn same_key(a: ItemView, b: ItemView) -> bool {
    match (a, b) {
        (ItemView::Text(x), ItemView::Text(y)) => x == y,
        (ItemView::Scrambled(x), ItemView::Scrambled(y)) => x == y,
        (ItemView::Float(x), ItemView::Float(y)) => x == y || (nan_bits(x) && nan_bits(y)),
        (ItemView::Empty, ItemView::Empty) => true,
        (ItemView::Byte(x), ItemView::Byte(y)) => x == y,
        (ItemView::Short(x), ItemView::Short(y)) => x == y,
        (ItemView::Bool(x), ItemView::Bool(y)) => x == y,
        (ItemView::Unknown9(x), ItemView::Unknown9(y)) => x == y,
        _ => false,
    }
}

/// The first pair of `acc` whose key is one with `k`.
pub open spec fn key_position(acc: Seq<(ItemView, ItemView)>, k: ItemView) -> Option<int>
    decreases acc.len(),
{
    if acc.len() == 0 {
        None
    } else {
        match key_position(acc.drop_last(), k) {
            Some(j) => Some(j),
            None => if same_key(acc.last().0, k) {
                Some(acc.len() - 1)
            } else {
                None
            },
        }
    }
}

/// A dictionary with the pair `(k, v)` added: the value of the pair whose
/// key is one with `k` (that key kept) becomes `v`, or the pair goes last.
pub open spec fn insert_pair(acc: Seq<(ItemView, ItemView)>, k: ItemView, v: ItemView) -> Seq<(ItemView, ItemView)> {
    match key_position(acc, k) {
        Some(j) => acc.update(j, (acc[j].0, v)),
        None => acc.push((k, v)),
    }
}

/// The outcome of reading from some bytes: a value and how many bytes it
/// took, an error, or a string that the reader cannot decide on.
pub enum Parsed {
    Done(ItemView, int),
    Failed(SaveError),
    Stuck,
}

/// The little-endian `u16` at `b[i..i+2]`.
pub open spec fn le_u16(b: Seq<u8>, i: int) -> u16 {
    (b[i] as int + b[i + 1] as int * 0x100) as u16
}

/// Reading a string from `b`.
pub open spec fn parse_string(b: Seq<u8>) -> Parsed {
    match first_zero(b, 0) {
        None => Parsed::Failed(SaveError::StringNotTerminated),
        Some(z) => {
            let s = b.subrange(0, z);
            if !string_decidable(s) {
                Parsed::Stuck
            } else if vstd::utf8::valid_utf8(s) {
                Parsed::Done(ItemView::Text(vstd::utf8::decode_utf8(s)), z + 1)
            } else if s.len() % 2 != 0 {
                Parsed::Failed(SaveError::NotUtf8NorDigest)
            } else if !digest_padded(s) {
                Parsed::Failed(SaveError::BadDigestPadding)
            } else {
                Parsed::Done(ItemView::Scrambled(descramble(s)), z + 1)
            }
        },
    }
}

/// Reading an item from `b`: a tag byte, then the item's data.
pub open spec fn parse_item(b: Seq<u8>) -> Parsed
    decreases b.len(), 0int,
{
    if b.len() == 0 {
        Parsed::Failed(SaveError::MissingTag)
    } else {
        let tag = b[0];
        let rest = b.subrange(1, b.len() as int);
        if tag == 1 {
            match parse_string(rest) {
                Parsed::Done(v, c) => Parsed::Done(v, c + 1),
                other => other,
            }
        } else if tag == 2 {
            if rest.len() < 4 {
                Parsed::Failed(SaveError::MissingValue(2))
            } else {
                Parsed::Done(ItemView::Float(le_u32(rest, 0)), 5)
            }
        } else if tag == 3 {
            Parsed::Done(ItemView::Empty, 1)
        } else if tag == 4 {
            if rest.len() < 1 {
                Parsed::Failed(SaveError::MissingValue(4))
            } else {
                Parsed::Done(ItemView::Byte(rest[0]), 2)
            }
        } else if tag == 5 {
            if rest.len() < 2 {
                Parsed::Failed(SaveError::MissingValue(5))
            } else {
                Parsed::Done(ItemView::Short(le_u16(rest, 0)), 3)
            }
        } else if tag == 6 {
            if rest.len() < 1 {
                Parsed::Failed(SaveError::MissingValue(6))
            } else {
                Parsed::Done(ItemView::Bool(rest[0] != 0), 2)
            }
        } else if tag == 7 {
            if rest.len() < 4 {
                Parsed::Failed(SaveError::MissingDictionaryLength)
            } else {
                match parse_pairs(rest.subrange(4, rest.len() as int), le_u32(rest, 0) as int, Seq::empty()) {
                    Parsed::Done(v, c) => Parsed::Done(v, c + 5),
                    other => other,
                }
            }
        } else if tag == 9 {
            if rest.len() < 12 {
                Parsed::Failed(SaveError::MissingValue(9))
            } else {
                Parsed::Done(ItemView::Unknown9(rest.subrange(0, 12)), 13)
            }
        } else {
            Parsed::Failed(SaveError::InvalidTag(tag))
        }
    }
}

/// Reading `n` more key and value pairs of a dictionary from `b`, after the
/// pairs `acc`.
pub open spec fn parse_pairs(b: Seq<u8>, n: int, acc: Seq<(ItemView, ItemView)>) -> Parsed
    decreases b.len(), 1int,
{
    if n <= 0 {
        Parsed::Done(ItemView::Dictionary(acc), 0)
    } else {
        match parse_item(b) {
            Parsed::Done(k, c1) => if c1 <= 0 || c1 > b.len() {
                Parsed::Stuck
            } else {
                let b1 = b.subrange(c1, b.len() as int);
                match parse_item(b1) {
                    Parsed::Done(v, c2) => if c2 <= 0 || c2 > b1.len() {
                        Parsed::Stuck
                    } else {
                        match parse_pairs(b1.subrange(c2, b1.len() as int), n - 1, insert_pair(acc, k, v)) {
                            Parsed::Done(d, c3) => Parsed::Done(d, c1 + c2 + c3),
                            other => other,
                        }
                    },
                    other => other,
                }
            },
            other => other,
        }
    }
}

/// What reading an item takes lies within the bytes, and is at least its tag.
proof fn lemma_parse_item_takes(b: Seq<u8>)
    ensures
        parse_item(b) matches Parsed::Done(_, c) ==> 0 < c <= b.len(),
    decreases b.len(), 0int,
{
    if b.len() > 0 {
        let rest = b.subrange(1, b.len() as int);
        if b[0] == 1 {
            if let Some(z) = first_zero(rest, 0) {
                lemma_first_zero_range(rest, 0);
            }
        } else if b[0] == 7 && rest.len() >= 4 {
            lemma_parse_pairs_takes(rest.subrange(4, rest.len() as int), le_u32(rest, 0) as int, Seq::empty());
        }
    }
}

/// What reading pairs takes lies within the bytes.
proof fn lemma_parse_pairs_takes(b: Seq<u8>, n: int, acc: Seq<(ItemView, ItemView)>)
    ensures
        parse_pairs(b, n, acc) matches Parsed::Done(_, c) ==> 0 <= c <= b.len(),
    decreases b.len(), 1int,
{
    if n > 0 {
        lemma_parse_item_takes(b);
        if let Parsed::Done(k, c1) = parse_item(b) {
            if 0 < c1 <= b.len() {
                let b1 = b.subrange(c1, b.len() as int);
                lemma_parse_item_takes(b1);
                if let Parsed::Done(v, c2) = parse_item(b1) {
                    if 0 < c2 <= b1.len() {
                        lemma_parse_pairs_takes(b1.subrange(c2, b1.len() as int), n - 1, insert_pair(acc, k, v));
                    }
                }
            }
        }
    }
}

/// `first_zero` finds a zero at or after where it starts.
proof fn lemma_first_zero_range(b: Seq<u8>, i: int)
    ensures
        first_zero(b, i) matches Some(z) ==> i <= z < b.len() && b[z] == 0,
    decreases b.len() - i,
{
    if 0 <= i < b.len() && b[i] != 0 {
        lemma_first_zero_range(b, i + 1);
    }
}

/// The views of pairs, pair by pair.
proof fn lemma_pairs_view(s: Seq<(DataItem, DataItem)>)
    ensures
        pairs_view(s).len() == s.len(),
        forall|i: int| 0 <= i < s.len() ==> #[trigger] pairs_view(s)[i] == (s[i].0@, s[i].1@),
    decreases s.len(),
{
    if s.len() > 0 {
        lemma_pairs_view(s.drop_last());
    }
}

/// Whether two keys of a dictionary are one.
fn keys_match(a: &DataItem, b: &DataItem) -> (r: bool)
    ensures
        r == same_key(a@, b@),
{
    match (a, b) {
        (DataItem::String(x), DataItem::String(y)) => crate::text::same_text(x.as_str(), y.as_str()),
        (DataItem::ScrambledString(x), DataItem::ScrambledString(y)) => crate::filesystem::bytes_equal(x.as_slice(), y.as_slice()),
        (DataItem::Float(x), DataItem::Float(y)) => {
            let nx = *x & 0x7f80_0000 == 0x7f80_0000 && *x & 0x007f_ffff != 0;
            let ny = *y & 0x7f80_0000 == 0x7f80_0000 && *y & 0x007f_ffff != 0;
            *x == *y || (nx && ny)
        },
        (DataItem::Empty, DataItem::Empty) => true,
        (DataItem::Byte(x), DataItem::Byte(y)) => *x == *y,
        (DataItem::Short(x), DataItem::Short(y)) => *x == *y,
        (DataItem::Bool(x), DataItem::Bool(y)) => *x == *y,
        (DataItem::Unknown9(x), DataItem::Unknown9(y)) => crate::filesystem::bytes_equal(x, y),
        _ => false,
    }
}

/// Adds the pair `(k, v)` to a dictionary as `insert_pair` does.
fn add_pair(res: &mut Vec<(DataItem, DataItem)>, k: DataItem, v: DataItem)
    ensures
        pairs_view(final(res)@) == insert_pair(pairs_view(old(res)@), k@, v@),
{
    proof {
        lemma_pairs_view(res@);
    }
    let ghost acc = pairs_view(res@);
    let mut j: usize = 0;
    let mut found = false;
    while j < res.len() && !found
        invariant
            acc == pairs_view(res@),
            acc.len() == res@.len(),
            forall|i: int| 0 <= i < res@.len() ==> #[trigger] acc[i] == (res@[i].0@, res@[i].1@),
            j <= res@.len(),
            found ==> j < res@.len() && same_key(acc[j as int].0, k@),
            forall|i: int| 0 <= i < j ==> !same_key((#[trigger] acc[i]).0, k@),
        decreases (res.len() - j) * 2 + if found { 0int } else { 1int },
    {
        if keys_match(&res[j].0, &k) {
            found = true;
        } else {
            j = j + 1;
        }
    }
    proof {
        lemma_key_position(acc, k@);
    }
    if found {
        res[j].1 = v;
        proof {
            lemma_pairs_view(res@);
            assert(pairs_view(res@) =~= acc.update(j as int, (acc[j as int].0, v@)));
        }
    } else {
        res.push((k, v));
        assert(res@.drop_last() =~= old(res)@);
    }
}

/// `key_position` finds the first pair whose key is one with `k`.
proof fn lemma_key_position(acc: Seq<(ItemView, ItemView)>, k: ItemView)
    ensures
        match key_position(acc, k) {
            Some(j) => 0 <= j < acc.len() && same_key(acc[j].0, k) && forall|i: int| 0 <= i < j ==> !same_key((#[trigger] acc[i]).0, k),
            None => forall|i: int| 0 <= i < acc.len() ==> !same_key((#[trigger] acc[i]).0, k),
        },
    decreases acc.len(),
{
    if acc.len() > 0 {
        let w = acc.drop_last();
        lemma_key_position(w, k);
        assert(acc.last() == acc[acc.len() - 1]);
        match key_position(w, k) {
            Some(j) => {
                assert(w[j] == acc[j]);
                assert forall|i: int| 0 <= i < j implies !same_key((#[trigger] acc[i]).0, k) by {
                    assert(w[i] == acc[i]);
                }
            },
            None => {
                assert forall|i: int| 0 <= i < acc.len() - 1 implies !same_key((#[trigger] acc[i]).0, k) by {
                    assert(w[i] == acc[i]);
                }
            },
        }
    }
}

/// Reading a dictionary from `b`: its number of pairs, then the pairs.
pub open spec fn parse_dictionary(b: Seq<u8>) -> Parsed {
    if b.len() < 4 {
        Parsed::Failed(SaveError::MissingDictionaryLength)
    } else {
        match parse_pairs(b.subrange(4, b.len() as int), le_u32(b, 0) as int, Seq::empty()) {
            Parsed::Done(v, c) => Parsed::Done(v, c + 4),
            other => other,
        }
    }
}

/// What `read_item` or `read_dictionary` does with `old` and leaves in
/// `after`, as `p` says.
pub open spec fn reads_as<T: View<V = ItemView>>(p: Parsed, old: Seq<u8>, r: Result<T, SaveError>, after: Seq<u8>) -> bool {
    match p {
        Parsed::Done(v, c) => r matches Ok(it) && it@ == v && after == old.subrange(c, old.len() as int),
        Parsed::Failed(e) => r matches Err(e2) && e2 == e,
        Parsed::Stuck => false,
    }
}

impl View for DataItem {
    type V = ItemView;

    open spec fn view(&self) -> ItemView {
        DataItem::view(self)
    }
}

/// The little-endian `u16` of two bytes.
fn u16_of(b0: u8, b1: u8) -> (r: u16)
    ensures
        r == le_u16(seq![b0, b1], 0),
{
    (b0 as u16) + (b1 as u16) * 256
}

/// Reads an item: a tag byte (1 string, 2 float, 3 empty, 4 byte, 5 short,
/// 6 bool, 7 dictionary, 9 twelve unknown bytes), then its data.
pub fn read_item(bytes: &mut &[u8]) -> (r: Result<DataItem, SaveError>)
    requires
        !(parse_item(old(bytes)@) is Stuck),
    ensures
        reads_as(parse_item(old(bytes)@), old(bytes)@, r, final(bytes)@),
    decreases old(bytes)@.len(), 0int,
{
    let ghost b = bytes@;
    let tag = match take_bytes(bytes, 1) {
        None => {
            return Err(SaveError::MissingTag);
        },
        Some(t) => t[0],
    };
    let ghost rest = b.subrange(1, b.len() as int);
    assert(bytes@ == rest);
    if tag == 1 {
        let s = match read_string(bytes) {
            Ok(s) => s,
            Err(e) => {
                return Err(e);
            },
        };
        proof {
            lemma_first_zero_range(rest, 0);
            assert(bytes@ =~= b.subrange(first_zero(rest, 0)->0 + 2, b.len() as int));
        }
        match s {
            SaveString::Text(t) => {
                proof {
                    vstd::utf8::encode_utf8_decode_utf8(t@);
                }
                Ok(DataItem::String(t))
            },
            SaveString::Scrambled(d) => Ok(DataItem::ScrambledString(d)),
        }
    } else if tag == 2 {
        match take_u32(bytes) {
            None => Err(SaveError::MissingValue(2)),
            Some(f) => {
                assert(bytes@ =~= b.subrange(5, b.len() as int));
                Ok(DataItem::Float(f))
            },
        }
    } else if tag == 3 {
        Ok(DataItem::Empty)
    } else if tag == 4 {
        match take_bytes(bytes, 1) {
            None => Err(SaveError::MissingValue(4)),
            Some(v) => {
                assert(bytes@ =~= b.subrange(2, b.len() as int));
                Ok(DataItem::Byte(v[0]))
            },
        }
    } else if tag == 5 {
        match take_bytes(bytes, 2) {
            None => Err(SaveError::MissingValue(5)),
            Some(v) => {
                assert(bytes@ =~= b.subrange(3, b.len() as int));
                assert(seq![v[0], v[1]] =~= rest.subrange(0, 2));
                Ok(DataItem::Short(u16_of(v[0], v[1])))
            },
        }
    } else if tag == 6 {
        match take_bytes(bytes, 1) {
            None => Err(SaveError::MissingValue(6)),
            Some(v) => {
                assert(bytes@ =~= b.subrange(2, b.len() as int));
                Ok(DataItem::Bool(v[0] != 0))
            },
        }
    } else if tag == 7 {
        let d = match read_dictionary(bytes) {
            Ok(d) => d,
            Err(e) => {
                return Err(e);
            },
        };
        proof {
            lemma_parse_pairs_takes(rest.subrange(4, rest.len() as int), le_u32(rest, 0) as int, Seq::empty());
        }
        assert(bytes@ =~= b.subrange(parse_item(b)->Done_1, b.len() as int));
        Ok(DataItem::Dictionary(d))
    } else if tag == 9 {
        match take_bytes(bytes, 12) {
            None => Err(SaveError::MissingValue(9)),
            Some(v) => {
                assert(bytes@ =~= b.subrange(13, b.len() as int));
                let a: [u8; 12] = [v[0], v[1], v[2], v[3], v[4], v[5], v[6], v[7], v[8], v[9], v[10], v[11]];
                assert(a@ =~= rest.subrange(0, 12));
                Ok(DataItem::Unknown9(a))
            },
        }
    } else {
        Err(SaveError::InvalidTag(tag))
    }
}

/// Reads a dictionary: its number of pairs as a `u32`, then each pair's key
/// and value. A pair whose key is one with an earlier pair's key gives that
/// pair its value.
pub fn read_dictionary(bytes: &mut &[u8]) -> (r: Result<Vec<(DataItem, DataItem)>, SaveError>)
    requires
        !(parse_dictionary(old(bytes)@) is Stuck),
    ensures
        match parse_dictionary(old(bytes)@) {
            Parsed::Done(v, c) => r matches Ok(d) && v == ItemView::Dictionary(pairs_view(d@))
                && final(bytes)@ == old(bytes)@.subrange(c, old(bytes)@.len() as int),
            Parsed::Failed(e) => r matches Err(e2) && e2 == e,
            Parsed::Stuck => false,
        },
    decreases old(bytes)@.len(), 1int,
{
    let ghost b = bytes@;
    let len = match take_u32(bytes) {
        None => {
            return Err(SaveError::MissingDictionaryLength);
        },
        Some(n) => n,
    };
    let ghost start = bytes@;
    let mut res: Vec<(DataItem, DataItem)> = Vec::new();
    let mut i: u32 = 0;
    while i < len
        invariant
            old(bytes)@ == b,
            b.len() >= 4,
            start == b.subrange(4, b.len() as int),
            len == le_u32(b, 0),
            i <= len,
            bytes@.len() <= start.len(),
            start.len() < b.len(),
            bytes@ == start.subrange(start.len() - bytes@.len(), start.len() as int),
            parse_pairs(start, len as int, Seq::empty()) == match parse_pairs(bytes@, (len - i) as int, pairs_view(res@)) {
                Parsed::Done(v, c) => Parsed::Done(v, c + (start.len() - bytes@.len())),
                other => other,
            },
            !(parse_pairs(start, len as int, Seq::empty()) is Stuck),
        decreases len - i,
    {
        let ghost cur = bytes@;
        proof {
            lemma_parse_item_takes(cur);
        }
        let key = match read_item(bytes) {
            Ok(k) => k,
            Err(e) => {
                return Err(e);
            },
        };
        let ghost cur1 = bytes@;
        proof {
            lemma_parse_item_takes(cur1);
        }
        let value = match read_item(bytes) {
            Ok(v) => v,
            Err(e) => {
                return Err(e);
            },
        };
        add_pair(&mut res, key, value);
        proof {
            assert(bytes@ =~= start.subrange(start.len() - bytes@.len(), start.len() as int));
        }
        i = i + 1;
    }
    assert(bytes@ =~= b.subrange(parse_dictionary(b)->Done_1, b.len() as int));
    Ok(res)
}

/// Save data: a head block, the body item, and a foot block.
#[derive(Debug)]
pub struct SaveData {
    pub head: Vec<u8>,
    pub body: DataItem,
    pub foot: Vec<u8>,
}

/// What reading a data block from `b` gives: the body and how many bytes
/// the block takes, or an error.
pub open spec fn block_outcome(b: Seq<u8>) -> Result<(Seq<u8>, int), SaveError> {
    if b.len() < 4 {
        Err(SaveError::MissingBlockSize)
    } else if b.len() < 8 {
        Err(SaveError::MissingBlockVersion)
    } else if le_u32(b, 4) != 10 {
        Err(SaveError::UnknownBlockVersion(le_u32(b, 4)))
    } else {
        let end = 8 + le_u32(b, 0) - 20;
        Ok((b.subrange(8, end), end + 16))
    }
}

/// The outcome of reading save data.
pub enum SaveParsed {
    Done(Seq<u8>, ItemView, Seq<u8>),
    Failed(SaveError),
    Stuck,
}

/// Reading save data from `b`: the version, 10, then the head, body and
/// foot blocks; the body block holds the body item.
pub open spec fn parse_save(b: Seq<u8>) -> SaveParsed {
    if b.len() < 4 {
        SaveParsed::Failed(SaveError::MissingVersion)
    } else if le_u32(b, 0) != 10 {
        SaveParsed::Failed(SaveError::UnknownVersion(le_u32(b, 0)))
    } else {
        let b1 = b.subrange(4, b.len() as int);
        if !datablock_fits(b1) {
            SaveParsed::Stuck
        } else {
            match block_outcome(b1) {
                Err(e) => SaveParsed::Failed(e),
                Ok((head, c1)) => {
                    let b2 = b1.subrange(c1, b1.len() as int);
                    if !datablock_fits(b2) {
                        SaveParsed::Stuck
                    } else {
                        match block_outcome(b2) {
                            Err(e) => SaveParsed::Failed(e),
                            Ok((body, c2)) => match parse_item(body) {
                                Parsed::Stuck => SaveParsed::Stuck,
                                Parsed::Failed(e) => SaveParsed::Failed(e),
                                Parsed::Done(v, _) => {
                                    let b3 = b2.subrange(c2, b2.len() as int);
                                    if !datablock_fits(b3) {
                                        SaveParsed::Stuck
                                    } else {
                                        match block_outcome(b3) {
                                            Err(e) => SaveParsed::Failed(e),
                                            Ok((foot, _)) => SaveParsed::Done(head, v, foot),
                                        }
                                    }
                                },
                            },
                        }
                    }
                },
            }
        }
    }
}

/// Reads a data block, as `block_outcome` says.
fn read_block(bytes: &mut &[u8]) -> (r: Result<Vec<u8>, SaveError>)
    requires
        datablock_fits(old(bytes)@),
    ensures
        match block_outcome(old(bytes)@) {
            Ok((body, c)) => r matches Ok(v) && v@ == body && final(bytes)@ == old(bytes)@.subrange(c, old(bytes)@.len() as int),
            Err(e) => r matches Err(e2) && e2 == e,
        },
{
    read_datablock(bytes)
}

/// Reads save data.
pub fn parse(data: &[u8]) -> (r: Result<SaveData, SaveError>)
    requires
        !(parse_save(data@) is Stuck),
    ensures
        match parse_save(data@) {
            SaveParsed::Done(head, body, foot) => r matches Ok(sd) && sd.head@ == head && sd.body@ == body && sd.foot@ == foot,
            SaveParsed::Failed(e) => r matches Err(e2) && e2 == e,
            SaveParsed::Stuck => false,
        },
{
    let mut cursor: &[u8] = data;
    let version = match take_u32(&mut cursor) {
        None => {
            return Err(SaveError::MissingVersion);
        },
        Some(v) => v,
    };
    if version != 10 {
        return Err(SaveError::UnknownVersion(version));
    }
    let head = match read_block(&mut cursor) {
        Ok(h) => h,
        Err(e) => {
            return Err(e);
        },
    };
    let body_bytes = match read_block(&mut cursor) {
        Ok(h) => h,
        Err(e) => {
            return Err(e);
        },
    };
    let mut body_cursor: &[u8] = body_bytes.as_slice();
    let body = match read_item(&mut body_cursor) {
        Ok(it) => it,
        Err(e) => {
            return Err(e);
        },
    };
    let foot = match read_block(&mut cursor) {
        Ok(f) => f,
        Err(e) => {
            return Err(e);
        },
    };
    Ok(SaveData { head, body, foot })
}

/// No two pairs of a dictionary have one key.
pub open spec fn keys_distinct(d: Seq<(ItemView, ItemView)>) -> bool {
    forall|a: int, b: int| 0 <= a < b < d.len() ==> !same_key((#[trigger] d[a]).0, (#[trigger] d[b]).0)
}

/// Adding a pair keeps the keys distinct.
proof fn lemma_insert_keeps_distinct(acc: Seq<(ItemView, ItemView)>, k: ItemView, v: ItemView)
    requires
        keys_distinct(acc),
    ensures
        keys_distinct(insert_pair(acc, k, v)),
{
    lemma_key_position(acc, k);
    let r = insert_pair(acc, k, v);
    match key_position(acc, k) {
        Some(j) => {
            assert forall|a: int, b: int| 0 <= a < b < r.len() implies !same_key((#[trigger] r[a]).0, (#[trigger] r[b]).0) by {
                assert(r[a].0 == acc[a].0 && r[b].0 == acc[b].0);
            }
        },
        None => {
            assert forall|a: int, b: int| 0 <= a < b < r.len() implies !same_key((#[trigger] r[a]).0, (#[trigger] r[b]).0) by {
                assert(r[a] == acc[a]);
                if b < acc.len() {
                    assert(r[b] == acc[b]);
                }
            }
        },
    }
}

proof fn lemma_pairs_keys_distinct(b: Seq<u8>, n: int, acc: Seq<(ItemView, ItemView)>)
    requires
        keys_distinct(acc),
    ensures
        parse_pairs(b, n, acc) matches Parsed::Done(ItemView::Dictionary(d), _) ==> keys_distinct(d),
    decreases b.len(), 1int,
{
    if n > 0 {
        if let Parsed::Done(k, c1) = parse_item(b) {
            if 0 < c1 <= b.len() {
                let b1 = b.subrange(c1, b.len() as int);
                if let Parsed::Done(v, c2) = parse_item(b1) {
                    if 0 < c2 <= b1.len() {
                        lemma_insert_keeps_distinct(acc, k, v);
                        lemma_pairs_keys_distinct(b1.subrange(c2, b1.len() as int), n - 1, insert_pair(acc, k, v));
                    }
                }
            }
        }
    }
}

/// A dictionary read from save data never holds two pairs with one key.
pub proof fn lemma_read_keys_distinct(b: Seq<u8>)
    ensures
        parse_item(b) matches Parsed::Done(ItemView::Dictionary(d), _) ==> keys_distinct(d),
        parse_dictionary(b) matches Parsed::Done(ItemView::Dictionary(d), _) ==> keys_distinct(d),
{
    if b.len() > 0 && b[0] == 7 {
        let rest = b.subrange(1, b.len() as int);
        if rest.len() >= 4 {
            lemma_pairs_keys_distinct(rest.subrange(4, rest.len() as int), le_u32(rest, 0) as int, Seq::empty());
        }
    }
    if b.len() >= 4 {
        lemma_pairs_keys_distinct(b.subrange(4, b.len() as int), le_u32(b, 0) as int, Seq::empty());
    }
}

/// How reading from some bytes ends, without the value read: after so many
/// bytes, with an error, or on a string that cannot be decided on.
pub enum Walk {
    Done(usize),
    Failed,
    Stuck,
}

/// `w` is how the reading `p` ends.
pub open spec fn walks_as(w: Walk, p: Parsed) -> bool {
    match (w, p) {
        (Walk::Done(k), Parsed::Done(_, c)) => k == c,
        (Walk::Failed, Parsed::Failed(_)) => true,
        (Walk::Stuck, Parsed::Stuck) => true,
        _ => false,
    }
}

/// Whether a data block lies within `b`, as `datablock_fits` says.
fn datablock_fits_check(b: &[u8]) -> (r: bool)
    ensures
        r == datablock_fits(b@),
{
    let n = b.len();
    if n < 8 {
        return true;
    }
    if crate::read_helpers::read_u32_le(b, 4) != 10 {
        return true;
    }
    let size = crate::read_helpers::read_u32_le(b, 0) as u64;
    size >= 20 && 8 + (size - 20) + 16 <= n as u64
}

/// How reading a string from `b` ends.
fn walk_string(b: &[u8]) -> (r: Walk)
    ensures
        walks_as(r, parse_string(b@)),
{
    let n = b.len();
    let mut z: usize = 0;
    while z < n && b[z] != 0
        invariant
            z <= n,
            n == b@.len(),
            first_zero(b@, z as int) == first_zero(b@, 0),
        decreases n - z,
    {
        z += 1;
    }
    if z == n {
        return Walk::Failed;
    }
    proof {
        lemma_first_zero_range(b@, 0);
    }
    let s = vstd::slice::slice_subrange(b, 0, z);
    let text = utf8_str(s).is_ok();
    let pairs = z / 2;
    let mut padded = true;
    let mut k: usize = 0;
    while k < pairs && k < 12
        invariant
            z <= n,
            n == b@.len(),
            s@ == b@.subrange(0, z as int),
            pairs == s@.len() / 2,
            k <= pairs,
            k <= 12,
            padded == (forall|j: int| 0 <= j < k ==> #[trigger] s@[2 * j + 1] == STRING_PADDING@[j]),
        decreases 12 - k,
    {
        if s[2 * k + 1] != STRING_PADDING[k] {
            padded = false;
        }
        k += 1;
    }
    assert(k == pairs || k == 12);
    assert(padded == digest_padded(s@)) by {
        if padded {
            assert forall|j: int| 0 <= j < s@.len() / 2 && j < 12 implies #[trigger] s@[2 * j + 1] == STRING_PADDING@[j] by {}
        } else {
            let j = choose|j: int| 0 <= j < k && !(#[trigger] s@[2 * j + 1] == STRING_PADDING@[j]);
            assert(0 <= j < s@.len() / 2 && j < 12);
        }
    }
    if !(text || z % 2 != 0 || pairs <= 12 || !padded) {
        Walk::Stuck
    } else if text {
        Walk::Done(z + 1)
    } else if z % 2 != 0 || !padded {
        Walk::Failed
    } else {
        Walk::Done(z + 1)
    }
}

/// How reading an item from `b` ends.
fn walk_item(b: &[u8]) -> (r: Walk)
    ensures
        walks_as(r, parse_item(b@)),
    decreases b@.len(), 0int,
{
    let n = b.len();
    if n == 0 {
        return Walk::Failed;
    }
    let tag = b[0];
    let rest = vstd::slice::slice_subrange(b, 1, n);
    if tag == 1 {
        match walk_string(rest) {
            Walk::Done(c) => {
                proof {
                    lemma_first_zero_range(rest@, 0);
                }
                Walk::Done(c + 1)
            },
            other => other,
        }
    } else if tag == 2 {
        if rest.len() < 4 { Walk::Failed } else { Walk::Done(5) }
    } else if tag == 3 {
        Walk::Done(1)
    } else if tag == 4 || tag == 6 {
        if rest.len() < 1 { Walk::Failed } else { Walk::Done(2) }
    } else if tag == 5 {
        if rest.len() < 2 { Walk::Failed } else { Walk::Done(3) }
    } else if tag == 7 {
        if rest.len() < 4 {
            Walk::Failed
        } else {
            let count = crate::read_helpers::read_u32_le(rest, 0);
            let body = vstd::slice::slice_subrange(rest, 4, rest.len());
            proof {
                lemma_parse_pairs_takes(body@, count as int, Seq::empty());
            }
            match walk_pairs(body, count, Ghost(Seq::empty())) {
                Walk::Done(c) => Walk::Done(c + 5),
                other => other,
            }
        }
    } else if tag == 9 {
        if rest.len() < 12 { Walk::Failed } else { Walk::Done(13) }
    } else {
        Walk::Failed
    }
}

/// How reading `count` more pairs from `b`, after the pairs `acc`, ends.
fn walk_pairs(b: &[u8], count: u32, Ghost(acc): Ghost<Seq<(ItemView, ItemView)>>) -> (r: Walk)
    ensures
        walks_as(r, parse_pairs(b@, count as int, acc)),
    decreases b@.len(), 1int,
{
    let n = b.len();
    let mut pos: usize = 0;
    let mut i: u32 = 0;
    let ghost mut cur_acc = acc;
    assert(b@.subrange(0, n as int) =~= b@);
    while i < count
        invariant
            n == b@.len(),
            pos <= n,
            i <= count,
            parse_pairs(b@, count as int, acc) == match parse_pairs(b@.subrange(pos as int, n as int), (count - i) as int, cur_acc) {
                Parsed::Done(v, c) => Parsed::Done(v, c + pos),
                other => other,
            },
        decreases count - i,
    {
        let cur = vstd::slice::slice_subrange(b, pos, n);
        proof {
            lemma_parse_item_takes(cur@);
        }
        let c1 = match walk_item(cur) {
            Walk::Done(c) => c,
            Walk::Failed => return Walk::Failed,
            Walk::Stuck => return Walk::Stuck,
        };
        let ghost key = parse_item(cur@)->Done_0;
        let b1 = vstd::slice::slice_subrange(cur, c1, cur.len());
        proof {
            lemma_parse_item_takes(b1@);
        }
        let c2 = match walk_item(b1) {
            Walk::Done(c) => c,
            Walk::Failed => return Walk::Failed,
            Walk::Stuck => return Walk::Stuck,
        };
        let ghost value = parse_item(b1@)->Done_0;
        proof {
            assert(b1@.subrange(c2 as int, b1@.len() as int) =~= b@.subrange(pos + c1 + c2, n as int));
            cur_acc = insert_pair(cur_acc, key, value);
        }
        pos = pos + c1 + c2;
        i = i + 1;
    }
    Walk::Done(pos)
}

/// Whether `parse` can read `data` to an end, without a string it cannot
/// decide on and with each data block within the bytes.
pub fn save_readable(data: &[u8]) -> (r: bool)
    ensures
        r == !(parse_save(data@) is Stuck),
{
    let n = data.len();
    if n < 4 {
        return true;
    }
    if crate::read_helpers::read_u32_le(data, 0) != 10 {
        return true;
    }
    let b1 = vstd::slice::slice_subrange(data, 4, n);
    if !datablock_fits_check(b1) {
        return false;
    }
    let c1 = match block_end(b1) {
        None => return true,
        Some(c) => c,
    };
    let b2 = vstd::slice::slice_subrange(b1, c1, b1.len());
    if !datablock_fits_check(b2) {
        return false;
    }
    let c2 = match block_end(b2) {
        None => return true,
        Some(c) => c,
    };
    let size = crate::read_helpers::read_u32_le(b2, 0) as usize;
    let body = vstd::slice::slice_subrange(b2, 8, 8 + (size - 20));
    match walk_item(body) {
        Walk::Stuck => return false,
        Walk::Failed => return true,
        Walk::Done(_) => {},
    }
    let b3 = vstd::slice::slice_subrange(b2, c2, b2.len());
    datablock_fits_check(b3)
}

/// Where a data block that fits in `b` ends, or `None` where reading it fails.
fn block_end(b: &[u8]) -> (r: Option<usize>)
    requires
        datablock_fits(b@),
    ensures
        match block_outcome(b@) {
            Ok((_, c)) => r == Some(c as usize) && 0 <= c <= b@.len(),
            Err(_) => r is None,
        },
{
    let n = b.len();
    if n < 8 {
        return None;
    }
    if crate::read_helpers::read_u32_le(b, 4) != 10 {
        return None;
    }
    let size = crate::read_helpers::read_u32_le(b, 0) as usize;
    Some((size - 20) + 24)
}

} // verus!
