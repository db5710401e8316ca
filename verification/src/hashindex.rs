//! Idstrings and the hashlist: a lookup from hashes back to the strings
//! they were made from.
use vstd::prelude::*;
use crate::diesel_hash;
use crate::diesel_hash::{digits_value, spec_parse_radix, spec_from_bytes};
use crate::text::{push_char, bytes_of, cuttable, str_slice};
use std::collections::HashMap;

verus! {

/// An Idstring, printed as sixteen lowercase hex digits.
#[derive(Copy, Clone, PartialEq, Eq, PartialOrd, Ord, Debug, Hash, Structural)]
pub struct Hash(pub u64);

/// The lowercase hex digit with value `d`.
pub open spec fn hex_digit(d: int) -> char {
    if d < 10 {
        (48 + d) as char
    } else {
        (87 + d) as char
    }
}

/// The `j`th hex digit of `h`, counting from the most significant of sixteen.
pub open spec fn nibble(h: u64, j: int) -> u64 {
    (h >> ((4 * (15 - j)) as u64)) & 0xf
}

/// `h` as sixteen zero-padded lowercase hex digits, as `{:>016x}` prints it.
pub open spec fn spec_hex16(h: u64) -> Seq<char> {
    Seq::new(16, |j: int| hex_digit(nibble(h, j) as int))
}

impl Hash {
    /// The hash as sixteen zero-padded lowercase hex digits.
    pub fn to_hex_string(&self) -> (s: String)
        ensures
            s@ == spec_hex16(self.0),
    {
        hex16_string(self.0)
    }
}

/// `h` as sixteen zero-padded lowercase hex digits.
pub fn hex16_string(h: u64) -> (s: String)
    ensures
        s@ == spec_hex16(h),
{
    let mut s = String::new();
    let mut i: u64 = 0;
    while i < 16
        invariant
            i <= 16,
            s@ =~= spec_hex16(h).take(i as int),
        decreases 16 - i,
    {
        let sh: u64 = 4 * (15 - i);
        let d: u64 = (h >> sh) & 0xf;
        assert(d < 16) by (bit_vector)
            requires
                d == (h >> sh) & 0xf,
        ;
        let c: char = if d < 10 {
            ((48 + d) as u8) as char
        } else {
            ((87 + d) as u8) as char
        };
        assert(c == hex_digit(nibble(h, i as int) as int));
        push_char(&mut s, c);
        i += 1;
    }
    s
}

proof fn lemma_nibble_step(h: u64, k: u64)
    by (bit_vector)
    requires
        k < 15,
    ensures
        (h >> ((4 * (k + 1)) as u64)) * 16 + ((h >> ((4 * k) as u64)) & 0xf) == h >> ((4 * k) as u64),
        (h >> 60u64) & 0xf == h >> 60u64,
        h >> 0u64 == h,
{
}

proof fn lemma_hex16_bytes(h: u64)
    ensures
        vstd::utf8::encode_utf8(spec_hex16(h)).len() == 16,
        forall|i: int| 0 <= i < 16 ==> #[trigger] nibble(h, i) < 16,
        forall|i: int|
            0 <= i < 16 ==> diesel_hash::digit_value(
                #[trigger] vstd::utf8::encode_utf8(spec_hex16(h))[i],
                16,
            ) == Some(nibble(h, i) as u32),
{
    let cs = spec_hex16(h);
    let b = vstd::utf8::encode_utf8(cs);
    assert forall|j: int| 0 <= j < 16 implies nibble(h, j) < 16 by {
        let sh = (4 * (15 - j)) as u64;
        assert((h >> sh) & 0xf < 16) by (bit_vector);
    }
    assert(vstd::utf8::is_ascii_chars(cs));
    vstd::utf8::is_ascii_chars_encode_utf8(cs);
    assert forall|i: int| 0 <= i < 16 implies diesel_hash::digit_value(b[i], 16) == Some(
        nibble(h, i) as u32,
    ) by {
        assert(cs[i] as u8 == b[i]);
    }
}

proof fn lemma_hex16_prefix_value(h: u64, j: int)
    requires
        0 <= j <= 16,
    ensures
        digits_value(vstd::utf8::encode_utf8(spec_hex16(h)).take(j), 16) == Some(if j == 0 {
            0nat
        } else {
            (h >> ((4 * (16 - j)) as u64)) as nat
        }),
    decreases j,
{
    let b = vstd::utf8::encode_utf8(spec_hex16(h));
    lemma_hex16_bytes(h);
    if j == 0 {
        assert(b.take(0) =~= Seq::<u8>::empty());
    } else {
        lemma_hex16_prefix_value(h, j - 1);
        assert(b.take(j).drop_last() =~= b.take(j - 1));
        assert(b.take(j).last() == b[j - 1]);
        assert(diesel_hash::digit_value(b[j - 1], 16) == Some(nibble(h, j - 1) as u32));
        let d = nibble(h, j - 1);
        let prev: nat = if j == 1 {
            0nat
        } else {
            (h >> ((4 * (16 - (j - 1))) as u64)) as nat
        };
        assert(digits_value(b.take(j), 16) == Some(prev * 16 + d as nat));
        if j == 1 {
            lemma_nibble_step(h, 0);
            assert(d == h >> 60u64);
        } else {
            let k = (16 - j) as u64;
            lemma_nibble_step(h, k);
            assert((4 * (k + 1)) as u64 == (4 * (16 - (j - 1))) as u64);
            assert(d == (h >> ((4 * k) as u64)) & 0xf);
        }
    }
}

/// Reading the printed form of a hash back with `from_str` gives the hash.
pub proof fn lemma_from_str_inverts_hex16(h: u64)
    ensures
        diesel_hash::spec_from_str(spec_hex16(h)) == h,
{
    let b = vstd::utf8::encode_utf8(spec_hex16(h));
    lemma_hex16_bytes(h);
    lemma_hex16_prefix_value(h, 16);
    lemma_nibble_step(h, 0);
    assert(b.take(16) =~= b);
    assert(b[0] != 43u8);
    assert(spec_parse_radix(b, 16) == Some(h));
}

/// A hash and, if the hashlist knows it, the text it was made from.
#[derive(Clone, Copy, Debug)]
pub struct HashedStr<'a> {
    pub hash: u64,
    pub text: Option<&'a str>,
}

impl<'a> PartialEq for HashedStr<'a> {
    fn eq(&self, other: &HashedStr<'a>) -> (r: bool) {
        self.hash == other.hash
    }
}

impl<'a> vstd::std_specs::cmp::PartialEqSpecImpl for HashedStr<'a> {
    open spec fn obeys_eq_spec() -> bool {
        true
    }

    open spec fn eq_spec(&self, other: &HashedStr<'a>) -> bool {
        self.hash == other.hash
    }
}

impl<'a> Eq for HashedStr<'a> {}

/// Whether the character is an ASCII digit or letter, as every character of
/// a printed hash is.
pub open spec fn is_hash_like_char(c: char) -> bool {
    let v = c as u32;
    (48 <= v <= 57) || (97 <= v <= 122) || (65 <= v <= 90)
}

/// Whether a text looks like a printed hash: sixteen bytes, each a character
/// of `is_hash_like_char`.
pub open spec fn spec_is_hash_like(t: Seq<char>) -> bool {
    &&& vstd::utf8::encode_utf8(t).len() == 16
    &&& forall|i: int| 0 <= i < t.len() ==> is_hash_like_char(#[trigger] t[i])
}

/// Whether `txt` looks like a printed hash rather than a real name.
pub fn is_hash_like(txt: &str) -> (r: bool)
    ensures
        r == spec_is_hash_like(txt@),
{
    if txt.as_bytes().len() != 16 {
        return false;
    }
    let n = txt.unicode_len();
    let mut i: usize = 0;
    while i < n
        invariant
            n == txt@.len(),
            i <= n,
            forall|j: int| 0 <= j < i ==> is_hash_like_char(#[trigger] txt@[j]),
        decreases n - i,
    {
        let v = txt.get_char(i) as u32;
        if (48 <= v && v <= 57) || (97 <= v && v <= 122) || (65 <= v && v <= 90) {
            i += 1;
            continue;
        }
        return false;
    }
    true
}

/// What a `HashedStr` displays as: the text, unless there is none or it looks
/// like a printed hash, in which case the hash as sixteen hex digits.
pub open spec fn spec_display(hash: u64, text: Option<Seq<char>>) -> Seq<char> {
    match text {
        None => spec_hex16(hash),
        Some(t) => if spec_is_hash_like(t) {
            spec_hex16(hash)
        } else {
            t
        },
    }
}

impl<'a> HashedStr<'a> {
    /// The text if known, else the hash printed as hex.
    pub fn to_display_string(&self) -> (s: String)
        ensures
            s@ == spec_display(
                self.hash,
                match self.text {
                    Some(t) => Some(t@),
                    None => None,
                },
            ),
    {
        match self.text {
            None => hex16_string(self.hash),
            Some(t) => if is_hash_like(t) {
                hex16_string(self.hash)
            } else {
                t.to_owned()
            },
        }
    }
}

/// Whether the bytes `t` may be the text behind the hash `h`: either `h` is
/// the Idstring of `t`, or `t` reads as `h` under `from_str`.
pub open spec fn names_hash(h: u64, t: Seq<u8>) -> bool {
    h == diesel_hash::spec_hash_level(t, 0) || h == spec_from_bytes(t)
}

/// The offset of the first newline in `b` at or after `from`, or `b.len()`.
pub open spec fn next_newline(b: Seq<u8>, from: int) -> int
    decreases b.len() - from,
{
    if from >= b.len() {
        b.len() as int
    } else if b[from] == 10u8 {
        from
    } else {
        next_newline(b, from + 1)
    }
}

/// Where `next_newline` lands, and that it does not move backwards.
pub proof fn lemma_next_newline(b: Seq<u8>, from: int)
    requires
        0 <= from,
    ensures
        from <= next_newline(b, from) || from > b.len(),
        next_newline(b, from) <= b.len(),
        next_newline(b, from) < b.len() ==> b[next_newline(b, from)] == 10u8,
        forall|j: int| from <= j < next_newline(b, from) ==> b[j] != 10u8,
    decreases b.len() - from,
{
    if from < b.len() && b[from] != 10u8 {
        lemma_next_newline(b, from + 1);
    }
}

/// The end of the line that starts at `from` and whose newline is at `nl`:
/// a carriage return just before the newline is not part of the line.
pub open spec fn line_end(b: Seq<u8>, from: int, nl: int) -> int {
    if nl < b.len() && nl > from && b[nl - 1] == 13u8 {
        nl - 1
    } else {
        nl
    }
}

/// The index that `str::lines` gives, starting at `from`: each line's
/// Idstring is mapped to its byte range, later lines replacing earlier ones
/// with the same hash.
pub open spec fn index_lines(b: Seq<u8>, from: int, m: Map<u64, (usize, usize)>) -> Map<
    u64,
    (usize, usize),
>
    decreases b.len() - from,
{
    if from < 0 || from >= b.len() {
        m
    } else {
        proof {
            lemma_next_newline(b, from);
        }
        let nl = next_newline(b, from);
        let e = line_end(b, from, nl);
        let m2 = m.insert(
            diesel_hash::spec_hash_level(b.subrange(from, e), 0),
            (from as usize, e as usize),
        );
        if nl >= b.len() {
            m2
        } else {
            index_lines(b, nl + 1, m2)
        }
    }
}

/// The lines of a blob of hashlist text, indexed by hash.
pub struct BlobHashIndex {
    index: HashMap<u64, (usize, usize)>,
    data: String,
}

/// Whether `r` is a byte range of `b` that can be cut out of it.
pub open spec fn range_ok(b: Seq<u8>, r: (usize, usize)) -> bool {
    r.0 <= r.1 && cuttable(b, r.0 as int) && cuttable(b, r.1 as int)
}

impl BlobHashIndex {
    /// The bytes of the blob's text.
    pub closed spec fn bytes(&self) -> Seq<u8> {
        vstd::utf8::encode_utf8(self.data@)
    }

    /// The blob's index from hash to byte range.
    pub closed spec fn entries(&self) -> Map<u64, (usize, usize)> {
        self.index@
    }

    /// Each entry is a cuttable range whose text names its hash.
    pub open spec fn wf(&self) -> bool {
        forall|h: u64| #[trigger]
            self.entries().contains_key(h) ==> range_ok(self.bytes(), self.entries()[h])
                && names_hash(
                h,
                self.bytes().subrange(self.entries()[h].0 as int, self.entries()[h].1 as int),
            )
    }

    /// The text that the blob holds for `h`, if any.
    pub open spec fn text_of(&self, h: u64) -> Option<Seq<u8>> {
        if self.entries().contains_key(h) {
            Some(self.bytes().subrange(self.entries()[h].0 as int, self.entries()[h].1 as int))
        } else {
            None
        }
    }

    /// Indexes each line of `data` by its Idstring.
    pub fn new(data: String) -> (r: BlobHashIndex)
        ensures
            r.wf(),
            r.bytes() == vstd::utf8::encode_utf8(data@),
            r.entries() == index_lines(vstd::utf8::encode_utf8(data@), 0, Map::empty()),
    {
        let mut index: HashMap<u64, (usize, usize)> = HashMap::new();
        {
            let bytes = data.as_str().as_bytes();
            let ghost b = bytes@;
            proof {
                vstd::utf8::encode_utf8_valid_utf8(data@);
            }
            let n = bytes.len();
            let mut start: usize = 0;
            while start < n
                invariant
                    b == bytes@,
                    n == b.len(),
                    vstd::utf8::valid_utf8(b),
                    start <= n,
                    cuttable(b, start as int),
                    index_lines(b, start as int, index@) == index_lines(b, 0, Map::empty()),
                    forall|h: u64| #[trigger]
                        index@.contains_key(h) ==> range_ok(b, index@[h]) && names_hash(
                            h,
                            b.subrange(index@[h].0 as int, index@[h].1 as int),
                        ),
                decreases n - start,
            {
                let mut nl: usize = start;
                proof {
                    lemma_next_newline(b, start as int);
                }
                while nl < n && bytes[nl] != 10u8
                    invariant
                        b == bytes@,
                        n == b.len(),
                        start <= nl <= n,
                        next_newline(b, nl as int) == next_newline(b, start as int),
                    decreases n - nl,
                {
                    nl += 1;
                }
                let e: usize = if nl < n && nl > start && bytes[nl - 1] == 13u8 {
                    nl - 1
                } else {
                    nl
                };
                assert(e == line_end(b, start as int, next_newline(b, start as int)));
                proof {
                    if e < n {
                        crate::text::lemma_char_boundary_iff(b, e as int);
                        assert(!vstd::utf8::is_continuation_byte(b[e as int]));
                    }
                    if nl < n {
                        crate::text::lemma_after_ascii_cuttable(b, nl as int);
                    }
                }
                let line = &bytes[start..e];
                let h = diesel_hash::hash_level(line, 0);
                index.insert(h, (start, e));
                start = if nl < n {
                    nl + 1
                } else {
                    n
                };
            }
        }
        BlobHashIndex { index, data }
    }
}

impl BlobHashIndex {
    /// The text of the entry for `h`.
    fn text<'s>(&'s self, h: u64) -> (r: Option<&'s str>)
        requires
            self.wf(),
        ensures
            match r {
                Some(t) => self.text_of(h) == Some(bytes_of(t)),
                None => self.text_of(h) is None,
            },
    {
        match self.index.get(&h) {
            None => None,
            Some(range) => {
                let (s, e) = *range;
                Some(str_slice(self.data.as_str(), s, e))
            },
        }
    }
}

/// The position of the first blob from `i` on that holds `h`.
pub open spec fn find_blob(blobs: Seq<BlobHashIndex>, h: u64, i: int) -> Option<int>
    decreases blobs.len() - i,
{
    if i < 0 || i >= blobs.len() {
        None
    } else if blobs[i].entries().contains_key(h) {
        Some(i)
    } else {
        find_blob(blobs, h, i + 1)
    }
}

proof fn lemma_find_blob_range(blobs: Seq<BlobHashIndex>, h: u64, i: int)
    requires
        0 <= i,
    ensures
        find_blob(blobs, h, i) matches Some(j) ==> i <= j < blobs.len()
            && blobs[j].entries().contains_key(h),
    decreases blobs.len() - i,
{
    if i < blobs.len() && !blobs[i].entries().contains_key(h) {
        lemma_find_blob_range(blobs, h, i + 1);
    }
}

/// The hashlist: blobs of hashlist text, searched in the order they were
/// loaded, then the strings interned one at a time.
pub struct HashIndex {
    blobs: Vec<BlobHashIndex>,
    interned: HashMap<u64, String>,
}

impl HashIndex {
    /// The loaded blobs, in order.
    pub closed spec fn blob_seq(&self) -> Seq<BlobHashIndex> {
        self.blobs@
    }

    /// The strings interned one at a time, by hash.
    pub closed spec fn interned_map(&self) -> Map<u64, String> {
        self.interned@
    }

    /// Every blob is well formed, and every interned string is stored under
    /// its own Idstring.
    pub open spec fn wf(&self) -> bool {
        &&& forall|i: int| 0 <= i < self.blob_seq().len() ==> #[trigger] self.blob_seq()[i].wf()
        &&& forall|h: u64| #[trigger]
            self.interned_map().contains_key(h) ==> h == diesel_hash::spec_hash_level(
                vstd::utf8::encode_utf8(self.interned_map()[h]@),
                0,
            )
    }

    /// The bytes of the text that a lookup of `h` finds: the first blob that
    /// holds `h`, else the interned strings.
    pub open spec fn lookup(&self, h: u64) -> Option<Seq<u8>> {
        match find_blob(self.blob_seq(), h, 0) {
            Some(i) => self.blob_seq()[i].text_of(h),
            None => if self.interned_map().contains_key(h) {
                Some(vstd::utf8::encode_utf8(self.interned_map()[h]@))
            } else {
                None
            },
        }
    }

    /// `s` is what the hashlist gives for `s.hash`: its text if it has one.
    pub open spec fn names(&self, s: HashedStr) -> bool {
        match s.text {
            Some(t) => self.lookup(s.hash) == Some(bytes_of(t)),
            None => self.lookup(s.hash) is None,
        }
    }

    /// A hashlist that knows only the empty string.
    pub fn new() -> (r: HashIndex)
        ensures
            r.wf(),
            r.blob_seq().len() == 0,
            forall|h: u64| #[trigger]
                r.lookup(h) == if h == diesel_hash::EMPTY {
                    Some(Seq::<u8>::empty())
                } else {
                    None
                },
    {
        let mut res = HashIndex { blobs: Vec::new(), interned: HashMap::new() };
        res.interned.insert(diesel_hash::EMPTY, String::new());
        proof {
            diesel_hash::lemma_empty_hash();
            assert(vstd::utf8::encode_utf8(Seq::<char>::empty()) =~= Seq::<u8>::empty());
        }
        res
    }

    /// Adds a blob of hashlist text, one string per line, searched after the
    /// blobs already loaded.
    pub fn load_blob(&mut self, data: String)
        requires
            old(self).wf(),
        ensures
            final(self).wf(),
            final(self).interned_map() == old(self).interned_map(),
            final(self).blob_seq().len() == old(self).blob_seq().len() + 1,
            final(self).blob_seq().subrange(0, old(self).blob_seq().len() as int) == old(
                self,
            ).blob_seq(),
            final(self).blob_seq().last().bytes() == vstd::utf8::encode_utf8(data@),
            final(self).blob_seq().last().entries() == index_lines(
                vstd::utf8::encode_utf8(data@),
                0,
                Map::empty(),
            ),
    {
        let blob = BlobHashIndex::new(data);
        let ghost b = blob;
        self.blobs.push(blob);
        assert(self.blobs@.subrange(0, old(self).blobs@.len() as int) =~= old(self).blobs@);
        assert forall|i: int| 0 <= i < self.blob_seq().len() implies #[trigger] self.blob_seq()[i].wf() by {
            if i < old(self).blob_seq().len() {
                assert(self.blob_seq()[i] == old(self).blob_seq()[i]);
                assert(old(self).blob_seq()[i].wf());
            } else {
                assert(self.blob_seq()[i] == b);
            }
        }
        assert(self.interned_map() == old(self).interned_map());
    }

    /// The position of the first blob that holds `h`.
    fn blob_holding(&self, h: u64) -> (r: Option<usize>)
        ensures
            r == match find_blob(self.blob_seq(), h, 0) {
                Some(i) => Some(i as usize),
                None => None,
            },
            r matches Some(i) ==> i < self.blob_seq().len() && find_blob(self.blob_seq(), h, 0)
                == Some(i as int),
    {
        proof {
            lemma_find_blob_range(self.blob_seq(), h, 0);
        }
        let n = self.blobs.len();
        let mut i: usize = 0;
        while i < n
            invariant
                n == self.blob_seq().len(),
                i <= n,
                find_blob(self.blob_seq(), h, i as int) == find_blob(self.blob_seq(), h, 0),
            decreases n - i,
        {
            if self.blobs[i].index.contains_key(&h) {
                return Some(i);
            }
            i += 1;
        }
        None
    }

    /// The hash together with its text, if the hashlist knows it.
    pub fn get_hash<'s>(&'s self, hash: u64) -> (r: HashedStr<'s>)
        requires
            self.wf(),
        ensures
            r.hash == hash,
            match r.text {
                Some(t) => self.lookup(hash) == Some(bytes_of(t)),
                None => self.lookup(hash) is None,
            },
    {
        if let Some(i) = self.blob_holding(hash) {
            proof {
                lemma_find_blob_range(self.blob_seq(), hash, 0);
                assert(self.blob_seq()[i as int].wf());
            }
            let found = self.blobs[i].text(hash);
            return HashedStr { hash, text: found };
        }
        let from_interned = self.interned.get(&hash);
        match from_interned {
            None => HashedStr { hash, text: None },
            Some(st) => {
                let t: &str = st.as_str();
                HashedStr { hash, text: Some(t) }
            },
        }
    }

    /// The hash of `text` together with the text the hashlist has for it.
    pub fn get_str<'s>(&'s self, text: &str) -> (r: HashedStr<'s>)
        requires
            self.wf(),
        ensures
            r.hash == diesel_hash::spec_hash_str(text@),
            match r.text {
                Some(t) => self.lookup(r.hash) == Some(bytes_of(t)),
                None => self.lookup(r.hash) is None,
            },
    {
        self.get_hash(diesel_hash::hash_str(text))
    }
}

impl HashIndex {
    /// Adds `text` to the hashlist unless its hash is already known, and
    /// returns its hash with the text the hashlist now has for it.
    pub fn intern<'s>(&'s mut self, text: String) -> (r: HashedStr<'s>)
        requires
            old(self).wf(),
        ensures
            final(self).wf(),
            r.hash == diesel_hash::spec_hash_str(text@),
            r.text matches Some(t) && final(self).lookup(r.hash) == Some(bytes_of(t)),
            final(self).blob_seq() == old(self).blob_seq(),
            old(self).lookup(r.hash) is Some ==> final(self).interned_map() == old(
                self,
            ).interned_map(),
            old(self).lookup(r.hash) is None ==> final(self).interned_map() == old(
                self,
            ).interned_map().insert(r.hash, text),
    {
        let hash = diesel_hash::hash_str(text.as_str());
        let ghost t = text;
        let in_blob = self.blob_holding(hash).is_some();
        if !in_blob && !self.interned.contains_key(&hash) {
            assert(old(self).lookup(hash) is None);
            self.interned.insert(hash, text);
            assert(self.interned_map() == old(self).interned_map().insert(hash, t));
            assert(self.lookup(hash) is Some);
        } else {
            proof {
                lemma_find_blob_range(self.blob_seq(), hash, 0);
            }
            assert(old(self).lookup(hash) is Some);
        }
        let this: &'s HashIndex = &*self;
        let r = this.get_hash(hash);
        r
    }
}

proof fn lemma_find_blob_frame(b1: Seq<BlobHashIndex>, b2: Seq<BlobHashIndex>, h: u64, i: int)
    requires
        b1.len() == b2.len(),
        forall|j: int|
            0 <= j < b1.len() ==> #[trigger] b1[j].entries().contains_key(h) == b2[j].entries().contains_key(h),
    ensures
        find_blob(b1, h, i) == find_blob(b2, h, i),
    decreases b1.len() - i,
{
    if 0 <= i < b1.len() && !b1[i].entries().contains_key(h) {
        lemma_find_blob_frame(b1, b2, h, i + 1);
    }
}

impl HashIndex {
    /// Interns the part `indices` of the text known for `superstring_hash`.
    ///
    /// If a blob holds the superstring, the part is added to that blob under
    /// its `from_str` hash; else, if the superstring is interned, the part is
    /// interned under its Idstring. Returns the part's hash, or `None` if the
    /// superstring is not known at all.
    #[verifier::rlimit(40)]
    pub fn intern_substring(&mut self, superstring_hash: u64, indices: core::ops::Range<usize>) -> (r:
        Option<u64>)
        requires
            old(self).wf(),
            old(self).lookup(superstring_hash) matches Some(t) ==> indices.start <= indices.end
                && cuttable(t, indices.start as int) && cuttable(t, indices.end as int),
        ensures
            final(self).wf(),
            old(self).lookup(superstring_hash) is None ==> r is None && final(self).blob_seq()
                == old(self).blob_seq() && final(self).interned_map() == old(self).interned_map(),
            old(self).lookup(superstring_hash) matches Some(t) ==> {
                let sub = t.subrange(indices.start as int, indices.end as int);
                &&& r is Some
                &&& final(self).lookup(r->0) is Some
                &&& (find_blob(old(self).blob_seq(), superstring_hash, 0) is Some ==> r->0
                    == spec_from_bytes(sub))
                &&& (find_blob(old(self).blob_seq(), superstring_hash, 0) is None ==> r->0
                    == diesel_hash::spec_hash_level(sub, 0) && final(self).lookup(r->0) == (
                if find_blob(old(self).blob_seq(), r->0, 0) is Some {
                    old(self).lookup(r->0)
                } else {
                    Some(sub)
                }))
            },
            forall|h: u64|
                (r is None || h != r->0) ==> #[trigger] final(self).lookup(h) == old(self).lookup(h),
    {
        let start = indices.start;
        let end = indices.end;
        if let Some(i) = self.blob_holding(superstring_hash) {
            proof {
                lemma_find_blob_range(self.blob_seq(), superstring_hash, 0);
                assert(self.blob_seq()[i as int].wf());
            }
            let ghost old_blobs = self.blob_seq();
            let mut blob = self.blobs.remove(i);
            let ghost bb = blob.bytes();
            let (s, e) = *blob.index.get(&superstring_hash).unwrap();
            let superstring = str_slice(blob.data.as_str(), s, e);
            let substring = str_slice(superstring, start, end);
            let substring_hash = diesel_hash::from_str(substring);
            proof {
                let t = bb.subrange(s as int, e as int);
                assert(bytes_of(superstring) == t);
                if start < t.len() {
                    assert(t[start as int] == bb[s + start]);
                }
                if end < t.len() {
                    assert(t[end as int] == bb[s + end]);
                }
                assert(bb.subrange(s + start, s + end) =~= t.subrange(start as int, end as int));
            }
            blob.index.insert(substring_hash, (s + start, s + end));
            let ghost nb = blob;
            self.blobs.insert(i, blob);
            proof {
                assert forall|j: int| 0 <= j < self.blob_seq().len() implies #[trigger] self.blob_seq()[j].wf() by {
                    if j != i {
                        assert(self.blob_seq()[j] == old_blobs[j]);
                        assert(old_blobs[j].wf());
                    }
                }
                assert forall|h: u64| h != substring_hash implies #[trigger] self.lookup(h) == old(
                    self,
                ).lookup(h) by {
                    assert forall|j: int| 0 <= j < old_blobs.len() implies #[trigger] old_blobs[j].entries().contains_key(h)
                        == self.blob_seq()[j].entries().contains_key(h) by {
                        if j != i {
                            assert(self.blob_seq()[j] == old_blobs[j]);
                        }
                    }
                    lemma_find_blob_frame(old_blobs, self.blob_seq(), h, 0);
                    lemma_find_blob_range(old_blobs, h, 0);
                    if let Some(j) = find_blob(old_blobs, h, 0) {
                        if j != i {
                            assert(self.blob_seq()[j] == old_blobs[j]);
                        }
                    }
                }
                lemma_find_blob_range(self.blob_seq(), substring_hash, 0);
                assert(self.blob_seq()[i as int].entries().contains_key(substring_hash));
                lemma_find_blob_some(self.blob_seq(), substring_hash, 0, i as int);
            }
            return Some(substring_hash);
        }
        let maybe_sub: Option<String> = match self.interned.get(&superstring_hash) {
            None => None,
            Some(sup) => Some(str_slice(sup.as_str(), start, end).to_owned()),
        };
        match maybe_sub {
            None => None,
            Some(substring) => {
                let hash = diesel_hash::hash_str(substring.as_str());
                self.interned.insert(hash, substring);
                proof {
                    assert forall|h: u64| h != hash implies #[trigger] self.lookup(h) == old(
                        self,
                    ).lookup(h) by {}
                    lemma_find_blob_range(self.blob_seq(), hash, 0);
                }
                Some(hash)
            },
        }
    }
}

proof fn lemma_find_blob_some(blobs: Seq<BlobHashIndex>, h: u64, i: int, k: int)
    requires
        0 <= i <= k < blobs.len(),
        blobs[k].entries().contains_key(h),
    ensures
        find_blob(blobs, h, i) is Some,
    decreases k - i,
{
    if !blobs[i].entries().contains_key(h) {
        lemma_find_blob_some(blobs, h, i + 1, k);
    }
}

/// Every text the hashlist gives back for a hash names that hash: it is the
/// hash's string, or the hash printed in hex.
pub proof fn lemma_lookup_names_hash(idx: &HashIndex, h: u64)
    requires
        idx.wf(),
    ensures
        idx.lookup(h) matches Some(t) ==> names_hash(h, t),
{
    lemma_find_blob_range(idx.blob_seq(), h, 0);
    if let Some(i) = find_blob(idx.blob_seq(), h, 0) {
        assert(idx.blob_seq()[i].wf());
    }
}

/// Looks a query up as a hash: the hash it is read as, with its text if the
/// hashlist knows one, and the hash with its bytes reversed where the
/// hashlist knows a text for that one; an error where the query is not a
/// hash.
pub fn unhash_query<'s>(hashlist: &'s HashIndex, query: &str, radix: u32) -> (r: Result<(HashedStr<'s>, Option<HashedStr<'s>>), ()>)
    requires
        hashlist.wf(),
        2 <= radix <= 36,
    ensures
        match diesel_hash::spec_parse_flexibly(bytes_of(query), radix) {
            Err(()) => r is Err,
            Ok(i) => r matches Ok((le, be)) && le.hash == i && hashlist.names(le) && match hashlist.lookup(
                diesel_hash::spec_swap_bytes(i),
            ) {
                Some(_) => be matches Some(b) && b.hash == diesel_hash::spec_swap_bytes(i) && hashlist.names(b),
                None => be is None,
            },
        },
{
    match diesel_hash::parse_flexibly(query, radix) {
        Err(()) => Err(()),
        Ok(i) => {
            let le = hashlist.get_hash(i);
            let be = hashlist.get_hash(diesel_hash::swap_bytes(i));
            if be.text.is_some() {
                Ok((le, Some(be)))
            } else {
                Ok((le, None))
            }
        },
    }
}

} // verus!
