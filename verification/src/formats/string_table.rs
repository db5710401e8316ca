//! Diesel string tables.
//!
//! A table has a header of 32 bytes, with the number of strings as a
//! little-endian `u32` at offset 4, then one entry of 24 bytes per string:
//! the key's hash as a `u64` at offset 8 of the entry and the offset of the
//! value as a `u32` at offset 20. Values are zero-terminated UTF-8 strings.
//! Entries whose hash is that of the empty string are unused.
use vstd::prelude::*;

use crate::diesel_hash;
use crate::hashindex::{hex_digit, spec_display, HashIndex, HashedStr};
use vstd::string::StrSliceExecFns;
use crate::read_helpers::{le_u32, le_u64, read_u32_le, read_u64_le};
use crate::filesystem::bytes_equal;
use crate::text::{lossy_text, push_char, utf8_lossy};

verus! {

/// `a` comes before `b` in byte order: at the first byte where they differ
/// `a`'s is smaller, or `a` is a proper prefix of `b`.
pub open spec fn bytes_before(a: Seq<u8>, b: Seq<u8>) -> bool
    decreases a.len(),
{
    if a.len() == 0 {
        b.len() > 0
    } else if b.len() == 0 {
        false
    } else if a[0] != b[0] {
        a[0] < b[0]
    } else {
        bytes_before(a.drop_first(), b.drop_first())
    }
}

/// Byte order is strict and total: no two byte strings come each before
/// the other, no byte string before itself, and of two different ones one
/// comes first.
pub proof fn lemma_bytes_before_order(a: Seq<u8>, b: Seq<u8>)
    ensures
        !(bytes_before(a, b) && bytes_before(b, a)),
        a != b ==> bytes_before(a, b) || bytes_before(b, a),
        !bytes_before(a, a),
    decreases a.len(),
{
    if a.len() > 0 && b.len() > 0 {
        lemma_bytes_before_order(a.drop_first(), b.drop_first());
        lemma_bytes_before_order(a.drop_first(), a.drop_first());
        if a[0] == b[0] && a != b {
            assert(a.drop_first() != b.drop_first()) by {
                if a.drop_first() == b.drop_first() {
                    assert(a =~= seq![a[0]] + a.drop_first());
                    assert(b =~= seq![b[0]] + b.drop_first());
                }
            }
        }
    } else if a.len() > 0 {
        lemma_bytes_before_order(a.drop_first(), a.drop_first());
    } else if b.len() == 0 {
        assert(a =~= b);
    }
}

/// Byte order is transitive.
pub proof fn lemma_bytes_before_trans(a: Seq<u8>, b: Seq<u8>, c: Seq<u8>)
    requires
        bytes_before(a, b),
        bytes_before(b, c),
    ensures
        bytes_before(a, c),
    decreases a.len(),
{
    if a.len() > 0 && b.len() > 0 && c.len() > 0 && a[0] == b[0] && b[0] == c[0] {
        lemma_bytes_before_trans(a.drop_first(), b.drop_first(), c.drop_first());
    }
}

/// Whether `a` comes before `b` in byte order.
pub(crate) fn bytes_less(a: &[u8], b: &[u8]) -> (r: bool)
    ensures
        r == bytes_before(a@, b@),
{
    let mut k: usize = 0;
    assert(a@.skip(0) =~= a@);
    assert(b@.skip(0) =~= b@);
    while k < a.len() && k < b.len() && a[k] == b[k]
        invariant
            k <= a@.len(),
            k <= b@.len(),
            bytes_before(a@, b@) == bytes_before(a@.skip(k as int), b@.skip(k as int)),
        decreases a.len() - k,
    {
        assert(a@.skip(k as int).drop_first() =~= a@.skip(k + 1));
        assert(b@.skip(k as int).drop_first() =~= b@.skip(k + 1));
        k = k + 1;
    }
    if k == a.len() {
        k < b.len()
    } else if k == b.len() {
        false
    } else {
        a[k] < b[k]
    }
}

/// The order of keys that the hashlist knows: keys with a text come first,
/// in byte order of their texts; the others follow in order of their hashes.
pub open spec fn shown_before(hl: HashIndex, h1: u64, h2: u64) -> bool {
    match (hl.lookup(h1), hl.lookup(h2)) {
        (Some(a), Some(b)) => bytes_before(a, b),
        (Some(_), None) => true,
        (None, Some(_)) => false,
        (None, None) => h1 < h2,
    }
}

/// Two hashes are one key: they have the same text, or, without texts, are
/// the same hash.
pub open spec fn same_key(hl: HashIndex, h1: u64, h2: u64) -> bool {
    match (hl.lookup(h1), hl.lookup(h2)) {
        (Some(a), Some(b)) => a == b,
        (None, None) => h1 == h2,
        _ => false,
    }
}

proof fn lemma_key_order(hl: HashIndex, h1: u64, h2: u64, h3: u64)
    ensures
        !shown_before(hl, h1, h2) || !shown_before(hl, h2, h1),
        same_key(hl, h1, h2) ==> !shown_before(hl, h1, h2),
        !same_key(hl, h1, h2) ==> shown_before(hl, h1, h2) || shown_before(hl, h2, h1),
        shown_before(hl, h1, h2) && shown_before(hl, h2, h3) ==> shown_before(hl, h1, h3),
        same_key(hl, h1, h2) ==> (shown_before(hl, h1, h3) == shown_before(hl, h2, h3)) && (
        shown_before(hl, h3, h1) == shown_before(hl, h3, h2)) && (same_key(hl, h1, h3) == same_key(
            hl,
            h2,
            h3,
        )),
        same_key(hl, h1, h1),
{
    if let (Some(a), Some(b)) = (hl.lookup(h1), hl.lookup(h2)) {
        lemma_bytes_before_order(a, b);
        if let Some(c) = hl.lookup(h3) {
            if bytes_before(a, b) && bytes_before(b, c) {
                lemma_bytes_before_trans(a, b, c);
            }
        }
    }
    if let Some(a) = hl.lookup(h1) {
        lemma_bytes_before_order(a, a);
    }
}

/// The hash of entry `i`.
pub open spec fn entry_hash(b: Seq<u8>, i: int) -> u64 {
    le_u64(b, 32 + 24 * i + 8)
}

/// Where the value of entry `i` starts.
pub open spec fn entry_start(b: Seq<u8>, i: int) -> int {
    le_u32(b, 32 + 24 * i + 20) as int
}

/// The first zero byte at or after `j`, or the end.
pub open spec fn value_end(b: Seq<u8>, j: int) -> int
    decreases b.len() - j,
{
    if j >= b.len() || b[j] == 0 {
        j
    } else {
        value_end(b, j + 1)
    }
}

/// The bytes of the value of entry `i`.
pub open spec fn value_bytes(b: Seq<u8>, i: int) -> Seq<u8> {
    b.subrange(entry_start(b, i), value_end(b, entry_start(b, i)))
}

/// The number of strings the table says it has.
pub open spec fn string_count(b: Seq<u8>) -> int {
    le_u32(b, 4) as int
}

/// Entry `i` is used: its hash is not that of the empty string.
pub open spec fn used(b: Seq<u8>, i: int) -> bool {
    entry_hash(b, i) != diesel_hash::EMPTY
}

/// Entry `i` can be read: its hash lies within the bytes, and if it is
/// used, so do its value offset and the start of its value.
pub open spec fn entry_readable(b: Seq<u8>, i: int) -> bool {
    &&& 32 + 24 * i + 16 <= b.len()
    &&& used(b, i) ==> 32 + 24 * i + 24 <= b.len() && entry_start(b, i) <= b.len()
}

/// The table can be read: the count lies within the bytes, and so does every
/// entry it counts.
pub open spec fn table_readable(b: Seq<u8>) -> bool {
    &&& 8 <= b.len()
    &&& forall|i: int| 0 <= i < string_count(b) ==> #[trigger] entry_readable(b, i)
}

/// The first used entry before `n` whose key is that of `h`.
pub open spec fn first_of_key(b: Seq<u8>, hl: HashIndex, n: int, h: u64) -> Option<int>
    decreases n,
{
    if n <= 0 {
        None
    } else {
        match first_of_key(b, hl, n - 1, h) {
            Some(i) => Some(i),
            None => if used(b, n - 1) && same_key(hl, entry_hash(b, n - 1), h) {
                Some(n - 1)
            } else {
                None
            },
        }
    }
}

/// The last used entry before `n` whose key is that of `h`.
pub open spec fn last_of_key(b: Seq<u8>, hl: HashIndex, n: int, h: u64) -> Option<int>
    decreases n,
{
    if n <= 0 {
        None
    } else if used(b, n - 1) && same_key(hl, entry_hash(b, n - 1), h) {
        Some(n - 1)
    } else {
        last_of_key(b, hl, n - 1, h)
    }
}

/// Some entry of `r` has the key of `h`.
pub open spec fn has_key(hl: HashIndex, r: Seq<(HashedStr, String)>, h: u64) -> bool {
    exists|k: int| 0 <= k < r.len() && same_key(hl, (#[trigger] r[k]).0.hash, h)
}

/// `r` is what the first `n` entries of the table make: one pair per key, in
/// key order, each under the hash of the first entry with that key (with the
/// text the hashlist has for it) and holding the value of the last.
pub open spec fn table_of(b: Seq<u8>, hl: HashIndex, n: int, r: Seq<(HashedStr, String)>) -> bool {
    &&& forall|k: int|
        0 <= k < r.len() ==> {
            let h = (#[trigger] r[k]).0.hash;
            &&& hl.names(r[k].0)
            &&& first_of_key(b, hl, n, h) matches Some(i) && entry_hash(b, i) == h
            &&& last_of_key(b, hl, n, h) matches Some(j) && r[k].1@ == lossy_text(value_bytes(b, j))
        }
    &&& forall|i: int| 0 <= i < n && #[trigger] used(b, i) ==> has_key(hl, r, entry_hash(b, i))
    &&& forall|a: int, c: int|
        0 <= a < c < r.len() ==> shown_before(hl, (#[trigger] r[a]).0.hash, (#[trigger] r[c]).0.hash)
}

/// Whether two hashes from the hashlist are one key.
fn key_same(hl: &HashIndex, a: &HashedStr, b: &HashedStr) -> (r: bool)
    requires
        hl.names(*a),
        hl.names(*b),
    ensures
        r == same_key(*hl, a.hash, b.hash),
{
    match (a.text, b.text) {
        (Some(x), Some(y)) => bytes_equal(x.as_bytes(), y.as_bytes()),
        (None, None) => a.hash == b.hash,
        _ => false,
    }
}

/// Whether the key of `a` comes before that of `b`.
fn key_before(hl: &HashIndex, a: &HashedStr, b: &HashedStr) -> (r: bool)
    requires
        hl.names(*a),
        hl.names(*b),
    ensures
        r == shown_before(*hl, a.hash, b.hash),
{
    match (a.text, b.text) {
        (Some(x), Some(y)) => bytes_less(x.as_bytes(), y.as_bytes()),
        (Some(_), None) => true,
        (None, Some(_)) => false,
        (None, None) => a.hash < b.hash,
    }
}

/// Where the scan for a new key stopped: every entry before `p` has a key
/// before `h`, and the one at `p`, if any, does not.
pub open spec fn stops_at(hl: HashIndex, r: Seq<(HashedStr, String)>, p: int, h: u64) -> bool {
    &&& 0 <= p <= r.len()
    &&& forall|q: int| 0 <= q < p ==> shown_before(hl, (#[trigger] r[q]).0.hash, h)
    &&& p < r.len() ==> !shown_before(hl, r[p].0.hash, h)
}

/// No entry of the table but perhaps the one where the scan stopped has the
/// new key.
proof fn lemma_only_at_stop(hl: HashIndex, r: Seq<(HashedStr, String)>, p: int, h: u64, k: int)
    requires
        stops_at(hl, r, p, h),
        forall|x: int, y: int|
            0 <= x < y < r.len() ==> shown_before(hl, (#[trigger] r[x]).0.hash, (#[trigger] r[y]).0.hash),
        0 <= k < r.len(),
        k != p,
    ensures
        !same_key(hl, r[k].0.hash, h),
{
    lemma_key_order(hl, r[k].0.hash, h, r[k].0.hash);
    if k > p {
        lemma_key_order(hl, r[p].0.hash, r[k].0.hash, h);
        lemma_key_order(hl, r[k].0.hash, h, r[p].0.hash);
    }
}

/// Entry `i` has the key of the pair at `p`: the pair takes its value.
proof fn lemma_add_existing(
    b: Seq<u8>,
    hl: HashIndex,
    i: int,
    r: Seq<(HashedStr, String)>,
    p: int,
    value: String,
)
    requires
        0 <= i,
        table_of(b, hl, i, r),
        used(b, i),
        stops_at(hl, r, p, entry_hash(b, i)),
        p < r.len(),
        same_key(hl, r[p].0.hash, entry_hash(b, i)),
        value@ == lossy_text(value_bytes(b, i)),
    ensures
        table_of(b, hl, i + 1, r.update(p, (r[p].0, value))),
{
    let h = entry_hash(b, i);
    let s = r.update(p, (r[p].0, value));
    assert forall|k: int| 0 <= k < s.len() implies {
        let hk = (#[trigger] s[k]).0.hash;
        &&& hl.names(s[k].0)
        &&& first_of_key(b, hl, i + 1, hk) matches Some(j) && entry_hash(b, j) == hk
        &&& last_of_key(b, hl, i + 1, hk) matches Some(j) && s[k].1@ == lossy_text(value_bytes(b, j))
    } by {
        assert(s[k].0 == r[k].0);
        if k == p {
            lemma_key_order(hl, h, r[k].0.hash, h);
        } else {
            lemma_only_at_stop(hl, r, p, h, k);
            lemma_key_order(hl, h, r[k].0.hash, h);
        }
    }
    assert forall|j: int| 0 <= j < i + 1 && #[trigger] used(b, j) implies has_key(
        hl,
        s,
        entry_hash(b, j),
    ) by {
        if j < i {
            let k = choose|k: int| 0 <= k < r.len() && same_key(hl, (#[trigger] r[k]).0.hash, entry_hash(b, j));
            assert(s[k].0 == r[k].0);
        } else {
            assert(s[p].0 == r[p].0);
        }
    }
    assert forall|x: int, y: int| 0 <= x < y < s.len() implies shown_before(
        hl,
        (#[trigger] s[x]).0.hash,
        (#[trigger] s[y]).0.hash,
    ) by {
        assert(s[x].0 == r[x].0);
        assert(s[y].0 == r[y].0);
    }
}

/// Entry `i` has a key no pair has: a pair for it goes in at `p`.
proof fn lemma_add_new(
    b: Seq<u8>,
    hl: HashIndex,
    i: int,
    r: Seq<(HashedStr, String)>,
    p: int,
    key: HashedStr,
    value: String,
)
    requires
        0 <= i,
        table_of(b, hl, i, r),
        used(b, i),
        key.hash == entry_hash(b, i),
        hl.names(key),
        stops_at(hl, r, p, key.hash),
        p < r.len() ==> !same_key(hl, r[p].0.hash, key.hash),
        value@ == lossy_text(value_bytes(b, i)),
    ensures
        table_of(b, hl, i + 1, r.insert(p, (key, value))),
{
    let h = key.hash;
    assert forall|k: int| 0 <= k < r.len() implies !same_key(hl, (#[trigger] r[k]).0.hash, h) by {
        if k != p {
            lemma_only_at_stop(hl, r, p, h, k);
        }
    }
    lemma_new_key_first(b, hl, i, r, h);
    lemma_new_pairs(b, hl, i, r, p, key, value);
    lemma_new_coverage(b, hl, i, r, p, key, value);
    lemma_new_order(hl, r, p, key, value);
}

/// A key that no pair has was not the key of any earlier used entry.
proof fn lemma_new_key_first(b: Seq<u8>, hl: HashIndex, i: int, r: Seq<(HashedStr, String)>, h: u64)
    requires
        table_of(b, hl, i, r),
        forall|k: int| 0 <= k < r.len() ==> !same_key(hl, (#[trigger] r[k]).0.hash, h),
    ensures
        first_of_key(b, hl, i, h) is None,
{
    lemma_first_of_key_used(b, hl, i, h);
    if let Some(j) = first_of_key(b, hl, i, h) {
        let k = choose|k: int| 0 <= k < r.len() && same_key(hl, (#[trigger] r[k]).0.hash, entry_hash(b, j));
        lemma_key_order(hl, r[k].0.hash, entry_hash(b, j), h);
    }
}

proof fn lemma_new_pairs(
    b: Seq<u8>,
    hl: HashIndex,
    i: int,
    r: Seq<(HashedStr, String)>,
    p: int,
    key: HashedStr,
    value: String,
)
    requires
        0 <= i,
        0 <= p <= r.len(),
        table_of(b, hl, i, r),
        used(b, i),
        key.hash == entry_hash(b, i),
        hl.names(key),
        first_of_key(b, hl, i, key.hash) is None,
        forall|k: int| 0 <= k < r.len() ==> !same_key(hl, (#[trigger] r[k]).0.hash, key.hash),
        value@ == lossy_text(value_bytes(b, i)),
    ensures
        forall|k: int|
            0 <= k < r.len() + 1 ==> {
                let hk = (#[trigger] r.insert(p, (key, value))[k]).0.hash;
                &&& hl.names(r.insert(p, (key, value))[k].0)
                &&& first_of_key(b, hl, i + 1, hk) matches Some(j) && entry_hash(b, j) == hk
                &&& last_of_key(b, hl, i + 1, hk) matches Some(j) && r.insert(p, (key, value))[k].1@
                    == lossy_text(value_bytes(b, j))
            },
{
    let h = key.hash;
    let s = r.insert(p, (key, value));
    lemma_key_order(hl, h, h, h);
    assert forall|k: int| 0 <= k < s.len() implies {
        let hk = (#[trigger] s[k]).0.hash;
        &&& hl.names(s[k].0)
        &&& first_of_key(b, hl, i + 1, hk) matches Some(j) && entry_hash(b, j) == hk
        &&& last_of_key(b, hl, i + 1, hk) matches Some(j) && s[k].1@ == lossy_text(value_bytes(b, j))
    } by {
        if k != p {
            let ko = if k < p { k } else { k - 1 };
            assert(s[k] == r[ko]);
            assert(!same_key(hl, r[ko].0.hash, h));
            lemma_key_order(hl, h, r[ko].0.hash, h);
        }
    }
}

proof fn lemma_new_coverage(
    b: Seq<u8>,
    hl: HashIndex,
    i: int,
    r: Seq<(HashedStr, String)>,
    p: int,
    key: HashedStr,
    value: String,
)
    requires
        0 <= i,
        0 <= p <= r.len(),
        table_of(b, hl, i, r),
        key.hash == entry_hash(b, i),
    ensures
        forall|j: int| 0 <= j < i + 1 && #[trigger] used(b, j) ==> has_key(
            hl,
            r.insert(p, (key, value)),
            entry_hash(b, j),
        ),
{
    let s = r.insert(p, (key, value));
    lemma_key_order(hl, key.hash, key.hash, key.hash);
    assert forall|j: int| 0 <= j < i + 1 && #[trigger] used(b, j) implies has_key(hl, s, entry_hash(b, j)) by {
        if j < i {
            let k = choose|k: int| 0 <= k < r.len() && same_key(hl, (#[trigger] r[k]).0.hash, entry_hash(b, j));
            let kn = if k < p { k } else { k + 1 };
            assert(s[kn] == r[k]);
        } else {
            assert(s[p].0.hash == key.hash);
        }
    }
}

proof fn lemma_new_order(hl: HashIndex, r: Seq<(HashedStr, String)>, p: int, key: HashedStr, value: String)
    requires
        stops_at(hl, r, p, key.hash),
        p < r.len() ==> !same_key(hl, r[p].0.hash, key.hash),
        forall|x: int, y: int|
            0 <= x < y < r.len() ==> shown_before(hl, (#[trigger] r[x]).0.hash, (#[trigger] r[y]).0.hash),
    ensures
        forall|x: int, y: int|
            0 <= x < y < r.len() + 1 ==> shown_before(
                hl,
                (#[trigger] r.insert(p, (key, value))[x]).0.hash,
                (#[trigger] r.insert(p, (key, value))[y]).0.hash,
            ),
{
    let h = key.hash;
    let s = r.insert(p, (key, value));
    if p < r.len() {
        lemma_key_order(hl, h, r[p].0.hash, h);
    }
    assert forall|x: int, y: int| 0 <= x < y < s.len() implies shown_before(
        hl,
        (#[trigger] s[x]).0.hash,
        (#[trigger] s[y]).0.hash,
    ) by {
        if y < p {
            assert(s[x] == r[x] && s[y] == r[y]);
        } else if y == p {
            assert(s[x] == r[x]);
        } else if x < p {
            assert(s[x] == r[x] && s[y] == r[y - 1]);
            lemma_key_order(hl, r[x].0.hash, h, r[y - 1].0.hash);
            lemma_key_order(hl, h, r[p].0.hash, r[y - 1].0.hash);
        } else if x == p {
            assert(s[y] == r[y - 1]);
            lemma_key_order(hl, h, r[p].0.hash, r[y - 1].0.hash);
        } else {
            assert(s[x] == r[x - 1] && s[y] == r[y - 1]);
        }
    }
}

/// Adds entry `i` of the table, whose key is `key` and value `value`, to what
/// the entries before it made.
fn add_entry<'a>(
    hl: &'a HashIndex,
    r: &mut Vec<(HashedStr<'a>, String)>,
    key: HashedStr<'a>,
    value: String,
    Ghost(b): Ghost<Seq<u8>>,
    Ghost(i): Ghost<int>,
)
    requires
        0 <= i,
        table_of(b, *hl, i, old(r)@),
        used(b, i),
        key.hash == entry_hash(b, i),
        hl.names(key),
        value@ == lossy_text(value_bytes(b, i)),
    ensures
        table_of(b, *hl, i + 1, final(r)@),
{
    let ghost old_r = r@;
    let mut p: usize = 0;
    while p < r.len() && key_before(hl, &r[p].0, &key)
        invariant
            r@ == old_r,
            p <= r@.len(),
            table_of(b, *hl, i, r@),
            hl.names(key),
            forall|q: int| 0 <= q < p ==> shown_before(*hl, (#[trigger] r@[q]).0.hash, key.hash),
        decreases r.len() - p,
    {
        p = p + 1;
    }
    assert(stops_at(*hl, old_r, p as int, key.hash));
    if p < r.len() && key_same(hl, &r[p].0, &key) {
        let old_key = r[p].0;
        proof {
            lemma_add_existing(b, *hl, i, old_r, p as int, value);
        }
        r.set(p, (old_key, value));
    } else {
        proof {
            lemma_add_new(b, *hl, i, old_r, p as int, key, value);
        }
        r.insert(p, (key, value));
    }
}

/// The entry `first_of_key` finds is a used one with that key.
proof fn lemma_first_of_key_used(b: Seq<u8>, hl: HashIndex, n: int, h: u64)
    ensures
        first_of_key(b, hl, n, h) matches Some(j) ==> 0 <= j < n && used(b, j) && same_key(
            hl,
            entry_hash(b, j),
            h,
        ),
    decreases n,
{
    if n > 0 {
        lemma_first_of_key_used(b, hl, n - 1, h);
    }
}

/// Reads a string table: the value of each used entry under its key, with
/// the text the hashlist has for it. Where several entries have one key
/// (the same text, or without a text the same hash), the pair keeps the
/// hash of the first and the value of the last; the pairs come in key order.
pub fn map_from_bytes<'a>(hashlist: &'a HashIndex, bytes: &[u8]) -> (r: Vec<(HashedStr<'a>, String)>)
    requires
        hashlist.wf(),
        table_readable(bytes@),
    ensures
        table_of(bytes@, *hashlist, string_count(bytes@), r@),
{
    let ghost b = bytes@;
    let _len = bytes.len();
    let mut result: Vec<(HashedStr<'a>, String)> = Vec::new();
    let string_count = read_u32_le(bytes, 4);
    let mut i: u32 = 0;
    while i < string_count
        invariant
            b == bytes@,
            b.len() <= usize::MAX,
            hashlist.wf(),
            table_readable(b),
            string_count == self::string_count(b),
            i <= string_count,
            table_of(b, *hashlist, i as int, result@),
        decreases string_count - i,
    {
        assert(entry_readable(b, i as int));
        let entry_base: usize = 32 + (i as usize) * 24;
        let hash = read_u64_le(bytes, entry_base + 8);
        if hash != diesel_hash::EMPTY {
            let value_start = read_u32_le(bytes, entry_base + 20) as usize;
            let mut value_end = value_start;
            while value_end < bytes.len() && bytes[value_end] != 0
                invariant
                    b == bytes@,
                    value_start <= value_end <= b.len(),
                    self::value_end(b, value_start as int) == self::value_end(b, value_end as int),
                decreases bytes.len() - value_end,
            {
                value_end = value_end + 1;
            }
            let value = utf8_lossy(&bytes[value_start..value_end]);
            let key = hashlist.get_hash(hash);
            add_entry(hashlist, &mut result, key, value, Ghost(b), Ghost(i as int));
        } else {
            proof {
                assert forall|k: int| 0 <= k < result@.len() implies {
                    let hk = (#[trigger] result@[k]).0.hash;
                    &&& first_of_key(b, *hashlist, i + 1, hk) == first_of_key(b, *hashlist, i as int, hk)
                    &&& last_of_key(b, *hashlist, i + 1, hk) == last_of_key(b, *hashlist, i as int, hk)
                } by {}
            }
        }
        i = i + 1;
    }
    result
}

/// Whether `map_from_bytes` can read the bytes.
pub fn string_table_readable(bytes: &[u8]) -> (r: bool)
    ensures
        r == table_readable(bytes@),
{
    let len = bytes.len();
    if len < 8 {
        return false;
    }
    let count = read_u32_le(bytes, 4);
    let mut i: u32 = 0;
    while i < count
        invariant
            len == bytes@.len(),
            8 <= bytes@.len(),
            count == string_count(bytes@),
            i <= count,
            forall|j: int| 0 <= j < i ==> #[trigger] entry_readable(bytes@, j),
        decreases count - i,
    {
        let base: u64 = 32 + (i as u64) * 24;
        if base + 16 > len as u64 {
            assert(!entry_readable(bytes@, i as int));
            return false;
        }
        let hash = read_u64_le(bytes, base as usize + 8);
        if hash != diesel_hash::EMPTY {
            if base + 24 > len as u64 {
                assert(!entry_readable(bytes@, i as int));
                return false;
            }
            let start = read_u32_le(bytes, base as usize + 20) as usize;
            if start > len {
                assert(!entry_readable(bytes@, i as int));
                return false;
            }
        }
        assert(entry_readable(bytes@, i as int));
        i = i + 1;
    }
    true
}

/// How a character is written inside a JSON string: `"` and `\\` escaped,
/// the control characters with short escapes by them, the other control
/// characters as `\u00` and two hex digits, everything else as itself.
pub open spec fn json_escape(c: char) -> Seq<char> {
    if c == '"' {
        seq!['\\', '"']
    } else if c == '\\' {
        seq!['\\', '\\']
    } else if c == '\n' {
        seq!['\\', 'n']
    } else if c == '\r' {
        seq!['\\', 'r']
    } else if c == '\t' {
        seq!['\\', 't']
    } else if c == '\x08' {
        seq!['\\', 'b']
    } else if c == '\x0C' {
        seq!['\\', 'f']
    } else if (c as u32) < 0x20 {
        seq!['\\', 'u', '0', '0', hex_digit((c as u32 / 16) as int), hex_digit((c as u32 % 16) as int)]
    } else {
        seq![c]
    }
}

/// The escapes of the first `n` characters of `s`, one after another.
pub open spec fn json_escaped(s: Seq<char>, n: int) -> Seq<char>
    decreases n,
{
    if n <= 0 {
        Seq::empty()
    } else {
        json_escaped(s, n - 1) + json_escape(s[n - 1])
    }
}

/// `s` as a JSON string.
pub open spec fn json_string(s: Seq<char>) -> Seq<char> {
    seq!['"'] + json_escaped(s, s.len() as int) + seq!['"']
}

/// The first `n` members of a JSON object of the pairs, each `key: value`,
/// separated by a comma, a line break and two spaces.
pub open spec fn json_members(pairs: Seq<(Seq<char>, Seq<char>)>, n: int) -> Seq<char>
    decreases n,
{
    if n <= 0 {
        Seq::empty()
    } else {
        json_members(pairs, n - 1) + (if n > 1 {
            seq![',', '\n', ' ', ' ']
        } else {
            Seq::empty()
        }) + json_string(pairs[n - 1].0) + seq![':', ' '] + json_string(pairs[n - 1].1)
    }
}

/// The pairs as a JSON object: `{`, a line break and two spaces, the members,
/// `}` and a line break.
pub open spec fn json_object(pairs: Seq<(Seq<char>, Seq<char>)>) -> Seq<char> {
    seq!['{', '\n', ' ', ' '] + json_members(pairs, pairs.len() as int) + seq!['}', '\n']
}

/// The pairs of a read table as text: each key as it displays, and its value.
pub open spec fn shown_pairs(r: Seq<(HashedStr, String)>) -> Seq<(Seq<char>, Seq<char>)> {
    Seq::new(
        r.len(),
        |i: int|
            (
                spec_display(
                    r[i].0.hash,
                    match r[i].0.text {
                        Some(t) => Some(t@),
                        None => None,
                    },
                ),
                r[i].1@,
            ),
    )
}

/// Whether `out` is the string table `b` written as JSON with the names of
/// `hl`: the UTF-8 bytes of the object of the table's pairs, in the order
/// `map_from_bytes` gives them.
pub open spec fn table_json(b: Seq<u8>, hl: HashIndex, out: Seq<u8>) -> bool {
    exists|r: Seq<(HashedStr, String)>|
        #[trigger] table_of(b, hl, string_count(b), r) && out == vstd::utf8::encode_utf8(json_object(shown_pairs(r)))
}

fn hex_char(d: u32) -> (c: char)
    requires
        d < 16,
    ensures
        c == hex_digit(d as int),
{
    if d < 10 {
        ((48 + d) as u8) as char
    } else {
        ((87 + d) as u8) as char
    }
}

/// Appends `s` as a JSON string.
fn push_json_string(out: &mut String, s: &str)
    ensures
        final(out)@ == old(out)@ + json_string(s@),
{
    push_char(out, '"');
    let n = s.unicode_len();
    let mut i: usize = 0;
    while i < n
        invariant
            n == s@.len(),
            i <= n,
            out@ == old(out)@ + seq!['"'] + json_escaped(s@, i as int),
        decreases n - i,
    {
        let c = s.get_char(i);
        let ghost before = out@;
        let cu = c as u32;
        if c == '"' {
            push_char(out, '\\');
            push_char(out, '"');
        } else if c == '\\' {
            push_char(out, '\\');
            push_char(out, '\\');
        } else if c == '\n' {
            push_char(out, '\\');
            push_char(out, 'n');
        } else if c == '\r' {
            push_char(out, '\\');
            push_char(out, 'r');
        } else if c == '\t' {
            push_char(out, '\\');
            push_char(out, 't');
        } else if c == '\x08' {
            push_char(out, '\\');
            push_char(out, 'b');
        } else if c == '\x0C' {
            push_char(out, '\\');
            push_char(out, 'f');
        } else if cu < 0x20 {
            push_char(out, '\\');
            push_char(out, 'u');
            push_char(out, '0');
            push_char(out, '0');
            push_char(out, hex_char(cu / 16));
            push_char(out, hex_char(cu % 16));
        } else {
            push_char(out, c);
        }
        assert(out@ =~= before + json_escape(c));
        assert(s@[i as int] == c);
        assert(out@ =~= old(out)@ + seq!['"'] + json_escaped(s@, i + 1));
        i += 1;
    }
    push_char(out, '"');
    assert(out@ =~= old(out)@ + json_string(s@));
}

/// Appends the four characters of `t`.
fn push4(out: &mut String, a: char, b: char, c: char, d: char)
    ensures
        final(out)@ == old(out)@ + seq![a, b, c, d],
{
    push_char(out, a);
    push_char(out, b);
    push_char(out, c);
    push_char(out, d);
    assert(out@ =~= old(out)@ + seq![a, b, c, d]);
}

/// Writes a string table as a JSON object: each key, as the hashlist names
/// it (or its hash in hex), with its value, in the order `map_from_bytes`
/// gives them.
pub fn bytes_to_json(hashlist: &HashIndex, input: &[u8]) -> (out: Vec<u8>)
    requires
        hashlist.wf(),
        table_readable(input@),
    ensures
        table_json(input@, *hashlist, out@),
{
    let map = map_from_bytes(hashlist, input);
    let ghost pairs = shown_pairs(map@);
    let mut text = String::new();
    push4(&mut text, '{', '\n', ' ', ' ');
    let n = map.len();
    let mut i: usize = 0;
    while i < n
        invariant
            n == map@.len(),
            pairs == shown_pairs(map@),
            i <= n,
            text@ == seq!['{', '\n', ' ', ' '] + json_members(pairs, i as int),
        decreases n - i,
    {
        let ghost before = text@;
        if i > 0 {
            push4(&mut text, ',', '\n', ' ', ' ');
        }
        let key = map[i].0.to_display_string();
        push_json_string(&mut text, key.as_str());
        push_char(&mut text, ':');
        push_char(&mut text, ' ');
        push_json_string(&mut text, map[i].1.as_str());
        proof {
            assert(pairs[i as int].0 == key@);
            assert(pairs[i as int].1 == map@[i as int].1@);
            assert(text@ =~= seq!['{', '\n', ' ', ' '] + json_members(pairs, i + 1));
        }
        i += 1;
    }
    push_char(&mut text, '}');
    push_char(&mut text, '\n');
    assert(text@ =~= json_object(pairs));
    let out = text.as_str().as_bytes_vec();
    out
}

} // verus!
