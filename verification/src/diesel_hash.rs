//! The Diesel engine's Idstring hash: Bob Jenkins' 64-bit `lookup8` hash
//! over the bytes of a string, and the parsers that read hashes back from text.
use vstd::prelude::*;
use crate::read_helpers::le_u64;

verus! {

/// The initial value of the third register, the golden ratio.
pub const GOLDEN_RATIO: u64 = 0x9e3779b97f4a7c13;

/// The hash of the empty string.
pub const EMPTY: u64 = 0x8db63936938575bf;

/// One round of `lookup8`'s mixing function.
#[verifier::opaque]
pub open spec fn mix64(a: u64, b: u64, c: u64) -> (u64, u64, u64) {
    let a = a.wrapping_sub(b).wrapping_sub(c) ^ c.wrapping_shr(43);
    let b = b.wrapping_sub(c).wrapping_sub(a) ^ a.wrapping_shl(9);
    let c = c.wrapping_sub(a).wrapping_sub(b) ^ b.wrapping_shr(8);
    let a = a.wrapping_sub(b).wrapping_sub(c) ^ c.wrapping_shr(38);
    let b = b.wrapping_sub(c).wrapping_sub(a) ^ a.wrapping_shl(23);
    let c = c.wrapping_sub(a).wrapping_sub(b) ^ b.wrapping_shr(5);
    let a = a.wrapping_sub(b).wrapping_sub(c) ^ c.wrapping_shr(35);
    let b = b.wrapping_sub(c).wrapping_sub(a) ^ a.wrapping_shl(49);
    let c = c.wrapping_sub(a).wrapping_sub(b) ^ b.wrapping_shr(11);
    let a = a.wrapping_sub(b).wrapping_sub(c) ^ c.wrapping_shr(12);
    let b = b.wrapping_sub(c).wrapping_sub(a) ^ a.wrapping_shl(18);
    let c = c.wrapping_sub(a).wrapping_sub(b) ^ b.wrapping_shr(22);
    (a, b, c)
}

/// The registers after the first `n` whole 24-byte blocks of `k` are absorbed.
pub open spec fn absorb_blocks(k: Seq<u8>, level: u64, n: nat) -> (u64, u64, u64)
    decreases n,
{
    if n == 0 {
        (level, level, GOLDEN_RATIO)
    } else {
        let (a, b, c) = absorb_blocks(k, level, (n - 1) as nat);
        let base = 24 * (n - 1);
        mix64(
            a.wrapping_add(le_u64(k, base)),
            b.wrapping_add(le_u64(k, base + 8)),
            c.wrapping_add(le_u64(k, base + 16)),
        )
    }
}

/// Adds the `n`th byte (counting from 1) of the final partial block at `base`
/// into its register: bytes 1 to 8 go into `a`, 9 to 16 into `b`, and 17 to 23
/// into `c` from its second byte up (its low byte holds the length).
pub open spec fn add_tail_byte(st: (u64, u64, u64), k: Seq<u8>, base: int, n: int) -> (u64, u64, u64) {
    let byte = k[base + n - 1] as u64;
    if n >= 17 {
        (st.0, st.1, st.2.wrapping_add(byte << ((8 * (n - 16)) as u64)))
    } else if n >= 9 {
        (st.0, st.1.wrapping_add(byte << ((8 * (n - 9)) as u64)), st.2)
    } else {
        (st.0.wrapping_add(byte << ((8 * (n - 1)) as u64)), st.1, st.2)
    }
}

/// The registers after bytes `n`, `n - 1`, ..., `1` of the partial block at
/// `base` are added in, in that order.
pub open spec fn absorb_tail(st: (u64, u64, u64), k: Seq<u8>, base: int, n: nat) -> (u64, u64, u64)
    decreases n,
{
    if n == 0 {
        st
    } else {
        absorb_tail(add_tail_byte(st, k, base, n as int), k, base, (n - 1) as nat)
    }
}

/// `lookup8` of the bytes `k` with initial value `level`.
pub open spec fn spec_hash_level(k: Seq<u8>, level: u64) -> u64 {
    let blocks = k.len() / 24;
    let (a, b, c) = absorb_blocks(k, level, blocks);
    let st = absorb_tail((a, b, c.wrapping_add(k.len() as u64)), k, (24 * blocks) as int, k.len() % 24);
    mix64(st.0, st.1, st.2).2
}

/// How `lookup8` takes in its key. The registers start as `a = b = level`
/// and `c` the golden ratio. Each whole 24-byte block adds its first,
/// second and third little-endian 64-bit words to `a`, `b` and `c`
/// respectively (wrapping), then mixes them. The key's length is added to
/// `c` before the bytes after the last whole block are taken in, and the
/// hash is `c` after the final mix.
pub proof fn lemma_lookup8_structure(k: Seq<u8>, level: u64, n: nat)
    ensures
        absorb_blocks(k, level, 0) == (level, level, 0x9e3779b97f4a7c13u64),
        24 * (n + 1) <= k.len() ==> {
            let prev = absorb_blocks(k, level, n);
            let off = (24 * n) as int;
            absorb_blocks(k, level, n + 1) == mix64(
                prev.0.wrapping_add(le_u64(k, off)),
                prev.1.wrapping_add(le_u64(k, off + 8)),
                prev.2.wrapping_add(le_u64(k, off + 16)),
            )
        },
        ({
            let whole = k.len() / 24;
            let regs = absorb_blocks(k, level, whole);
            let with_len = (regs.0, regs.1, regs.2.wrapping_add(k.len() as u64));
            let fin = absorb_tail(with_len, k, (24 * whole) as int, k.len() % 24);
            spec_hash_level(k, level) == mix64(fin.0, fin.1, fin.2).2
        }),
{
}

/// How `lookup8` takes in the bytes after the last whole block: the `j`th
/// of them (counting from 1) is added to `a` shifted left by `8 * (j - 1)`
/// bits for `j` from 1 to 8, to `b` shifted by `8 * (j - 9)` for `j` from 9
/// to 16, and to `c` shifted by `8 * (j - 16)` for `j` from 17 to 23.
pub proof fn lemma_lookup8_tail_byte(st: (u64, u64, u64), k: Seq<u8>, base: int, j: int)
    requires
        1 <= j <= 23,
    ensures
        1 <= j <= 8 ==> add_tail_byte(st, k, base, j) == (
            st.0.wrapping_add((k[base + j - 1] as u64) << ((8 * (j - 1)) as u64)),
            st.1,
            st.2,
        ),
        9 <= j <= 16 ==> add_tail_byte(st, k, base, j) == (
            st.0,
            st.1.wrapping_add((k[base + j - 1] as u64) << ((8 * (j - 9)) as u64)),
            st.2,
        ),
        17 <= j <= 23 ==> add_tail_byte(st, k, base, j) == (
            st.0,
            st.1,
            st.2.wrapping_add((k[base + j - 1] as u64) << ((8 * (j - 16)) as u64)),
        ),
{
}

/// The Idstring of a string: `lookup8` of its UTF-8 bytes with level 0.
pub open spec fn spec_hash_str(s: Seq<char>) -> u64 {
    spec_hash_level(vstd::utf8::encode_utf8(s), 0)
}

fn const_mix64(a: u64, b: u64, c: u64) -> (r: (u64, u64, u64))
    ensures
        r == mix64(a, b, c),
{
    reveal(mix64);
    let mut a = a;
    let mut b = b;
    let mut c = c;
    a = a.wrapping_sub(b); a = a.wrapping_sub(c); a ^= c.wrapping_shr(43);
    b = b.wrapping_sub(c); b = b.wrapping_sub(a); b ^= a.wrapping_shl(9);
    c = c.wrapping_sub(a); c = c.wrapping_sub(b); c ^= b.wrapping_shr(8);
    a = a.wrapping_sub(b); a = a.wrapping_sub(c); a ^= c.wrapping_shr(38);
    b = b.wrapping_sub(c); b = b.wrapping_sub(a); b ^= a.wrapping_shl(23);
    c = c.wrapping_sub(a); c = c.wrapping_sub(b); c ^= b.wrapping_shr(5);
    a = a.wrapping_sub(b); a = a.wrapping_sub(c); a ^= c.wrapping_shr(35);
    b = b.wrapping_sub(c); b = b.wrapping_sub(a); b ^= a.wrapping_shl(49);
    c = c.wrapping_sub(a); c = c.wrapping_sub(b); c ^= b.wrapping_shr(11);
    a = a.wrapping_sub(b); a = a.wrapping_sub(c); a ^= c.wrapping_shr(12);
    b = b.wrapping_sub(c); b = b.wrapping_sub(a); b ^= a.wrapping_shl(18);
    c = c.wrapping_sub(a); c = c.wrapping_sub(b); c ^= b.wrapping_shr(22);
    (a, b, c)
}

fn read_le_u64(k: &[u8], i: usize) -> (val: u64)
    requires
        i + 8 <= k@.len(),
    ensures
        val == le_u64(k@, i as int),
{
    let b0 = k[i + 0];
    let b1 = k[i + 1];
    let b2 = k[i + 2];
    let b3 = k[i + 3];
    let b4 = k[i + 4];
    let b5 = k[i + 5];
    let b6 = k[i + 6];
    let b7 = k[i + 7];
    assert((b0 as u64) + ((b1 as u64) << 8u64) + ((b2 as u64) << 16u64) + ((b3 as u64) << 24u64)
        + ((b4 as u64) << 32u64) + ((b5 as u64) << 40u64) + ((b6 as u64) << 48u64) + ((b7 as u64)
        << 56u64) == (((b0 as int + b1 as int * 0x100 + b2 as int * 0x1_0000 + b3 as int
        * 0x100_0000) as u32) as int + ((b4 as int + b5 as int * 0x100 + b6 as int * 0x1_0000
        + b7 as int * 0x100_0000) as u32) as int * 0x1_0000_0000) as u64) by (bit_vector);
    let val = (b0 as u64) + ((b1 as u64) << 8) + ((b2 as u64) << 16) + ((b3 as u64) << 24) + ((
    b4 as u64) << 32) + ((b5 as u64) << 40) + ((b6 as u64) << 48) + ((b7 as u64) << 56);
    val
}

/// `lookup8` of the bytes `k`, with initial value `level`.
pub fn hash_level(k: &[u8], level: u64) -> (h: u64)
    ensures
        h == spec_hash_level(k@, level),
{
    let klen = k.len();
    let mut len: u64 = klen as u64;
    let mut a: u64 = level;
    let mut b: u64 = level;
    let mut c: u64 = GOLDEN_RATIO;

    let mut len_x: usize = 0;
    let ghost mut blocks: nat = 0;
    while len >= 24
        invariant
            len_x + len == k@.len(),
            klen == k@.len(),
            len_x == 24 * blocks,
            (a, b, c) == absorb_blocks(k@, level, blocks),
        decreases len,
    {
        a = a.wrapping_add(read_le_u64(k, len_x));
        b = b.wrapping_add(read_le_u64(k, len_x + 8));
        c = c.wrapping_add(read_le_u64(k, len_x + 16));
        let mixed = const_mix64(a, b, c);
        a = mixed.0;
        b = mixed.1;
        c = mixed.2;
        len_x += 24;
        len -= 24;
        proof {
            blocks = blocks + 1;
        }
    }
    assert(blocks == k@.len() / 24 && len == k@.len() % 24) by (nonlinear_arith)
        requires
            len_x + len == k@.len(),
            klen == k@.len(),
            len_x == 24 * blocks,
            len < 24,
    ;

    c = c.wrapping_add(k.len() as u64);
    let ghost start = (a, b, c);
    let ghost base: int = len_x as int;

    if len <= 23 {
        while len > 0
            invariant
                len_x + len <= k@.len(),
                klen == k@.len(),
                base == len_x,
                len <= 23,
                absorb_tail((a, b, c), k@, base, len as nat) == absorb_tail(
                    start,
                    k@,
                    base,
                    (k@.len() % 24) as nat,
                ),
            decreases len,
        {
            let ghost before = (a, b, c);
            c = c.wrapping_add(match len {
                23 => (k[len_x + 22] as u64) << 56,
                22 => (k[len_x + 21] as u64) << 48,
                21 => (k[len_x + 20] as u64) << 40,
                20 => (k[len_x + 19] as u64) << 32,
                19 => (k[len_x + 18] as u64) << 24,
                18 => (k[len_x + 17] as u64) << 16,
                17 => (k[len_x + 16] as u64) << 8,
                _ => 0,
            });
            b = b.wrapping_add(match len {
                16 => (k[len_x + 15] as u64) << 56,
                15 => (k[len_x + 14] as u64) << 48,
                14 => (k[len_x + 13] as u64) << 40,
                13 => (k[len_x + 12] as u64) << 32,
                12 => (k[len_x + 11] as u64) << 24,
                11 => (k[len_x + 10] as u64) << 16,
                10 => (k[len_x + 9] as u64) << 8,
                9 => (k[len_x + 8] as u64),
                _ => 0,
            });
            a = a.wrapping_add(match len {
                8 => (k[len_x + 7] as u64) << 56,
                7 => (k[len_x + 6] as u64) << 48,
                6 => (k[len_x + 5] as u64) << 40,
                5 => (k[len_x + 4] as u64) << 32,
                4 => (k[len_x + 3] as u64) << 24,
                3 => (k[len_x + 2] as u64) << 16,
                2 => (k[len_x + 1] as u64) << 8,
                1 => (k[len_x + 0] as u64),
                _ => 0,
            });
            proof {
                let byte = k@[base + len - 1] as u64;
                assert(byte << 0u64 == byte) by (bit_vector);
                if len >= 17 {
                    assert(a == before.0 && b == before.1);
                    assert(c == before.2.wrapping_add(byte << ((8 * (len - 16)) as u64)));
                } else if len >= 9 {
                    assert(a == before.0 && c == before.2);
                    assert(b == before.1.wrapping_add(byte << ((8 * (len - 9)) as u64)));
                } else {
                    assert(b == before.1 && c == before.2);
                    assert(a == before.0.wrapping_add(byte << ((8 * (len - 1)) as u64)));
                }
            }
            assert((a, b, c) == add_tail_byte(before, k@, base, len as int));
            len -= 1;
        }
    }
    let mixed = const_mix64(a, b, c);
    c = mixed.2;
    return c;
}

/// The twelve steps of `mix64(0, 0, GOLDEN_RATIO)`, evaluated.
proof fn lemma_mix_of_empty_steps()
    by (bit_vector)
    ensures
        0x0u64.wrapping_sub(0x0u64).wrapping_sub(0x9e3779b97f4a7c13u64) ^ 0x9e3779b97f4a7c13u64.wrapping_shr(43) == 0x61c8864680a64502u64,
        0x0u64.wrapping_sub(0x9e3779b97f4a7c13u64).wrapping_sub(0x61c8864680a64502u64) ^ 0x61c8864680a64502u64.wrapping_shl(9) == 0x910c8d014c853aebu64,
        0x9e3779b97f4a7c13u64.wrapping_sub(0x61c8864680a64502u64).wrapping_sub(0x910c8d014c853aebu64) ^ 0x910c8d014c853aebu64.wrapping_shr(8) == 0xabf36afcb352791cu64,
        0x61c8864680a64502u64.wrapping_sub(0x910c8d014c853aebu64).wrapping_sub(0xabf36afcb352791cu64) ^ 0xabf36afcb352791cu64.wrapping_shr(38) == 0x24c88e4882615d50u64,
        0x910c8d014c853aebu64.wrapping_sub(0xabf36afcb352791cu64).wrapping_sub(0x24c88e4882615d50u64) ^ 0x24c88e4882615d50u64.wrapping_shl(23) == 0xe411a312bed1647fu64,
        0xabf36afcb352791cu64.wrapping_sub(0x24c88e4882615d50u64).wrapping_sub(0xe411a312bed1647fu64) ^ 0xe411a312bed1647fu64.wrapping_shr(5) == 0xa439b4b9e7e93c6eu64,
        0x24c88e4882615d50u64.wrapping_sub(0xe411a312bed1647fu64).wrapping_sub(0xa439b4b9e7e93c6eu64) ^ 0xa439b4b9e7e93c6eu64.wrapping_shr(35) == 0x9c7d367bcf218af4u64,
        0xe411a312bed1647fu64.wrapping_sub(0xa439b4b9e7e93c6eu64).wrapping_sub(0x9c7d367bcf218af4u64) ^ 0x9c7d367bcf218af4u64.wrapping_shl(49) == 0xb6b2b7dd07c69d1du64,
        0xa439b4b9e7e93c6eu64.wrapping_sub(0x9c7d367bcf218af4u64).wrapping_sub(0xb6b2b7dd07c69d1du64) ^ 0xb6b2b7dd07c69d1du64.wrapping_shr(11) == 0x511f1037eaa1ec8eu64,
        0x9c7d367bcf218af4u64.wrapping_sub(0xb6b2b7dd07c69d1du64).wrapping_sub(0x511f1037eaa1ec8eu64) ^ 0x511f1037eaa1ec8eu64.wrapping_shr(12) == 0x94ae7f97dfc7ab57u64,
        0xb6b2b7dd07c69d1du64.wrapping_sub(0x511f1037eaa1ec8eu64).wrapping_sub(0x94ae7f97dfc7ab57u64) ^ 0x94ae7f97dfc7ab57u64.wrapping_shl(18) == 0x2eba571390010538u64,
        0x511f1037eaa1ec8eu64.wrapping_sub(0x94ae7f97dfc7ab57u64).wrapping_sub(0x2eba571390010538u64) ^ 0x2eba571390010538u64.wrapping_shr(22) == 0x8db63936938575bfu64,
{
}

/// `EMPTY` is the Idstring of the empty string.
pub proof fn lemma_empty_hash()
    ensures
        spec_hash_str(Seq::empty()) == EMPTY,
{
    reveal(mix64);
    assert(vstd::utf8::encode_utf8(Seq::<char>::empty()) =~= Seq::<u8>::empty());
    lemma_mix_of_empty_steps();
}

/// The Idstring of a string.
pub fn hash_str(s: &str) -> (h: u64)
    ensures
        h == spec_hash_str(s@),
{
    hash_level(s.as_bytes(), 0)
}

/// The value of the byte `d` as a digit in base `radix`: `0`-`9` and then
/// `a`-`z` or `A`-`Z` for ten and up.
pub open spec fn digit_value(d: u8, radix: u32) -> Option<u32> {
    let v: int = if 48 <= d <= 57 {
        d - 48
    } else if 97 <= d <= 122 {
        d - 97 + 10
    } else if 65 <= d <= 90 {
        d - 65 + 10
    } else {
        36
    };
    if v < radix {
        Some(v as u32)
    } else {
        None
    }
}

/// The number written by the digits `ds` in base `radix`, most significant
/// first, or `None` if one of them is not a digit.
pub open spec fn digits_value(ds: Seq<u8>, radix: u32) -> Option<nat>
    decreases ds.len(),
{
    if ds.len() == 0 {
        Some(0)
    } else {
        match (digits_value(ds.drop_last(), radix), digit_value(ds.last(), radix)) {
            (Some(v), Some(d)) => Some(v * (radix as nat) + (d as nat)),
            _ => None,
        }
    }
}

/// What `u64::from_str_radix` gives for the bytes `s`: an optional `+`, then
/// one or more digits whose value fits in a `u64`.
pub open spec fn spec_parse_radix(s: Seq<u8>, radix: u32) -> Option<u64> {
    let ds = if s.len() > 0 && s[0] == 43u8 {
        s.drop_first()
    } else {
        s
    };
    if ds.len() == 0 {
        None
    } else {
        match digits_value(ds, radix) {
            Some(v) => if v <= u64::MAX {
                Some(v as u64)
            } else {
                None
            },
            None => None,
        }
    }
}

proof fn lemma_digits_value_monotone(ds: Seq<u8>, radix: u32, i: int)
    requires
        2 <= radix <= 36,
        0 <= i <= ds.len(),
        digits_value(ds.take(i), radix) is Some,
    ensures
        digits_value(ds, radix) matches Some(v) ==> v >= digits_value(ds.take(i), radix)->0,
    decreases ds.len() - i,
{
    if i < ds.len() {
        assert(ds.take(i + 1).drop_last() =~= ds.take(i));
        if digits_value(ds.take(i + 1), radix) is Some {
            let v = digits_value(ds.take(i), radix)->0;
            assert(v * radix >= v) by (nonlinear_arith)
                requires
                    radix >= 2,
            ;
            lemma_digits_value_monotone(ds, radix, i + 1);
        } else {
            lemma_digits_value_none_extends(ds, radix, i + 1);
        }
    } else {
        assert(ds.take(i) =~= ds);
    }
}

proof fn lemma_digits_value_none_extends(ds: Seq<u8>, radix: u32, i: int)
    requires
        0 <= i <= ds.len(),
        digits_value(ds.take(i), radix) is None,
    ensures
        digits_value(ds, radix) is None,
    decreases ds.len() - i,
{
    if i < ds.len() {
        assert(ds.take(i + 1).drop_last() =~= ds.take(i));
        lemma_digits_value_none_extends(ds, radix, i + 1);
    } else {
        assert(ds.take(i) =~= ds);
    }
}

fn digit_of(d: u8, radix: u32) -> (r: Option<u32>)
    ensures
        r == digit_value(d, radix),
{
    let v: u32 = if 48 <= d && d <= 57 {
        (d - 48) as u32
    } else if 97 <= d && d <= 122 {
        (d - 97 + 10) as u32
    } else if 65 <= d && d <= 90 {
        (d - 65 + 10) as u32
    } else {
        36
    };
    if v < radix {
        Some(v)
    } else {
        None
    }
}

/// Parses the bytes `s` as `u64::from_str_radix` does.
pub fn parse_radix(s: &[u8], radix: u32) -> (r: Option<u64>)
    requires
        2 <= radix <= 36,
    ensures
        r == spec_parse_radix(s@, radix),
{
    let n = s.len();
    let start: usize = if n > 0 && s[0] == 43u8 {
        1
    } else {
        0
    };
    let ghost ds = if s@.len() > 0 && s@[0] == 43u8 {
        s@.drop_first()
    } else {
        s@
    };
    assert(ds =~= s@.subrange(start as int, n as int));
    if start == n {
        return None;
    }
    let mut acc: u64 = 0;
    let mut i: usize = start;
    assert(ds.take(0) =~= Seq::<u8>::empty());
    while i < n
        invariant
            start <= i <= n,
            n == s@.len(),
            2 <= radix <= 36,
            ds =~= s@.subrange(start as int, n as int),
            ds == (if s@.len() > 0 && s@[0] == 43u8 {
                s@.drop_first()
            } else {
                s@
            }),
            ds.len() > 0,
            digits_value(ds.take(i - start), radix) == Some(acc as nat),
        decreases n - i,
    {
        let ghost k = i - start;
        assert(ds.take(k + 1).drop_last() =~= ds.take(k));
        assert(ds.take(k + 1).last() == s@[i as int]);
        match digit_of(s[i], radix) {
            None => {
                proof {
                    lemma_digits_value_none_extends(ds, radix, k + 1);
                }
                return None;
            },
            Some(d) => {
                match acc.checked_mul(radix as u64) {
                    None => {
                        proof {
                            lemma_big_prefix(ds, radix, k, acc as nat, d);
                        }
                        return None;
                    },
                    Some(m) => match m.checked_add(d as u64) {
                        None => {
                            proof {
                                lemma_big_prefix(ds, radix, k, acc as nat, d);
                            }
                            return None;
                        },
                        Some(v) => {
                            acc = v;
                        },
                    },
                }
            },
        }
        i += 1;
    }
    assert(ds.take(n - start) =~= ds);
    Some(acc)
}

proof fn lemma_big_prefix(ds: Seq<u8>, radix: u32, k: int, acc: nat, d: u32)
    requires
        2 <= radix <= 36,
        0 <= k < ds.len(),
        digits_value(ds.take(k), radix) == Some(acc),
        digit_value(ds[k], radix) == Some(d),
        acc * radix + d > u64::MAX,
    ensures
        match digits_value(ds, radix) {
            Some(v) => v > u64::MAX,
            None => true,
        },
{
    assert(ds.take(k + 1).drop_last() =~= ds.take(k));
    assert(ds.take(k + 1).last() == ds[k]);
    lemma_digits_value_monotone(ds, radix, k + 1);
}

/// What `from_str` gives for a string with UTF-8 bytes `b`: exactly sixteen
/// hex digits (no sign) are taken as a printed hash; anything else is hashed.
pub open spec fn spec_from_bytes(b: Seq<u8>) -> u64 {
    if b.len() == 16 && b[0] != 43u8 && spec_parse_radix(b, 16) is Some {
        spec_parse_radix(b, 16)->0
    } else {
        spec_hash_level(b, 0)
    }
}

/// What `from_str` gives for the string `s`.
pub open spec fn spec_from_str(s: Seq<char>) -> u64 {
    spec_from_bytes(vstd::utf8::encode_utf8(s))
}

/// Like `hash_str`, but if the string is sixteen hex digits it is taken to be
/// a hash printed as hex, and that hash is returned.
pub fn from_str(s: &str) -> (h: u64)
    ensures
        h == spec_from_str(s@),
{
    let b = s.as_bytes();
    if b.len() == 16 && b[0] != 43u8 {
        if let Some(i) = parse_radix(b, 16) {
            return i;
        }
    }
    hash_str(s)
}

/// The `u64` whose bytes are those of `x` in the opposite order.
pub open spec fn spec_swap_bytes(x: u64) -> u64 {
    ((x & 0xff) << 56u64) | (((x >> 8u64) & 0xff) << 48u64) | (((x >> 16u64) & 0xff) << 40u64) | (((
    x >> 24u64) & 0xff) << 32u64) | (((x >> 32u64) & 0xff) << 24u64) | (((x >> 40u64) & 0xff)
        << 16u64) | (((x >> 48u64) & 0xff) << 8u64) | ((x >> 56u64) & 0xff)
}

/// Reverses the byte order of `x`, as `u64::from_be_bytes(x.to_le_bytes())` does.
pub fn swap_bytes(x: u64) -> (r: u64)
    ensures
        r == spec_swap_bytes(x),
{
    ((x & 0xff) << 56u64) | (((x >> 8u64) & 0xff) << 48u64) | (((x >> 16u64) & 0xff) << 40u64) | (((
    x >> 24u64) & 0xff) << 32u64) | (((x >> 32u64) & 0xff) << 24u64) | (((x >> 40u64) & 0xff)
        << 16u64) | (((x >> 48u64) & 0xff) << 8u64) | ((x >> 56u64) & 0xff)
}

/// The bytes `@ID`.
pub open spec fn id_prefix() -> Seq<u8> {
    seq![64u8, 73u8, 68u8]
}

/// Whether the bytes `b` are of the form `@ID` sixteen-hex-digits `@`.
pub open spec fn is_at_id_syntax(b: Seq<u8>) -> bool {
    &&& b.len() == 20
    &&& b.subrange(0, 3) == id_prefix()
    &&& b[19] == 64u8
    &&& spec_parse_radix(b.subrange(3, 19), 16) is Some
}

/// What `parse_flexibly` gives: the `@ID...@` syntax is a hash written with
/// its bytes swapped; anything else is read in base `radix`.
pub open spec fn spec_parse_flexibly(b: Seq<u8>, radix: u32) -> Result<u64, ()> {
    if is_at_id_syntax(b) {
        Ok(spec_swap_bytes(spec_parse_radix(b.subrange(3, 19), 16)->0))
    } else {
        match spec_parse_radix(b, radix) {
            Some(i) => Ok(i),
            None => Err(()),
        }
    }
}

/// Parses `s` in base `radix`, also recognising the `@ID...@` syntax. Any
/// text is accepted: the syntax is recognised on its bytes.
pub fn parse_flexibly(s: &str, radix: u32) -> (r: Result<u64, ()>)
    requires
        2 <= radix <= 36,
    ensures
        r == spec_parse_flexibly(vstd::utf8::encode_utf8(s@), radix),
{
    let b = s.as_bytes();
    if b.len() == 20 {
        if b[0] == 64u8 && b[1] == 73u8 && b[2] == 68u8 && b[19] == 64u8 {
            assert(b@.subrange(0, 3) =~= id_prefix());
            let digits = &b[3..19];
            if let Some(i) = parse_radix(digits, 16) {
                return Ok(swap_bytes(i));
            }
        } else {
            proof {
                if b@.subrange(0, 3) == id_prefix() {
                    assert(b@.subrange(0, 3)[0] == b@[0]);
                    assert(b@.subrange(0, 3)[1] == b@[1]);
                    assert(b@.subrange(0, 3)[2] == b@[2]);
                }
            }
        }
    }
    match parse_radix(b, radix) {
        Some(i) => Ok(i),
        None => Err(()),
    }
}

} // verus!
