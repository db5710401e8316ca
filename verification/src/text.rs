//! Byte-level facts about UTF-8 strings, and slicing a `str` at byte offsets.
use vstd::prelude::*;
use vstd::utf8::*;

verus! {

/// In valid UTF-8, a byte offset is a character boundary exactly when it is the
/// end, or the byte there is not a continuation byte.
pub proof fn lemma_char_boundary_iff(b: Seq<u8>, i: int)
    requires
        valid_utf8(b),
        0 <= i <= b.len(),
    ensures
        is_char_boundary(b, i) <==> (i == b.len() || !is_continuation_byte(b[i])),
    decreases b.len(),
{
    if i == 0 {
        if b.len() > 0 {
            assert(valid_first_scalar(b));
            assert(!is_continuation_byte(b[0]));
        }
        assert(is_char_boundary(b, i));
    } else {
        assert(valid_first_scalar(b));
        assert(valid_utf8(pop_first_scalar(b)));
        let l = length_of_first_scalar(b);
        let rest = pop_first_scalar(b);
        assert(rest.len() == b.len() - l);
        if i < l {
            assert(is_continuation_byte(b[i]));
            assert(!is_char_boundary(rest, i - l));
            assert(!is_char_boundary(b, i));
        } else {
            lemma_char_boundary_iff(rest, i - l);
            if i < b.len() {
                assert(rest[i - l] == b[i]);
            }
            assert(is_char_boundary(b, i) == is_char_boundary(rest, i - l));
        }
    }
}

/// In valid UTF-8, the offset just after an ASCII byte is a character boundary.
pub proof fn lemma_after_ascii_is_boundary(b: Seq<u8>, i: int)
    requires
        valid_utf8(b),
        0 <= i < b.len(),
        b[i] < 0x80,
    ensures
        is_char_boundary(b, i + 1),
    decreases b.len(),
{
    assert(valid_first_scalar(b));
    let l = length_of_first_scalar(b);
    let rest = pop_first_scalar(b);
    assert(valid_utf8(rest));
    assert(rest.len() == b.len() - l);
    if i == 0 {
        assert(l == 1);
        assert(is_char_boundary(rest, 0));
    } else {
        if i < l {
            assert(is_continuation_byte(b[i]));
        }
        assert(rest[i - l] == b[i]);
        lemma_after_ascii_is_boundary(rest, i - l);
    }
}

/// In valid UTF-8, the offset just after an ASCII byte may be cut at.
pub proof fn lemma_after_ascii_cuttable(b: Seq<u8>, i: int)
    requires
        valid_utf8(b),
        0 <= i < b.len(),
        b[i] < 0x80,
    ensures
        cuttable(b, i + 1),
{
    lemma_after_ascii_is_boundary(b, i);
    lemma_char_boundary_iff(b, i + 1);
}

/// The encoding of two character sequences one after the other is the two
/// encodings one after the other.
pub proof fn lemma_encode_utf8_append(a: Seq<char>, b: Seq<char>)
    ensures
        encode_utf8(a + b) == encode_utf8(a) + encode_utf8(b),
    decreases a.len(),
{
    if a.len() == 0 {
        assert(a + b =~= b);
        assert(encode_utf8(a) =~= Seq::<u8>::empty());
        assert(encode_utf8(a) + encode_utf8(b) =~= encode_utf8(b));
    } else {
        lemma_encode_utf8_append(a.drop_first(), b);
        assert((a + b).drop_first() =~= a.drop_first() + b);
        assert((a + b)[0] == a[0]);
        assert(encode_utf8(a + b) =~= encode_utf8(a) + encode_utf8(b));
    }
}

/// The bytes of a string's UTF-8 encoding.
pub open spec fn bytes_of(s: &str) -> Seq<u8> {
    encode_utf8(s@)
}

/// Whether `i` is a byte offset at which `b` may be cut without splitting a
/// character.
pub open spec fn cuttable(b: Seq<u8>, i: int) -> bool {
    0 <= i <= b.len() && (i == b.len() || !is_continuation_byte(b[i]))
}

/// The part of `s` between byte offsets `start` and `end`, as `&s[start..end]`.
pub fn str_slice(s: &str, start: usize, end: usize) -> (r: &str)
    requires
        start <= end,
        cuttable(bytes_of(s), start as int),
        cuttable(bytes_of(s), end as int),
    ensures
        bytes_of(r) == bytes_of(s).subrange(start as int, end as int),
{
    let ghost b = bytes_of(s);
    proof {
        encode_utf8_valid_utf8(s@);
        lemma_char_boundary_iff(b, start as int);
        lemma_char_boundary_iff(b, end as int);
    }
    let (_, tail) = s.split_at(start);
    let ghost t = b.subrange(start as int, b.len() as int);
    assert(bytes_of(tail) =~= t);
    proof {
        valid_utf8_split(b, start as int);
        lemma_char_boundary_iff(t, (end - start) as int);
        assert(end - start == t.len() || t[end - start] == b[end as int]);
    }
    let (mid, _) = tail.split_at(end - start);
    assert(bytes_of(mid) =~= b.subrange(start as int, end as int));
    mid
}

/// `suffix` is how `s` ends.
pub open spec fn has_suffix(s: Seq<char>, suffix: Seq<char>) -> bool {
    suffix.len() <= s.len() && s.subrange(s.len() - suffix.len(), s.len() as int) == suffix
}

/// Whether `s` ends with `suffix`, character by character.
pub fn ends_with(s: &str, suffix: &str) -> (r: bool)
    ensures
        r == has_suffix(s@, suffix@),
{
    let n = s.unicode_len();
    let m = suffix.unicode_len();
    if m > n {
        return false;
    }
    let base = n - m;
    let mut j: usize = 0;
    while j < m
        invariant
            n == s@.len(),
            m == suffix@.len(),
            base == n - m,
            0 <= j <= m,
            forall|k: int| 0 <= k < j ==> s@[base + k] == suffix@[k],
        decreases m - j,
    {
        if s.get_char(base + j) != suffix.get_char(j) {
            assert(s@.subrange(base as int, n as int)[j as int] != suffix@[j as int]);
            return false;
        }
        j = j + 1;
    }
    assert(s@.subrange(base as int, n as int) =~= suffix@);
    true
}

/// Whether two strings hold the same characters.
pub fn same_text(a: &str, b: &str) -> (r: bool)
    ensures
        r == (a@ == b@),
{
    let n = a.unicode_len();
    if n != b.unicode_len() {
        return false;
    }
    let mut j: usize = 0;
    while j < n
        invariant
            n == a@.len(),
            n == b@.len(),
            0 <= j <= n,
            forall|k: int| 0 <= k < j ==> a@[k] == b@[k],
        decreases n - j,
    {
        if a.get_char(j) != b.get_char(j) {
            return false;
        }
        j = j + 1;
    }
    assert(a@ =~= b@);
    true
}

/// The error of the standard library for bytes that are not UTF-8, carried
/// through unread.
#[verifier::external_type_specification]
#[verifier::external_body]
pub struct ExUtf8Error(std::str::Utf8Error);

/// `std::str::from_utf8`: the bytes as a string exactly when they are valid
/// UTF-8.
#[verifier::external_body]
pub(crate) fn utf8_str(v: &[u8]) -> (r: Result<&str, std::str::Utf8Error>)
    ensures
        r is Ok <==> valid_utf8(v@),
        r matches Ok(s) ==> bytes_of(s) == v@,
{
    std::str::from_utf8(v)
}

/// What `String::from_utf8_lossy` makes of some bytes.
pub uninterp spec fn lossy_text(bytes: Seq<u8>) -> Seq<char>;

/// `String::from_utf8_lossy`, as an owned string: the bytes read as UTF-8
/// with each part that is not replaced by U+FFFD; the text is a function of
/// the bytes alone, and bytes that are valid UTF-8 come out as the text they
/// encode.
#[verifier::external_body]
pub(crate) fn utf8_lossy(v: &[u8]) -> (r: String)
    ensures
        r@ == lossy_text(v@),
        valid_utf8(v@) ==> encode_utf8(r@) == v@,
{
    String::from_utf8_lossy(v).into_owned()
}

/// Appends `c` to `s`, by `String::push`.
#[verifier::external_body]
pub(crate) fn push_char(s: &mut String, c: char)
    ensures
        final(s)@ == old(s)@.push(c),
{
    s.push(c);
}

} // verus!
