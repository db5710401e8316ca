//! Writing script data as Lua source: indentation, keys that can stand as
//! bare identifiers, and quoted strings.
use vstd::prelude::*;
use vstd::string::StrSliceExecFns;
use crate::text::push_char;

verus! {

/// Appends two spaces per level of indentation.
pub fn write_indent(output: &mut String, level: usize)
    ensures
        final(output)@ == old(output)@ + Seq::new(2 * level as nat, |_i: int| ' '),
{
    let mut i: usize = 0;
    while i < level
        invariant
            i <= level,
            output@ == old(output)@ + Seq::new(2 * i as nat, |_i: int| ' '),
        decreases level - i,
    {
        push_char(output, ' ');
        push_char(output, ' ');
        i += 1;
        assert(output@ =~= old(output)@ + Seq::new(2 * i as nat, |_i: int| ' '));
    }
}

/// Whether the standard library counts `c` as alphanumeric.
pub uninterp spec fn char_is_alphanumeric(c: char) -> bool;

/// Whether the standard library counts `c` as alphabetic.
pub uninterp spec fn char_is_alphabetic(c: char) -> bool;

/// An ASCII letter.
pub open spec fn ascii_letter(c: char) -> bool {
    ('a' <= c && c <= 'z') || ('A' <= c && c <= 'Z')
}

/// An ASCII letter or digit.
pub open spec fn ascii_alnum(c: char) -> bool {
    ascii_letter(c) || ('0' <= c && c <= '9')
}

/// `char::is_alphanumeric`, whose result is a fixed function of the character
/// (the Unicode tables of the standard library). Of an ASCII character it is
/// stated that it is alphanumeric exactly when it is a letter or a digit; of
/// the other characters nothing more is stated.
#[verifier::external_body]
fn is_alphanumeric(c: char) -> (r: bool)
    ensures
        r == char_is_alphanumeric(c),
        (c as u32) < 128 ==> (r == ascii_alnum(c)),
{
    c.is_alphanumeric()
}

/// `char::is_alphabetic`, whose result is a fixed function of the character
/// (the Unicode tables of the standard library). Of an ASCII character it is
/// stated that it is alphabetic exactly when it is a letter; of the other
/// characters nothing more is stated.
#[verifier::external_body]
fn is_alphabetic(c: char) -> (r: bool)
    ensures
        r == char_is_alphabetic(c),
        (c as u32) < 128 ==> (r == ascii_letter(c)),
{
    c.is_alphabetic()
}

/// The reserved words of Lua.
pub open spec fn lua_keywords() -> Seq<Seq<char>> {
    seq![
        "and"@, "break"@, "do"@, "else"@, "elseif"@, "end"@, "false"@, "for"@, "function"@, "if"@,
        "in"@, "local"@, "nil"@, "not"@, "or"@, "repeat"@, "return"@, "then"@, "true"@, "until"@,
        "while"@,
    ]
}

/// Whether `s` can stand as a bare Lua key: not empty, only alphanumeric
/// characters and `_`, not a reserved word, and not starting with a digit or
/// another non-alphabetic character other than `_`.
pub open spec fn spec_is_valid_ident(s: Seq<char>) -> bool {
    &&& s.len() > 0
    &&& forall|i: int| 0 <= i < s.len() ==> char_is_alphanumeric(#[trigger] s[i]) || s[i] == '_'
    &&& !lua_keywords().contains(s)
    &&& (char_is_alphabetic(s[0]) || s[0] == '_')
}

/// Whether `s`, all of it ASCII, can stand as a bare Lua key: the same rule
/// with letters and digits for alphanumeric and letters for alphabetic.
pub open spec fn ascii_ident(s: Seq<char>) -> bool {
    &&& s.len() > 0
    &&& forall|i: int| 0 <= i < s.len() ==> ascii_alnum(#[trigger] s[i]) || s[i] == '_'
    &&& !lua_keywords().contains(s)
    &&& (ascii_letter(s[0]) || s[0] == '_')
}

/// Every character of `s` is ASCII.
pub open spec fn all_ascii(s: Seq<char>) -> bool {
    forall|i: int| 0 <= i < s.len() ==> (#[trigger] s[i] as u32) < 128
}

fn str_eq(a: &str, b: &str) -> (r: bool)
    ensures
        r == (a@ == b@),
{
    let n = a.unicode_len();
    if n != b.unicode_len() {
        return false;
    }
    let mut i: usize = 0;
    while i < n
        invariant
            n == a@.len(),
            n == b@.len(),
            i <= n,
            forall|k: int| 0 <= k < i ==> a@[k] == b@[k],
        decreases n - i,
    {
        if a.get_char(i) != b.get_char(i) {
            return false;
        }
        i += 1;
    }
    assert(a@ =~= b@);
    true
}

fn is_lua_keyword(s: &str) -> (r: bool)
    ensures
        r == lua_keywords().contains(s@),
{
    let kws: [&str; 21] = [
        "and", "break", "do", "else", "elseif", "end", "false", "for", "function", "if", "in",
        "local", "nil", "not", "or", "repeat", "return", "then", "true", "until", "while",
    ];
    let ghost kv = lua_keywords();
    assert forall|k: int| 0 <= k < 21 implies #[trigger] kws@[k]@ == kv[k] by {}
    let mut i: usize = 0;
    while i < 21
        invariant
            i <= 21,
            kv == lua_keywords(),
            kv.len() == 21,
            forall|k: int| 0 <= k < 21 ==> #[trigger] kws@[k]@ == kv[k],
            forall|k: int| 0 <= k < i ==> kv[k] != s@,
        decreases 21 - i,
    {
        if str_eq(s, kws[i]) {
            assert(kv[i as int] == s@);
            return true;
        }
        i += 1;
    }
    false
}

/// Whether `s` can stand as a bare Lua key.
pub fn is_valid_ident(s: &str) -> (r: bool)
    ensures
        r == spec_is_valid_ident(s@),
        all_ascii(s@) ==> (r == ascii_ident(s@)),
{
    let n = s.unicode_len();
    if n == 0 {
        return false;
    }
    let mut i: usize = 0;
    while i < n
        invariant
            n == s@.len(),
            i <= n,
            forall|k: int| 0 <= k < i ==> char_is_alphanumeric(#[trigger] s@[k]) || s@[k] == '_',
            all_ascii(s@) ==> forall|k: int| 0 <= k < i ==> ascii_alnum(#[trigger] s@[k]) || s@[k] == '_',
        decreases n - i,
    {
        let c = s.get_char(i);
        if !(is_alphanumeric(c) || c == '_') {
            proof {
                if all_ascii(s@) {
                    assert((s@[i as int] as u32) < 128);
                }
            }
            return false;
        }
        proof {
            if all_ascii(s@) {
                assert((s@[i as int] as u32) < 128);
            }
        }
        i += 1;
    }
    if is_lua_keyword(s) {
        return false;
    }
    let fc = s.get_char(0);
    proof {
        if all_ascii(s@) {
            assert((s@[0] as u32) < 128);
        }
    }
    if !(is_alphabetic(fc) || fc == '_') {
        return false;
    }
    true
}

/// How a character is written inside a quoted Lua string: the control
/// characters with names by their escapes, `"` escaped, and everything else,
/// `\` included, as itself.
pub open spec fn lua_escape(c: char) -> Seq<char> {
    if c == '\x07' {
        seq!['\\', 'a']
    } else if c == '\x08' {
        seq!['\\', 'b']
    } else if c == '\x0C' {
        seq!['\\', 'f']
    } else if c == '\n' {
        seq!['\\', 'n']
    } else if c == '\r' {
        seq!['\\', 'r']
    } else if c == '\t' {
        seq!['\\', 't']
    } else if c == '\x0B' {
        seq!['\\', 'v']
    } else if c == '"' {
        seq!['\\', '"']
    } else {
        seq![c]
    }
}

/// The escapes of the first `n` characters of `s`, one after another.
pub open spec fn lua_escaped(s: Seq<char>, n: int) -> Seq<char>
    decreases n,
{
    if n <= 0 {
        Seq::empty()
    } else {
        lua_escaped(s, n - 1) + lua_escape(s[n - 1])
    }
}

/// `s` as a quoted Lua string.
pub open spec fn spec_lua_string(s: Seq<char>) -> Seq<char> {
    seq!['"'] + lua_escaped(s, s.len() as int) + seq!['"']
}

/// `s` written as a quoted Lua string.
pub fn lua_string(s: &str) -> (r: String)
    ensures
        r@ == spec_lua_string(s@),
{
    let mut out = String::new();
    push_char(&mut out, '"');
    let n = s.unicode_len();
    let mut i: usize = 0;
    while i < n
        invariant
            n == s@.len(),
            i <= n,
            out@ == seq!['"'] + lua_escaped(s@, i as int),
        decreases n - i,
    {
        let c = s.get_char(i);
        let ghost before = out@;
        if c == '\x07' {
            push_char(&mut out, '\\');
            push_char(&mut out, 'a');
        } else if c == '\x08' {
            push_char(&mut out, '\\');
            push_char(&mut out, 'b');
        } else if c == '\x0C' {
            push_char(&mut out, '\\');
            push_char(&mut out, 'f');
        } else if c == '\n' {
            push_char(&mut out, '\\');
            push_char(&mut out, 'n');
        } else if c == '\r' {
            push_char(&mut out, '\\');
            push_char(&mut out, 'r');
        } else if c == '\t' {
            push_char(&mut out, '\\');
            push_char(&mut out, 't');
        } else if c == '\x0B' {
            push_char(&mut out, '\\');
            push_char(&mut out, 'v');
        } else if c == '"' {
            push_char(&mut out, '\\');
            push_char(&mut out, '"');
        } else {
            push_char(&mut out, c);
        }
        assert(out@ =~= before + lua_escape(c));
        i += 1;
        assert(out@ =~= seq!['"'] + lua_escaped(s@, i as int));
    }
    push_char(&mut out, '"');
    out
}

} // verus!
