//! Character references of XML text: `&#x...;` and `&#...;`.
use vstd::prelude::*;
use crate::diesel_hash::{parse_radix, spec_parse_radix};
use crate::text::{bytes_of, push_char};

verus! {

/// What `u32::from_str_radix` gives for the bytes `s`: an optional `+`, then
/// one or more digits whose value fits in a `u32`.
pub open spec fn spec_parse_radix_u32(s: Seq<u8>, radix: u32) -> Option<u32> {
    match spec_parse_radix(s, radix) {
        Some(v) => if v <= u32::MAX {
            Some(v as u32)
        } else {
            None
        },
        None => None,
    }
}

/// Whether `v` is a Unicode scalar value: not a surrogate, at most 0x10FFFF.
pub open spec fn is_scalar_value(v: u32) -> bool {
    v <= 0xD7FF || (0xE000 <= v && v <= 0x10FFFF)
}

/// `char::from_u32`: the character with scalar value `v`, if `v` is one.
#[verifier::external_body]
fn char_from_u32(v: u32) -> (r: Option<char>)
    ensures
        r is Some <==> is_scalar_value(v),
        r matches Some(c) ==> c as u32 == v && c == v as char,
{
    char::from_u32(v)
}

/// The text a numeric character reference with digits `input` in base
/// `radix` stands for: the one character with that value.
pub open spec fn spec_char_ref(input: Seq<u8>, radix: u32) -> Option<Seq<char>> {
    match spec_parse_radix_u32(input, radix) {
        Some(v) => if is_scalar_value(v) {
            Some(seq![v as char])
        } else {
            None
        },
        None => None,
    }
}

fn char_ref(input: &str, radix: u32) -> (r: Option<String>)
    requires
        2 <= radix <= 36,
    ensures
        match r {
            Some(s) => spec_char_ref(bytes_of(input), radix) == Some(s@),
            None => spec_char_ref(bytes_of(input), radix) is None,
        },
{
    let v = match parse_radix(input.as_bytes(), radix) {
        None => {
            return None;
        },
        Some(v) => v,
    };
    if v > 4294967295u64 {
        return None;
    }
    let v32 = v as u32;
    match char_from_u32(v32) {
        None => None,
        Some(c) => {
            let mut s = String::new();
            push_char(&mut s, c);
            assert(s@ =~= seq![v32 as char]);
            Some(s)
        },
    }
}

/// The text of a hexadecimal character reference, `&#x` and `input` and `;`.
pub fn hex_to_cow(input: &str) -> (r: Option<String>)
    ensures
        match r {
            Some(s) => spec_char_ref(bytes_of(input), 16) == Some(s@),
            None => spec_char_ref(bytes_of(input), 16) is None,
        },
{
    char_ref(input, 16)
}

/// The text of a decimal character reference, `&#` and `input` and `;`.
pub fn dec_to_cow(input: &str) -> (r: Option<String>)
    ensures
        match r {
            Some(s) => spec_char_ref(bytes_of(input), 10) == Some(s@),
            None => spec_char_ref(bytes_of(input), 10) is None,
        },
{
    char_ref(input, 10)
}

} // verus!
