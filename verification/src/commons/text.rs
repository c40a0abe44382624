//! The operations on characters and strings that the library takes from
//! the standard library.

use vstd::prelude::*;

verus! {

/// Whether `code` is a Unicode scalar value: a code point up to U+10FFFF
/// that is no surrogate.
pub open spec fn is_scalar_value(code: int) -> bool {
    0 <= code <= 0xD7FF || 0xE000 <= code <= 0x10FFFF
}

/// `char::from_u32` of the standard library. Taken on trust: it returns the
/// character with the given code where the code is a Unicode scalar value,
/// and nothing for any other number.
pub assume_specification[ char::from_u32 ](i: u32) -> (c: Option<char>)
    ensures
        is_scalar_value(i as int) ==> c == Some(i as char),
        !is_scalar_value(i as int) ==> c is None,
;

/// `String::push` of the standard library. Taken on trust: it appends the
/// character to the end of the string and changes nothing else.
pub assume_specification[ String::push ](s: &mut String, c: char)
    ensures
        final(s)@ == old(s)@.push(c),
;

/// The upper-case form of an ASCII letter; any other character as it is.
pub open spec fn ascii_upper(c: char) -> char {
    if 'a' <= c <= 'z' {
        (c as u32 - 32) as char
    } else {
        c
    }
}

/// `char::to_ascii_uppercase` of the standard library. Taken on trust: it
/// maps the letters `a` to `z` to `A` to `Z` and leaves every other
/// character unchanged.
pub assume_specification[ char::to_ascii_uppercase ](c: &char) -> (upper: char)
    ensures
        upper == ascii_upper(*c),
;

} // verus!
