//! Contracts for the functions of the standard library that this crate
//! calls and that vstd does not specify. Verus takes them on trust.

use vstd::prelude::*;

verus! {

/// `char::from_u32` turns a number into the character with that code point.
/// It gives a character exactly for the Unicode scalar values, that is for
/// the code points up to `0x10FFFF` outside the surrogate range
/// `0xD800..=0xDFFF`, and `None` for every other number.
pub assume_specification[ char::from_u32 ](i: u32) -> (result: Option<char>)
    ensures
        match result {
            Some(c) => c as u32 == i && (i <= 0xD7FF || 0xE000 <= i <= 0x10FFFF),
            None => !(i <= 0xD7FF || 0xE000 <= i <= 0x10FFFF),
        },
;

/// `String::push` appends one character to the end of the string and leaves
/// the characters before it as they were.
pub assume_specification[ String::push ](text: &mut String, ch: char)
    ensures
        final(text)@ == old(text)@.push(ch),
;

} // verus!
