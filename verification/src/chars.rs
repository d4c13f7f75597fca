//! What this library takes on trust of the characters and strings of the standard library.
//!
//! Nothing here is proved. The two contracts say what the documentation of the standard
//! library says of the two functions, which the decoders of text call.

use vstd::prelude::*;

verus! {

/// Whether `value` is a Unicode scalar value: a code point that is not a surrogate.
pub open spec fn is_scalar_value(value: int) -> bool {
    0 <= value < 0xD800 || 0xE000 <= value <= 0x10FFFF
}

/// Taken on trust of `char::from_u32`: it yields the character whose scalar value is `i`,
/// and `None` where `i` is a surrogate or lies above U+10FFFF.
pub assume_specification[ char::from_u32 ](i: u32) -> (c: Option<char>)
    ensures
        c == (if is_scalar_value(i as int) {
            Some(i as char)
        } else {
            None
        }),
;

/// Taken on trust of `String::push`: it appends `ch` to the end of the string and leaves
/// what was there as it was.
pub assume_specification[ std::string::String::push ](s: &mut std::string::String, ch: char)
    ensures
        final(s)@ == old(s)@.push(ch),
;

} // verus!
