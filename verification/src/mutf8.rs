//! The modified UTF-8 text encoding of class files.
//!
//! A character is written in one, two, three or six bytes. The lead byte `0xED` always opens
//! the six-byte form, which holds a character above U+FFFF as two three-byte halves.

use vstd::prelude::*;
use crate::chars::is_scalar_value;
use crate::error::DecodeError;

verus! {

/// The byte of `bytes` at `i`, widened.
pub open spec fn wide(bytes: Seq<u8>, i: int) -> u32 {
    bytes[i] as u32
}

/// The code point held by a six-byte form whose second, third, fifth and sixth bytes are
/// `v`, `w`, `y` and `z`.
pub open spec fn six_byte_code_point(v: u32, w: u32, y: u32, z: u32) -> int {
    0x10000 + ((v & 0x0F) << 16) + ((w & 0x3F) << 10) + ((y & 0x0F) << 6) + (z & 0x3F)
}

/// The code point held by the three-byte form `b0 y z`.
pub open spec fn three_byte_code_point(b0: u32, y: u32, z: u32) -> int {
    ((b0 & 0x0F) << 12) + ((y & 0x3F) << 6) + (z & 0x3F)
}

/// The code point held by the two-byte form `b0 y`.
pub open spec fn two_byte_code_point(b0: u32, y: u32) -> int {
    ((b0 & 0x1F) << 6) + (y & 0x3F)
}

/// The code point that the bytes of `bytes` from `i` on encode, with the number of bytes it
/// takes, or `None` where the form that the lead byte opens is cut short or ill-shaped.
/// Asked only for `0 <= i < bytes.len()`.
///
/// The lead byte decides the form. `0xED` opens the six-byte form: its second byte has the
/// bits of `0xA0`, its fourth is `0xED` again, its fifth has the bits of `0xB0`, and its third
/// and sixth have the bit `0x80`. Any other byte with the bits of `0xE0` opens the three-byte
/// form, and any other with the bits of `0xC0` the two-byte form; the bytes that follow
/// have the bit `0x80`. Every other byte is a code point by itself.
pub open spec fn unit_at(bytes: Seq<u8>, i: int) -> Option<(int, int)> {
    let b0 = wide(bytes, i);
    if b0 == 0xED {
        let v = wide(bytes, i + 1);
        let w = wide(bytes, i + 2);
        let x = wide(bytes, i + 3);
        let y = wide(bytes, i + 4);
        let z = wide(bytes, i + 5);
        if i + 5 < bytes.len() && v & 0xA0 == 0xA0 && w & 0x80 == 0x80 && x == 0xED && y & 0xB0
            == 0xB0 && z & 0x80 == 0x80 {
            Some((six_byte_code_point(v, w, y, z), 6))
        } else {
            None
        }
    } else if b0 & 0xE0 == 0xE0 {
        let y = wide(bytes, i + 1);
        let z = wide(bytes, i + 2);
        if i + 2 < bytes.len() && y & z & 0x80 == 0x80 {
            Some((three_byte_code_point(b0, y, z), 3))
        } else {
            None
        }
    } else if b0 & 0xC0 == 0xC0 {
        let y = wide(bytes, i + 1);
        if i + 1 < bytes.len() && y & 0x80 == 0x80 {
            Some((two_byte_code_point(b0, y), 2))
        } else {
            None
        }
    } else {
        Some((b0 as int, 1))
    }
}

/// The character that starts at `i` and its width in bytes, or `None` where the bytes are
/// malformed or the code point they hold is not a scalar value.
pub open spec fn char_at(bytes: Seq<u8>, i: int) -> Option<(char, int)> {
    match unit_at(bytes, i) {
        Some((code_point, width)) => if is_scalar_value(code_point) {
            Some((code_point as char, width))
        } else {
            None
        },
        None => None,
    }
}

/// `prefix` put in front of a decoded text; a failure stays as it is.
pub open spec fn prepend(prefix: Seq<char>, rest: Result<Seq<char>, DecodeError>) -> Result<
    Seq<char>,
    DecodeError,
> {
    match rest {
        Ok(text) => Ok(prefix + text),
        Err(error) => Err(error),
    }
}

/// The text that `bytes` holds from `i` to the end, character after character, or
/// `MalformedEncoding` at the offset of the first character that cannot be decoded.
pub open spec fn decode_from(bytes: Seq<u8>, i: int) -> Result<Seq<char>, DecodeError>
    decreases bytes.len() - i,
{
    if i < 0 || i >= bytes.len() {
        Ok(Seq::empty())
    } else {
        match char_at(bytes, i) {
            Some((c, width)) => prepend(seq![c], decode_from(bytes, i + width)),
            None => Err(DecodeError::MalformedEncoding { offset: i as usize }),
        }
    }
}

/// A failure of `decode_from` is a `MalformedEncoding` whose offset lies in the part that was
/// asked for.
pub proof fn lemma_error_offset_in_bounds(bytes: Seq<u8>, i: int)
    requires
        0 <= i,
        bytes.len() <= usize::MAX,
    ensures
        decode_from(bytes, i) matches Err(error) ==> error matches DecodeError::MalformedEncoding {
            offset,
        } && i <= offset < bytes.len(),
    decreases bytes.len() - i,
{
    if i < bytes.len() {
        if let Some((_, width)) = char_at(bytes, i) {
            lemma_error_offset_in_bounds(bytes, i + width);
        }
    }
}

/// The text that `bytes` holds in modified UTF-8.
pub open spec fn decode_mutf8(bytes: Seq<u8>) -> Result<Seq<char>, DecodeError> {
    decode_from(bytes, 0)
}

/// A decoding outcome with the text taken by its view.
pub open spec fn text_view(outcome: Result<String, DecodeError>) -> Result<Seq<char>, DecodeError> {
    match outcome {
        Ok(text) => Ok(text@),
        Err(error) => Err(error),
    }
}

/// Reads the code point that starts at `index` and the number of bytes it takes.
fn read_unit(input: &Vec<u8>, index: usize) -> (unit: Option<(u32, usize)>)
    requires
        index < input.len(),
    ensures
        match unit {
            Some((code_point, width)) => unit_at(input@, index as int) == Some(
                (code_point as int, width as int),
            ) && 1 <= width <= 6 && index + width <= input.len(),
            None => unit_at(input@, index as int) is None,
        },
{
    let left: usize = input.len() - index;
    let datum: u32 = input[index] as u32;
    if datum == 0xED {
        if left <= 5 {
            return None;
        }
        let datum_v: u32 = input[index + 1] as u32;
        let datum_w: u32 = input[index + 2] as u32;
        let datum_x: u32 = input[index + 3] as u32;
        let datum_y: u32 = input[index + 4] as u32;
        let datum_z: u32 = input[index + 5] as u32;
        if datum_v & 0xA0 != 0xA0 || datum_w & 0x80 != 0x80 || datum_x != 0xED || datum_y & 0xB0
            != 0xB0 || datum_z & 0x80 != 0x80 {
            return None;
        }
        assert((datum_v & 0x0F) << 16 <= 0xF0000) by (bit_vector);
        assert((datum_w & 0x3F) << 10 <= 0xFC00) by (bit_vector);
        assert((datum_y & 0x0F) << 6 <= 0x3C0) by (bit_vector);
        assert(datum_z & 0x3F <= 0x3F) by (bit_vector);
        let code_point: u32 = 0x10000 + ((datum_v & 0x0F) << 16) + ((datum_w & 0x3F) << 10) + ((
        datum_y & 0x0F) << 6) + (datum_z & 0x3F);
        return Some((code_point, 6));
    }
    if datum & 0xE0 == 0xE0 {
        if left <= 2 {
            return None;
        }
        let datum_y: u32 = input[index + 1] as u32;
        let datum_z: u32 = input[index + 2] as u32;
        if (datum_y & datum_z & 0x80) != 0x80 {
            return None;
        }
        assert((datum & 0x0F) << 12 <= 0xF000) by (bit_vector);
        assert((datum_y & 0x3F) << 6 <= 0xFC0) by (bit_vector);
        assert(datum_z & 0x3F <= 0x3F) by (bit_vector);
        let code_point: u32 = ((datum & 0x0F) << 12) + ((datum_y & 0x3F) << 6) + (datum_z & 0x3F);
        return Some((code_point, 3));
    }
    if datum & 0xC0 == 0xC0 {
        if left <= 1 {
            return None;
        }
        let datum_y: u32 = input[index + 1] as u32;
        if datum_y & 0x80 != 0x80 {
            return None;
        }
        assert((datum & 0x1F) << 6 <= 0x7C0) by (bit_vector);
        assert(datum_y & 0x3F <= 0x3F) by (bit_vector);
        let code_point: u32 = ((datum & 0x1F) << 6) + (datum_y & 0x3F);
        return Some((code_point, 2));
    }
    Some((datum, 1))
}

/// Decodes a buffer of modified UTF-8 into text. Fails with `MalformedEncoding`, at the offset
/// of the first character that cannot be decoded, and yields no partial text.
pub fn parse_javaized_utf8(input: &Vec<u8>) -> (text: Result<String, DecodeError>)
    ensures
        text_view(text) == decode_mutf8(input@),
        input.len() > 0 && input[0] == 0xED && (input.len() < 6 || input[3] != 0xED) ==> text
            == Err::<String, DecodeError>(DecodeError::MalformedEncoding { offset: 0 }),
{
    let mut text = String::new();
    let mut index: usize = 0;
    while index < input.len()
        invariant
            index <= input.len(),
            decode_mutf8(input@) == prepend(text@, decode_from(input@, index as int)),
        decreases input.len() - index,
    {
        match read_unit(input, index) {
            Some((code_point, width)) => match char::from_u32(code_point) {
                Some(c) => {
                    proof {
                        let rest = decode_from(input@, index + width);
                        assert(text@.push(c) + rest.unwrap() =~= text@ + (seq![c] + rest.unwrap()));
                    }
                    text.push(c);
                    index = index + width;
                },
                None => {
                    return Err(DecodeError::MalformedEncoding { offset: index });
                },
            },
            None => {
                return Err(DecodeError::MalformedEncoding { offset: index });
            },
        }
    }
    Ok(text)
}

/// The lead byte of the two-byte form of `v`.
pub open spec fn two_byte_lead(v: u32) -> u8 {
    (0xC0 | (v >> 6)) as u8
}

/// The lead byte of the three-byte form of `v`.
pub open spec fn three_byte_lead(v: u32) -> u8 {
    (0xE0 | (v >> 12)) as u8
}

/// The byte after the first `0xED` of a six-byte form, which carries the top four of its
/// twenty bits `w`.
pub open spec fn high_half_byte(w: u32) -> u8 {
    (0xA0 | (w >> 16)) as u8
}

/// The byte after the second `0xED` of a six-byte form, which carries bits 6 to 9 of its
/// twenty bits `w`.
pub open spec fn low_half_byte(w: u32) -> u8 {
    (0xB0 | ((w >> 6) & 0x0F)) as u8
}

/// A byte that follows a lead byte and carries the six bits of `v` from bit `shift` on.
pub open spec fn trail_byte(v: u32, shift: u32) -> u8 {
    (0x80 | ((v >> shift) & 0x3F)) as u8
}

/// The bytes that write `c`: one byte for U+0001 to U+007F, two for U+0000 and for U+0080
/// to U+07FF, three up to U+FFFF, and six, as two halves of three, above that.
pub open spec fn encode_char(c: char) -> Seq<u8> {
    let v = c as u32;
    if 1 <= v && v <= 0x7F {
        seq![v as u8]
    } else if v <= 0x7FF {
        seq![two_byte_lead(v), trail_byte(v, 0)]
    } else if v <= 0xFFFF {
        seq![three_byte_lead(v), trail_byte(v, 6), trail_byte(v, 0)]
    } else {
        let w = (v - 0x10000) as u32;
        seq![
            0xEDu8,
            high_half_byte(w),
            trail_byte(w, 10),
            0xEDu8,
            low_half_byte(w),
            trail_byte(w, 0),
        ]
    }
}

/// The bytes that write `text`, character after character.
pub open spec fn encode_mutf8(text: Seq<char>) -> Seq<u8>
    decreases text.len(),
{
    if text.len() == 0 {
        Seq::empty()
    } else {
        encode_char(text[0]) + encode_mutf8(text.drop_first())
    }
}

/// Whether the decoder can read `c` back. It cannot for U+D000 to U+D7FF: their three-byte
/// form starts with `0xED`, which the decoder takes for the start of a six-byte form.
pub open spec fn is_decodable(c: char) -> bool {
    !(0xD000 <= c as u32 <= 0xD7FF)
}

/// Whether the decoder can read every character of `text` back.
pub open spec fn is_decodable_text(text: Seq<char>) -> bool {
    forall|i: int| 0 <= i < text.len() ==> is_decodable(#[trigger] text[i])
}

/// A code point from 1 to `0x7F` is its own byte, and that byte opens no longer form.
proof fn lemma_one_byte_form(v: u32)
    by (bit_vector)
    requires
        1 <= v <= 0x7F,
    ensures
        (v as u8) as u32 == v,
        v != 0xED,
        v & 0xE0 != 0xE0,
        v & 0xC0 != 0xC0,
{
}

/// The two bytes that write a code point up to `0x7FF` have the shape of the two-byte form
/// and hold that code point.
proof fn lemma_two_byte_form(v: u32)
    by (bit_vector)
    requires
        v <= 0x7FF,
    ensures
        two_byte_lead(v) as u32 != 0xED,
        two_byte_lead(v) as u32 & 0xE0 != 0xE0,
        two_byte_lead(v) as u32 & 0xC0 == 0xC0,
        trail_byte(v, 0) as u32 & 0x80 == 0x80,
        two_byte_code_point(two_byte_lead(v) as u32, trail_byte(v, 0) as u32) == v,
{
}

/// The three bytes that write a code point up to `0xFFFF` have the shape of the three-byte
/// form and hold that code point, unless their lead byte is `0xED`.
proof fn lemma_three_byte_form(v: u32)
    by (bit_vector)
    requires
        v <= 0xFFFF,
        !(0xD000 <= v <= 0xDFFF),
    ensures
        three_byte_lead(v) as u32 != 0xED,
        three_byte_lead(v) as u32 & 0xE0 == 0xE0,
        trail_byte(v, 6) as u32 & trail_byte(v, 0) as u32 & 0x80 == 0x80,
        three_byte_code_point(
            three_byte_lead(v) as u32,
            trail_byte(v, 6) as u32,
            trail_byte(v, 0) as u32,
        ) == v,
{
}

/// The four bytes that carry the twenty bits `w` of a six-byte form have its shape and hold
/// those bits.
proof fn lemma_six_byte_form(w: u32)
    by (bit_vector)
    requires
        w <= 0xFFFFF,
    ensures
        high_half_byte(w) as u32 & 0xA0 == 0xA0,
        trail_byte(w, 10) as u32 & 0x80 == 0x80,
        low_half_byte(w) as u32 & 0xB0 == 0xB0,
        trail_byte(w, 0) as u32 & 0x80 == 0x80,
        six_byte_code_point(
            high_half_byte(w) as u32,
            trail_byte(w, 10) as u32,
            low_half_byte(w) as u32,
            trail_byte(w, 0) as u32,
        ) == w + 0x10000,
{
}

/// Where the bytes of `bytes` from `i` on are those that write a decodable `c`, the
/// character that starts at `i` is `c`.
pub proof fn lemma_char_round_trip(bytes: Seq<u8>, i: int, c: char)
    requires
        0 <= i,
        i + encode_char(c).len() <= bytes.len(),
        bytes.subrange(i, i + encode_char(c).len()) == encode_char(c),
        is_decodable(c),
    ensures
        char_at(bytes, i) == Some((c, encode_char(c).len() as int)),
{
    let v = c as u32;
    let written = encode_char(c);
    assert forall|k: int| 0 <= k < written.len() implies bytes[i + k] == written[k] by {
        assert(bytes.subrange(i, i + written.len())[k] == bytes[i + k]);
    }
    if 1 <= v && v <= 0x7F {
        lemma_one_byte_form(v);
        assert(bytes[i] == written[0]);
    } else if v <= 0x7FF {
        lemma_two_byte_form(v);
    } else if v <= 0xFFFF {
        lemma_three_byte_form(v);
    } else {
        lemma_six_byte_form((v - 0x10000) as u32);
    }
}

/// Behind any `prefix`, the bytes that write a decodable `text` decode to `text`.
pub proof fn lemma_decode_behind_prefix(prefix: Seq<u8>, text: Seq<char>)
    requires
        is_decodable_text(text),
    ensures
        decode_from(prefix + encode_mutf8(text), prefix.len() as int) == Ok::<
            Seq<char>,
            DecodeError,
        >(text),
    decreases text.len(),
{
    let bytes = prefix + encode_mutf8(text);
    let i = prefix.len() as int;
    if text.len() == 0 {
        assert(text =~= Seq::<char>::empty());
    } else {
        let c = text[0];
        let rest = text.drop_first();
        let written = encode_char(c);
        assert(bytes.subrange(i, i + written.len()) =~= written);
        lemma_char_round_trip(bytes, i, c);
        assert forall|k: int| 0 <= k < rest.len() implies is_decodable(#[trigger] rest[k]) by {
            assert(rest[k] == text[k + 1]);
        }
        lemma_decode_behind_prefix(prefix + written, rest);
        assert(bytes =~= (prefix + written) + encode_mutf8(rest));
        assert(seq![c] + rest =~= text);
    }
}

/// Round trip: the bytes that write a text decode to that text, for every text whose
/// characters the decoder can read back.
pub proof fn lemma_round_trip(text: Seq<char>)
    requires
        is_decodable_text(text),
    ensures
        decode_mutf8(encode_mutf8(text)) == Ok::<Seq<char>, DecodeError>(text),
{
    lemma_decode_behind_prefix(Seq::empty(), text);
}

/// A lead byte `0xED` that is not followed by five more bytes, or whose fourth byte is not
/// `0xED` again, is malformed: decoding from it fails at its offset.
pub proof fn lemma_broken_six_byte_form(bytes: Seq<u8>, i: int)
    requires
        0 <= i < bytes.len(),
        bytes[i] == 0xED,
        i + 5 >= bytes.len() || bytes[i + 3] != 0xED,
    ensures
        decode_from(bytes, i) == Err::<Seq<char>, DecodeError>(
            DecodeError::MalformedEncoding { offset: i as usize },
        ),
{
}

} // verus!
