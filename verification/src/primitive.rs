//! Fixed-width big-endian readers.
//!
//! The 32- and 64-bit floating-point fields of the format are read as their IEEE-754 bit
//! patterns; turning a pattern into a number is left to the caller.

use vstd::prelude::*;

verus! {

/// The unsigned number that the first `width` bytes of `bytes` stand for, most significant
/// byte first.
pub open spec fn be_value(bytes: Seq<u8>, width: nat) -> nat
    decreases width,
{
    if width == 0 {
        0
    } else {
        be_value(bytes, (width - 1) as nat) * 256 + bytes[width - 1] as nat
    }
}

/// The signed number that `value` stands for in two's complement, where `modulus` is two to
/// the number of bits.
pub open spec fn twos_complement(value: nat, modulus: nat) -> int {
    if 2 * value >= modulus {
        value - modulus
    } else {
        value as int
    }
}

/// The first four bytes of `bytes` read as a big-endian two's-complement number.
pub open spec fn be_i32(bytes: Seq<u8>) -> int {
    twos_complement(be_value(bytes, 4), 0x1_0000_0000)
}

/// The first eight bytes of `bytes` read as a big-endian two's-complement number.
pub open spec fn be_i64(bytes: Seq<u8>) -> int {
    twos_complement(be_value(bytes, 8), 0x1_0000_0000_0000_0000)
}

/// Reads the first two bytes of `input` as a big-endian unsigned 16-bit integer.
pub fn parse_u16(input: &[u8]) -> (value: u16)
    requires
        input@.len() >= 2,
    ensures
        value == be_value(input@, 2),
{
    let hi: u16 = input[0] as u16;
    let lo: u16 = input[1] as u16;
    assert(be_value(input@, 2) == hi * 256 + lo) by {
        reveal_with_fuel(be_value, 3);
    }
    hi * 256 + lo
}

/// Reads the first four bytes of `input` as a big-endian unsigned 32-bit integer. Read from
/// a float field, this is the IEEE-754 bit pattern of the float.
pub fn parse_u32(input: &[u8]) -> (value: u32)
    requires
        input@.len() >= 4,
    ensures
        value == be_value(input@, 4),
{
    let b0: u32 = input[0] as u32;
    let b1: u32 = input[1] as u32;
    let b2: u32 = input[2] as u32;
    let b3: u32 = input[3] as u32;
    assert(be_value(input@, 4) == ((b0 * 256 + b1) * 256 + b2) * 256 + b3) by {
        reveal_with_fuel(be_value, 5);
    }
    ((b0 * 256 + b1) * 256 + b2) * 256 + b3
}

/// Reads the first eight bytes of `input` as a big-endian unsigned 64-bit integer. Read from
/// a double field, this is the IEEE-754 bit pattern of the double.
pub fn parse_u64(input: &[u8]) -> (value: u64)
    requires
        input@.len() >= 8,
    ensures
        value == be_value(input@, 8),
{
    let hi: u64 = parse_u32(input) as u64;
    let b4: u64 = input[4] as u64;
    let b5: u64 = input[5] as u64;
    let b6: u64 = input[6] as u64;
    let b7: u64 = input[7] as u64;
    assert(be_value(input@, 8) == (((be_value(input@, 4) * 256 + b4) * 256 + b5) * 256 + b6) * 256
        + b7) by {
        reveal_with_fuel(be_value, 5);
    }
    (((hi * 256 + b4) * 256 + b5) * 256 + b6) * 256 + b7
}

/// Reads the first four bytes of `input` as a big-endian signed 32-bit integer.
pub fn parse_i32(input: &[u8]) -> (value: i32)
    requires
        input@.len() >= 4,
    ensures
        value == be_i32(input@),
{
    let raw: u32 = parse_u32(input);
    if raw >= 0x8000_0000 {
        let low: i32 = (raw - 0x8000_0000) as i32;
        low + i32::MIN
    } else {
        raw as i32
    }
}

/// Reads the first eight bytes of `input` as a big-endian signed 64-bit integer.
pub fn parse_i64(input: &[u8]) -> (value: i64)
    requires
        input@.len() >= 8,
    ensures
        value == be_i64(input@),
{
    let raw: u64 = parse_u64(input);
    if raw >= 0x8000_0000_0000_0000 {
        let low: i64 = (raw - 0x8000_0000_0000_0000) as i64;
        low + i64::MIN
    } else {
        raw as i64
    }
}

/// The `width` bytes that write `value`, most significant byte first.
pub open spec fn be_bytes(value: nat, width: nat) -> Seq<u8>
    decreases width,
{
    if width == 0 {
        Seq::empty()
    } else {
        be_bytes(value / 256, (width - 1) as nat).push((value % 256) as u8)
    }
}

/// The number of values that `width` bytes can hold: 256 to the `width`.
pub open spec fn capacity(width: nat) -> nat
    decreases width,
{
    if width == 0 {
        1
    } else {
        256 * capacity((width - 1) as nat)
    }
}

/// The unsigned number that stands for `value` in two's complement, where `modulus` is two
/// to the number of bits.
pub open spec fn unsigned_of(value: int, modulus: nat) -> nat {
    if value < 0 {
        (value + modulus) as nat
    } else {
        value as nat
    }
}

/// Round trip: reading the bytes that write `value` in `width` bytes gives `value` back,
/// whatever follows them.
pub proof fn lemma_be_round_trip(value: nat, width: nat, tail: Seq<u8>)
    requires
        value < capacity(width),
    ensures
        be_bytes(value, width).len() == width,
        be_value(be_bytes(value, width) + tail, width) == value,
    decreases width,
{
    if width > 0 {
        let shorter = (width - 1) as nat;
        let high = be_bytes(value / 256, shorter);
        let low = (value % 256) as u8;
        lemma_be_round_trip(value / 256, shorter, seq![low] + tail);
        assert(be_bytes(value, width) + tail =~= high + (seq![low] + tail));
    }
}

/// Round trip: a signed number comes back from the unsigned number that stands for it.
pub proof fn lemma_signed_round_trip(value: int, modulus: nat)
    requires
        -modulus <= 2 * value < modulus,
    ensures
        unsigned_of(value, modulus) < modulus,
        twos_complement(unsigned_of(value, modulus), modulus) == value,
{
}

} // verus!
