//! Branch-free decoding of four ASCII hex digits into a 16-bit value.

use vstd::prelude::*;

verus! {

/// True when `b` is an ASCII hex digit: `0`-`9`, `A`-`F` or `a`-`f`.
pub open spec fn is_hex_digit(b: u8) -> bool {
    (0x30 <= b && b <= 0x39) || (0x41 <= b && b <= 0x46) || (0x61 <= b && b <= 0x66)
}

/// Numeric value of an ASCII hex digit.
pub open spec fn hex_digit_value(b: u8) -> u32
    recommends
        is_hex_digit(b),
{
    if 0x30 <= b && b <= 0x39 {
        (b - 0x30) as u32
    } else if 0x41 <= b && b <= 0x46 {
        (b - 0x41 + 10) as u32
    } else {
        (b - 0x61 + 10) as u32
    }
}

/// The 16-bit value whose big-endian hex spelling is the four digits.
pub open spec fn hex4_value(h0: u8, h1: u8, h2: u8, h3: u8) -> u32
    recommends
        is_hex_digit(h0),
        is_hex_digit(h1),
        is_hex_digit(h2),
        is_hex_digit(h3),
{
    (0x1000 * hex_digit_value(h0) + 0x100 * hex_digit_value(h1) + 0x10 * hex_digit_value(h2)
        + hex_digit_value(h3)) as u32
}

/// What the branch-free decoder computes on arbitrary bytes, whether or not
/// they are hex digits.  The arithmetic wraps, as the executable code's does.
pub open spec fn swar4(h0: u8, h1: u8, h2: u8, h3: u8) -> u32 {
    let w = ((h0 as u32) << 24) | ((h1 as u32) << 16) | ((h2 as u32) << 8) | (h3 as u32);
    let w = vstd::wrapping::u32_specs::wrapping_sub(w, 0x30303030);
    let w = w & 0x1F1F1F1F;
    let mask = w & 0x10101010;
    let w = vstd::wrapping::u32_specs::wrapping_sub(w, mask >> 1);
    let w = vstd::wrapping::u32_specs::wrapping_add(w, mask >> 4);
    let w = w | (w >> 4);
    let w = w & 0x00FF00FF;
    let w = w | (w >> 8);
    w & 0xFFFF
}

/// On four hex digits the branch-free computation yields the digits' value.
pub proof fn lemma_swar4_hex_digits(h0: u8, h1: u8, h2: u8, h3: u8)
    requires
        is_hex_digit(h0),
        is_hex_digit(h1),
        is_hex_digit(h2),
        is_hex_digit(h3),
    ensures
        swar4(h0, h1, h2, h3) == hex4_value(h0, h1, h2, h3),
{
    assert(swar4(h0, h1, h2, h3) == hex4_value(h0, h1, h2, h3)) by (bit_vector)
        requires
            is_hex_digit(h0),
            is_hex_digit(h1),
            is_hex_digit(h2),
            is_hex_digit(h3),
    ;
}

/// Decode four ASCII hex digit bytes into the 16-bit value they spell,
/// using SIMD-within-a-register bit twiddling on one 32-bit word.
///
/// On bytes that are not hex digits the result is still defined (the same
/// wrapping computation), but only the hex-digit case is meaningful.
pub fn read_hexdigits(h0: u8, h1: u8, h2: u8, h3: u8) -> (r: u32)
    ensures
        r == swar4(h0, h1, h2, h3),
        r <= 0xFFFF,
        is_hex_digit(h0) && is_hex_digit(h1) && is_hex_digit(h2) && is_hex_digit(h3) ==> r
            == hex4_value(h0, h1, h2, h3),
{
    // read the 4 hex digits
    let mut hex: u32 = ((h0 as u32) << 24) | ((h1 as u32) << 16) | ((h2 as u32) << 8) | (
    h3 as u32);
    // subtract '0'
    hex = hex.wrapping_sub(0x30303030);
    // strip the higher bits, maps 'a' => 'A'
    hex = hex & 0x1F1F1F1F;
    let mask: u32 = hex & 0x10101010;
    // subtract 'A' - 10 - '9' - 9 = 7 from the letters.
    hex = hex.wrapping_sub(mask >> 1);
    hex = hex.wrapping_add(mask >> 4);
    // collect the nibbles
    hex = hex | (hex >> 4);
    hex = hex & 0x00FF00FF;
    hex = hex | (hex >> 8);
    let r: u32 = hex & 0xFFFF;
    proof {
        assert(hex & 0xFFFF <= 0xFFFF) by (bit_vector);
        if is_hex_digit(h0) && is_hex_digit(h1) && is_hex_digit(h2) && is_hex_digit(h3) {
            lemma_swar4_hex_digits(h0, h1, h2, h3);
        }
    }
    r
}

} // verus!
