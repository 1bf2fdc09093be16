//! Packed sRGB color words.
//!
//! A color constant such as `0xff00ff` packs its three 8-bit channels into
//! one `u32`. Extracting the channels is exact integer work and is proved
//! here; converting a channel byte to a linear-RGB intensity (the gamma
//! curve) is floating-point and belongs to the application layer.

use vstd::prelude::*;

verus! {

/// The red channel of a packed `0xRRGGBB` color word.
pub open spec fn red_of(x: u32) -> u8 {
    ((x >> 16) & 0xff) as u8
}

/// The green channel of a packed `0xRRGGBB` color word.
pub open spec fn green_of(x: u32) -> u8 {
    ((x >> 8) & 0xff) as u8
}

/// The blue channel of a packed `0xRRGGBB` color word.
pub open spec fn blue_of(x: u32) -> u8 {
    (x & 0xff) as u8
}

/// Split a packed `0xRRGGBB` color word into its three channel bytes.
pub fn hex_channels(x: u32) -> (rgb: (u8, u8, u8))
    ensures
        rgb.0 == red_of(x),
        rgb.1 == green_of(x),
        rgb.2 == blue_of(x),
{
    proof {
        assert((x >> 16) & 0xff < 256 && (x >> 8) & 0xff < 256 && x & 0xff < 256) by (bit_vector);
    }
    (((x >> 16) & 0xff) as u8, ((x >> 8) & 0xff) as u8, (x & 0xff) as u8)
}

/// Pack three channel bytes into a `0xRRGGBB` color word.
pub fn pack_channels(r: u8, g: u8, b: u8) -> (x: u32)
    ensures
        x == ((r as u32) << 16) | ((g as u32) << 8) | (b as u32),
{
    ((r as u32) << 16) | ((g as u32) << 8) | (b as u32)
}

/// Packing three channel bytes and extracting them again returns the same
/// bytes: the integer half of the hex-color round trip. The other half,
/// through the gamma curve, is floating point and only approximate.
pub proof fn lemma_channels_roundtrip(r: u8, g: u8, b: u8)
    ensures
        red_of(((r as u32) << 16) | ((g as u32) << 8) | (b as u32)) == r,
        green_of(((r as u32) << 16) | ((g as u32) << 8) | (b as u32)) == g,
        blue_of(((r as u32) << 16) | ((g as u32) << 8) | (b as u32)) == b,
{
    let x = ((r as u32) << 16) | ((g as u32) << 8) | (b as u32);
    assert(r < 256 && g < 256 && b < 256) by (bit_vector);
    assert(((((r as u32) << 16) | ((g as u32) << 8) | (b as u32)) >> 16) & 0xff == r as u32)
        by (bit_vector);
    assert(((((r as u32) << 16) | ((g as u32) << 8) | (b as u32)) >> 8) & 0xff == g as u32)
        by (bit_vector);
    assert(((((r as u32) << 16) | ((g as u32) << 8) | (b as u32))) & 0xff == b as u32)
        by (bit_vector);
}

} // verus!
