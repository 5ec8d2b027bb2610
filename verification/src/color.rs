use vstd::prelude::*;

verus! {

/// An immutable three-channel RGB color. Channels are 8-bit, so every value
/// is in [0, 255] by construction; colors are copied by value and compared
/// channel by channel.
#[derive(Clone, Copy, PartialEq, Eq, Structural, Debug)]
pub struct Color {
    pub r: u8,
    pub g: u8,
    pub b: u8,
}

/// The 24-bit packed form of a color: red in the top byte, then green, then blue.
pub open spec fn packed(c: Color) -> u32 {
    ((c.r as u32) << 16) | ((c.g as u32) << 8) | (c.b as u32)
}

/// The color held in the low 24 bits of a packed value.
pub open spec fn unpacked(hex: u32) -> Color {
    Color {
        r: ((hex >> 16) & 0xFF) as u8,
        g: ((hex >> 8) & 0xFF) as u8,
        b: (hex & 0xFF) as u8,
    }
}

impl Color {
    pub fn new(r: u8, g: u8, b: u8) -> (c: Color)
        ensures
            c == (Color { r, g, b }),
    {
        Color { r, g, b }
    }

    pub fn from_hex(hex: u32) -> (c: Color)
        ensures
            c == unpacked(hex),
    {
        Color {
            r: ((hex >> 16) & 0xFF) as u8,
            g: ((hex >> 8) & 0xFF) as u8,
            b: (hex & 0xFF) as u8,
        }
    }

    pub fn to_hex(&self) -> (p: u32)
        ensures
            p == packed(*self),
    {
        ((self.r as u32) << 16) | ((self.g as u32) << 8) | (self.b as u32)
    }
}

/// Packing is lossless: unpacking the packed form of any color gives the
/// color back, channel for channel.
pub proof fn lemma_pack_unpack(c: Color)
    ensures
        unpacked(packed(c)) == c,
{
    let r = c.r;
    let g = c.g;
    let b = c.b;
    assert(((((r as u32) << 16) | ((g as u32) << 8) | (b as u32)) >> 16) & 0xFF == r as u32)
        by (bit_vector);
    assert(((((r as u32) << 16) | ((g as u32) << 8) | (b as u32)) >> 8) & 0xFF == g as u32)
        by (bit_vector);
    assert((((r as u32) << 16) | ((g as u32) << 8) | (b as u32)) & 0xFF == b as u32)
        by (bit_vector);
}

/// A packed value below 2^24 survives a round trip through unpacking.
pub proof fn lemma_unpack_pack(hex: u32)
    requires
        hex <= 0xFFFFFF,
    ensures
        packed(unpacked(hex)) == hex,
{
    assert((((((hex >> 16) & 0xFF) as u8) as u32) << 16) | (((((hex >> 8) & 0xFF) as u8) as u32)
        << 8) | (((hex & 0xFF) as u8) as u32) == hex) by (bit_vector)
        requires
            hex <= 0xFFFFFF,
    ;
}

} // verus!
