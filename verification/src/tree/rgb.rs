//! Opaque colors packed into a `u32`.
use vstd::prelude::*;

verus! {

/// The packed value of an opaque color: little endian `[r, g, b, 255]`, i.e. `0xFFbbggrr`.
pub open spec fn pack_rgb(r: u8, g: u8, b: u8) -> u32 {
    (r as int + g as int * 0x100 + b as int * 0x1_0000 + 0xFF00_0000) as u32
}

/// A color with full alpha, packed as `0xFFbbggrr` (little endian `[r, g, b, 255]`).
/// The packed value is never zero.
#[derive(Clone, Copy, PartialEq, Eq, Structural, Debug)]
pub struct Rgb(pub u32);

/// Why a color could not be turned into an `Rgb`.
#[derive(Clone, Copy, PartialEq, Eq, Structural, Debug)]
pub enum RgbError {
    /// The alpha channel is not 255.
    AlphaNotOpaque,
}

impl Rgb {
    /// A recognizable placeholder for storage that holds no color.
    pub fn uninit() -> (r: Self)
        ensures
            r.0 == 0xABCD_EFAB,
    {
        Rgb(0xABCD_EFAB)
    }

    /// The opaque color with the given channels.
    pub fn new(r: u8, g: u8, b: u8) -> (c: Self)
        ensures
            c.0 == pack_rgb(r, g, b),
            c.0 != 0,
    {
        Rgb(r as u32 + g as u32 * 0x100 + b as u32 * 0x1_0000 + 0xFF00_0000)
    }

    /// The color with the given channels, which must be opaque.
    pub fn try_from_rgba(r: u8, g: u8, b: u8, a: u8) -> (c: Result<Self, RgbError>)
        ensures
            c.is_ok() <==> a == 255,
            c matches Ok(v) ==> v.0 == pack_rgb(r, g, b),
    {
        if a != 255 {
            return Err(RgbError::AlphaNotOpaque);
        }
        Ok(Self::new(r, g, b))
    }

    /// The red, green, blue and alpha channels: little endian bytes of the packed value.
    pub fn to_rgba(self) -> (c: (u8, u8, u8, u8))
        ensures
            c.0 == self.0 % 0x100,
            c.1 == (self.0 / 0x100) % 0x100,
            c.2 == (self.0 / 0x1_0000) % 0x100,
            c.3 == self.0 / 0x100_0000,
            self.0 == c.0 as int + c.1 as int * 0x100 + c.2 as int * 0x1_0000 + c.3 as int * 0x100_0000,
    {
        let v = self.0;
        ((v % 0x100) as u8, ((v / 0x100) % 0x100) as u8, ((v / 0x1_0000) % 0x100) as u8, (v / 0x100_0000) as u8)
    }
}

/// Unpacking a packed opaque color gives back its channels.
pub proof fn lemma_rgb_roundtrip(r: u8, g: u8, b: u8)
    ensures
        pack_rgb(r, g, b) % 0x100 == r,
        (pack_rgb(r, g, b) / 0x100) % 0x100 == g,
        (pack_rgb(r, g, b) / 0x1_0000) % 0x100 == b,
        pack_rgb(r, g, b) / 0x100_0000 == 255,
{
    let v = r as int + g as int * 0x100 + b as int * 0x1_0000 + 0xFF00_0000;
    vstd::arithmetic::div_mod::lemma_fundamental_div_mod_converse(v, 0x100, g as int + b as int * 0x100 + 0xFF_0000, r as int);
    vstd::arithmetic::div_mod::lemma_fundamental_div_mod_converse(g as int + b as int * 0x100 + 0xFF_0000, 0x100, b as int + 0xFF00, g as int);
    vstd::arithmetic::div_mod::lemma_fundamental_div_mod_converse(v, 0x1_0000, b as int + 0xFF00, r as int + g as int * 0x100);
    vstd::arithmetic::div_mod::lemma_fundamental_div_mod_converse(b as int + 0xFF00, 0x100, 0xFF, b as int);
    vstd::arithmetic::div_mod::lemma_fundamental_div_mod_converse(v, 0x100_0000, 0xFF, r as int + g as int * 0x100 + b as int * 0x1_0000);
}

} // verus!
