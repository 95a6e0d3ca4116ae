//! Colors: three 8-bit channels packed into one 32-bit word, and
//! brightness scaling with clamping.

use vstd::prelude::*;
use crate::fixed::{FX_ONE, FX_LIM, fx_round, fx_round_spec, lemma_round_near_multiple,
    lemma_round_monotone};
use vstd::arithmetic::mul::lemma_mul_inequality;

verus! {

/// An RGB color with 8 bits per channel.
#[derive(Clone, Copy, Debug, PartialEq, Eq, Structural)]
pub struct Color {
    pub r: u8,
    pub g: u8,
    pub b: u8,
}

/// The packed 24-bit word for three channels: red high, blue low.
pub open spec fn pack_rgb(r: u8, g: u8, b: u8) -> u32 {
    (((r as u32) * 0x1_0000) + ((g as u32) * 0x100) + (b as u32)) as u32
}

/// The color whose channels are the low 24 bits of `w`.
pub open spec fn unpack_rgb(w: u32) -> Color {
    Color {
        r: ((w >> 16) & 0xff) as u8,
        g: ((w >> 8) & 0xff) as u8,
        b: (w & 0xff) as u8,
    }
}

/// One channel multiplied by a fixed-point factor, rounded to the nearest
/// integer and clamped to the 8-bit range.
pub open spec fn scaled_channel_spec(c: u8, f: int) -> u8 {
    let v = fx_round_spec(c as int * f);
    if v < 0 {
        0u8
    } else if v > 255 {
        255u8
    } else {
        v as u8
    }
}

/// All three channels scaled by the same fixed-point factor.
pub open spec fn scaled_spec(c: Color, f: int) -> Color {
    Color {
        r: scaled_channel_spec(c.r, f),
        g: scaled_channel_spec(c.g, f),
        b: scaled_channel_spec(c.b, f),
    }
}

impl Color {
    /// Unpacks the low 24 bits of a word into the three channels.
    pub fn new(hexcode: u32) -> (c: Color)
        ensures
            c == unpack_rgb(hexcode),
            hexcode <= 0xff_ffff ==> pack_rgb(c.r, c.g, c.b) == hexcode,
    {
        let r: u8 = #[verifier::truncate] ((hexcode >> 16) as u8);
        let g: u8 = #[verifier::truncate] ((hexcode >> 8) as u8);
        let b: u8 = #[verifier::truncate] (hexcode as u8);
        proof {
            assert(r == ((hexcode >> 16) & 0xff) as u8
                && g == ((hexcode >> 8) & 0xff) as u8
                && b == (hexcode & 0xff) as u8
                && (hexcode <= 0xff_ffff ==>
                    (r as u32) * 0x1_0000 + (g as u32) * 0x100 + (b as u32) == hexcode))
                by (bit_vector)
                requires
                    r == (hexcode >> 16) as u8,
                    g == (hexcode >> 8) as u8,
                    b == hexcode as u8;
        }
        Color { r, g, b }
    }

    /// Packs the three channels back into one word, red channel high.
    pub fn as_u32(&self) -> (w: u32)
        ensures
            w == pack_rgb(self.r, self.g, self.b),
            w <= 0xff_ffff,
    {
        let w: u32 = ((self.r as u32) << 16) | ((self.g as u32) << 8) | (self.b as u32);
        proof {
            let r = self.r;
            let g = self.g;
            let b = self.b;
            assert((((r as u32) << 16) | ((g as u32) << 8) | (b as u32))
                == (r as u32) * 0x1_0000 + (g as u32) * 0x100 + (b as u32)
                && (r as u32) * 0x1_0000 + (g as u32) * 0x100 + (b as u32) <= 0xff_ffff)
                by (bit_vector);
        }
        w
    }

    /// A copy of the color with each channel multiplied by the fixed-point
    /// `factor`, rounded and clamped to the 8-bit range.
    pub fn scaled(&self, factor: i64) -> (c: Color)
        requires
            -FX_LIM <= factor <= FX_LIM,
        ensures
            c == scaled_spec(*self, factor as int),
    {
        Color {
            r: scale_channel(self.r, factor),
            g: scale_channel(self.g, factor),
            b: scale_channel(self.b, factor),
        }
    }
}

/// One channel of `Color::scaled`.
fn scale_channel(c: u8, f: i64) -> (r: u8)
    requires
        -FX_LIM <= f <= FX_LIM,
    ensures
        r == scaled_channel_spec(c, f as int),
{
    proof {
        assert((c as int) * (f as int) <= 255 * (FX_LIM as int)
            && (c as int) * (f as int) >= -255 * (FX_LIM as int)) by (nonlinear_arith)
            requires 0 <= c <= 255, -FX_LIM <= f <= FX_LIM;
    }
    let p: i64 = (c as i64) * f;
    let v: i64 = fx_round(p);
    if v < 0 {
        0
    } else if v > 255 {
        255
    } else {
        v as u8
    }
}

/// Packing a color's channels into a word and unpacking them again
/// recovers the color exactly, for every 8-bit channel triple.
pub proof fn lemma_color_round_trip(c: Color)
    ensures
        unpack_rgb(pack_rgb(c.r, c.g, c.b)) == c,
        pack_rgb(c.r, c.g, c.b) <= 0xff_ffff,
{
    let r = c.r;
    let g = c.g;
    let b = c.b;
    let w = pack_rgb(r, g, b);
    assert(((((r as u32) * 0x1_0000 + (g as u32) * 0x100 + (b as u32)) as u32 >> 16) & 0xff) as u8 == r
        && ((((r as u32) * 0x1_0000 + (g as u32) * 0x100 + (b as u32)) as u32 >> 8) & 0xff) as u8 == g
        && ((((r as u32) * 0x1_0000 + (g as u32) * 0x100 + (b as u32)) as u32) & 0xff) as u8 == b
        && ((r as u32) * 0x1_0000 + (g as u32) * 0x100 + (b as u32)) <= 0xff_ffff)
        by (bit_vector);
}

/// Scaling by the fixed-point unit is the identity on colors.
pub proof fn lemma_scaled_identity(c: Color)
    ensures
        scaled_spec(c, FX_ONE as int) == c,
{
    lemma_round_near_multiple(c.r as int, 0);
    lemma_round_near_multiple(c.g as int, 0);
    lemma_round_near_multiple(c.b as int, 0);
}

/// Scaling by zero yields black.
pub proof fn lemma_scaled_black(c: Color)
    ensures
        scaled_spec(c, 0) == (Color { r: 0, g: 0, b: 0 }),
{
    lemma_round_near_multiple(0, 0);
    assert(c.r as int * 0 == 0);
    assert(c.g as int * 0 == 0);
    assert(c.b as int * 0 == 0);
}

/// Scaling by a factor of at least one unit never lowers a channel and
/// never leaves the 8-bit range: channels clamp at 255 instead of wrapping.
pub proof fn lemma_scaled_clamps(c: Color, f: int)
    requires
        f >= FX_ONE,
    ensures
        scaled_spec(c, f).r >= c.r,
        scaled_spec(c, f).g >= c.g,
        scaled_spec(c, f).b >= c.b,
        scaled_spec(c, f).r <= 255,
        scaled_spec(c, f).g <= 255,
        scaled_spec(c, f).b <= 255,
{
    lemma_scaled_channel_clamps(c.r, f);
    lemma_scaled_channel_clamps(c.g, f);
    lemma_scaled_channel_clamps(c.b, f);
}

proof fn lemma_scaled_channel_clamps(ch: u8, f: int)
    requires
        f >= FX_ONE,
    ensures
        scaled_channel_spec(ch, f) >= ch,
{
    lemma_mul_inequality(FX_ONE as int, f, ch as int);
    assert(ch as int * f >= ch as int * (FX_ONE as int)) by {
        vstd::arithmetic::mul::lemma_mul_is_commutative(ch as int, f);
        vstd::arithmetic::mul::lemma_mul_is_commutative(ch as int, FX_ONE as int);
    }
    lemma_round_monotone(ch as int * (FX_ONE as int), ch as int * f);
    lemma_round_near_multiple(ch as int, 0);
}

} // verus!
