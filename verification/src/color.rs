//! RGB colors and the bounded random mutation that derives a child cell's
//! color from its parent's.

use vstd::prelude::*;

verus! {

/// An RGB color. Each channel is an 8-bit value, so every color the engine
/// ever holds is representable and within [0, 255] by construction.
#[derive(Clone, Copy, Debug, PartialEq, Eq, Structural)]
pub struct Color {
    pub r: u8,
    pub g: u8,
    pub b: u8,
}

/// One triple of raw random bytes, consumed when deriving a child cell's
/// color from its parent's color.
#[derive(Clone, Copy, Debug, PartialEq, Eq, Structural)]
pub struct ColorDraw {
    pub r: u8,
    pub g: u8,
    pub b: u8,
}

/// Clamp an integer to the representable channel range [0, 255].
pub open spec fn spec_clamp(v: int) -> int {
    if v < 0 {
        0
    } else if v > 255 {
        255
    } else {
        v
    }
}

/// The signed delta derived from one raw random byte: uniform over
/// [0, factor) and recentred by factor / 2. A factor of zero means no
/// randomness at all, so the delta is zero.
pub open spec fn spec_delta(raw: u8, factor: u8) -> int {
    if factor == 0 {
        0
    } else {
        raw as int % factor as int - factor as int / 2
    }
}

/// The channel value a child inherits: parent plus delta, clamped.
pub open spec fn spec_mutate_channel(parent: u8, raw: u8, factor: u8) -> int {
    spec_clamp(parent as int + spec_delta(raw, factor))
}

/// The whole child color: each channel mutated independently.
pub open spec fn spec_mutate(parent: Color, draw: ColorDraw, factor: u8) -> Color {
    Color {
        r: spec_mutate_channel(parent.r, draw.r, factor) as u8,
        g: spec_mutate_channel(parent.g, draw.g, factor) as u8,
        b: spec_mutate_channel(parent.b, draw.b, factor) as u8,
    }
}

/// Derive one channel of a child color from the parent's channel and one
/// raw random byte.
pub fn mutate_channel(parent: u8, raw: u8, factor: u8) -> (r: u8)
    ensures
        r as int == spec_mutate_channel(parent, raw, factor),
{
    let delta: i32 = if factor == 0 {
        0
    } else {
        (raw % factor) as i32 - factor as i32 / 2
    };
    let v: i32 = parent as i32 + delta;
    if v < 0 {
        0
    } else if v > 255 {
        255
    } else {
        v as u8
    }
}

/// Derive a child color from its parent's color and one triple of raw
/// random bytes.
pub fn mutate(parent: Color, draw: ColorDraw, factor: u8) -> (r: Color)
    ensures
        r == spec_mutate(parent, draw, factor),
{
    Color {
        r: mutate_channel(parent.r, draw.r, factor),
        g: mutate_channel(parent.g, draw.g, factor),
        b: mutate_channel(parent.b, draw.b, factor),
    }
}

/// Clamping always lands in the channel range, and clamping an already
/// clamped value changes nothing.
pub proof fn lemma_clamp_bounds_idempotent(v: int)
    ensures
        0 <= spec_clamp(v) <= 255,
        spec_clamp(spec_clamp(v)) == spec_clamp(v),
{
}

/// Mutation bound law: each channel of a child color differs from the
/// corresponding channel of its parent by at most factor / 2, and the
/// delta itself already lies within that band before clamping.
pub proof fn lemma_mutation_bound(parent: Color, draw: ColorDraw, factor: u8)
    ensures
        -(factor as int / 2) <= spec_delta(draw.r, factor) <= factor as int / 2,
        ({
            let child = spec_mutate(parent, draw, factor);
            &&& -(factor as int / 2) <= child.r - parent.r <= factor as int / 2
            &&& -(factor as int / 2) <= child.g - parent.g <= factor as int / 2
            &&& -(factor as int / 2) <= child.b - parent.b <= factor as int / 2
        }),
{
}

} // verus!
