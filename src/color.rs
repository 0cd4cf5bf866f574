use vstd::prelude::*;

verus! {

/// An RGBA color with one byte per channel, not premultiplied.
#[derive(Clone, Copy, Debug, PartialEq, Eq, Structural)]
pub struct Rgba {
    pub r: u8,
    pub g: u8,
    pub b: u8,
    pub a: u8,
}

impl Rgba {
    /// A fully opaque color.
    pub fn rgb(r: u8, g: u8, b: u8) -> (c: Rgba)
        ensures
            c == (Rgba { r, g, b, a: 255 }),
    {
        Rgba { r, g, b, a: 255 }
    }

    pub fn rgba(r: u8, g: u8, b: u8, a: u8) -> (c: Rgba)
        ensures
            c == (Rgba { r, g, b, a }),
    {
        Rgba { r, g, b, a }
    }

    /// The same color with its alpha replaced.
    pub fn with_alpha(self, a: u8) -> (c: Rgba)
        ensures
            c == (Rgba { a, ..self }),
    {
        Rgba { a, ..self }
    }
}

/// Opaque black, the font color used when the style names none.
pub fn black() -> (c: Rgba)
    ensures
        c == (Rgba { r: 0, g: 0, b: 0, a: 255 }),
{
    Rgba::rgb(0, 0, 0)
}

/// Source-over composition of one channel: `src * a + dst * (1 - a)`, with
/// `a` scaled to `0..=255` and the result truncated to a byte.
pub open spec fn blend_channel(src: int, dst: int, a: int) -> int {
    (src * a + dst * (255 - a)) / 255
}

proof fn lemma_blend_channel_bounds(src: int, dst: int, a: int)
    requires
        0 <= src <= 255,
        0 <= dst <= 255,
        0 <= a <= 255,
    ensures
        0 <= src * a + dst * (255 - a) <= 255 * 255,
        0 <= blend_channel(src, dst, a) <= 255,
{
    assert(0 <= src * a <= 255 * a) by (nonlinear_arith)
        requires
            0 <= src <= 255,
            0 <= a <= 255,
    ;
    assert(0 <= dst * (255 - a) <= 255 * (255 - a)) by (nonlinear_arith)
        requires
            0 <= dst <= 255,
            0 <= a <= 255,
    ;
}

/// An opaque source replaces the destination channel exactly.
pub proof fn lemma_blend_opaque(src: int, dst: int)
    ensures
        blend_channel(src, dst, 255) == src,
{
    assert(src * 255 + dst * 0 == src * 255) by (nonlinear_arith);
    assert((src * 255) / 255 == src) by (nonlinear_arith);
}

/// Blends one channel, as `blend_channel` states.
pub fn blend_channel_exec(src: u8, dst: u8, a: u8) -> (r: u8)
    ensures
        r == blend_channel(src as int, dst as int, a as int),
{
    proof {
        lemma_blend_channel_bounds(src as int, dst as int, a as int);
    }
    let s = src as u32;
    let d = dst as u32;
    let al = a as u32;
    let v = (s * al + d * (255 - al)) / 255;
    v as u8
}

} // verus!
