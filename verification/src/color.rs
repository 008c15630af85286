//! Packed colours and coverage, in 8-bit fixed point.
//!
//! A colour holds alpha, blue, green and red from its top byte down.
use crate::arith::lemma_mul_bounds;
use crate::glyph::color_alpha;
use vstd::prelude::*;

verus! {

/// A number of 8-bit scale: at most 255.
pub open spec fn byte_scale(v: int) -> int {
    if v < 255 {
        v
    } else {
        255
    }
}

/// The product of two numbers of 8-bit scale, rounded to nearest.
pub open spec fn scaled(a: int, b: int) -> int {
    (a * b + 127) / 255
}

/// The colour with its alpha replaced.
pub open spec fn with_alpha_of(color: u32, a: int) -> int {
    color as int % 0x100_0000 + 0x100_0000 * a
}

/// The colour under coverage: its alpha scaled.
pub open spec fn covered(color: u32, coverage: int) -> int {
    with_alpha_of(color, scaled(color_alpha(color), byte_scale(coverage)))
}

proof fn lemma_scaled_bounds(a: int, b: int)
    requires
        0 <= a <= 255,
        0 <= b <= 255,
    ensures
        0 <= a * b <= 65025,
        0 <= scaled(a, b) <= 255,
        scaled(a, b) <= a,
        scaled(a, b) <= b,
{
    lemma_mul_bounds(a, b, 255, 255);
    lemma_mul_bounds(a, b, a, 255);
    lemma_mul_bounds(a, b, 255, b);
}

/// Alpha of a colour.
pub fn alpha(color: u32) -> (a: u32)
    ensures
        a == color_alpha(color),
        a <= 255,
{
    color / 0x100_0000
}

/// Replaces the alpha of a colour by the low eight bits of `a`.
pub fn with_alpha_abgr(color: u32, a: u32) -> (r: u32)
    ensures
        r == with_alpha_of(color, a as int % 0x100),
{
    color % 0x100_0000 + 0x100_0000 * (a % 0x100)
}

/// Scales the alpha of a colour by coverage.
pub fn scale_alpha_coverage(color: u32, coverage: u32) -> (r: u32)
    ensures
        r == covered(color, coverage as int),
{
    let c: u32 = if coverage < 255 {
        coverage
    } else {
        255
    };
    proof {
        lemma_scaled_bounds(color_alpha(color), c as int);
    }
    let a: u32 = (alpha(color) * c + 127) / 255;
    with_alpha_abgr(color, a)
}

/// The coverage of two coverages together.
pub fn coverage_mul(a: u32, b: u32) -> (r: u32)
    ensures
        r == scaled(byte_scale(a as int), byte_scale(b as int)),
        r <= 255,
{
    let x: u32 = if a < 255 {
        a
    } else {
        255
    };
    let y: u32 = if b < 255 {
        b
    } else {
        255
    };
    proof {
        lemma_scaled_bounds(x as int, y as int);
    }
    (x * y + 127) / 255
}

/// Coverage composes like a product: in either order, full coverage changes
/// nothing, none leaves nothing, and two together never cover more than one.
pub proof fn law_coverage_product(a: int, b: int)
    requires
        0 <= a <= 255,
        0 <= b <= 255,
    ensures
        scaled(a, b) == scaled(b, a),
        scaled(a, 255) == a,
        scaled(a, 0) == 0,
        0 <= scaled(a, b) <= a,
        scaled(a, b) <= b,
{
    assert(a * b == b * a) by (nonlinear_arith);
    lemma_scaled_bounds(a, b);
}

/// Coverage keeps the colour channels; under full coverage a colour stays as
/// it is, and under none it is invisible.
pub proof fn law_coverage_of_a_color(color: u32, coverage: int)
    requires
        0 <= coverage,
    ensures
        0 <= covered(color, coverage) <= u32::MAX,
        covered(color, coverage) % 0x100_0000 == color as int % 0x100_0000,
        coverage >= 255 ==> covered(color, coverage) == color,
        coverage == 0 ==> covered(color, coverage) / 0x100_0000 == 0,
{
    lemma_scaled_bounds(color_alpha(color), byte_scale(coverage));
    law_coverage_product(color_alpha(color), byte_scale(coverage));
}

/// The colour under `quarters` quarters of coverage.
pub open spec fn quarter_covered(color: u32, quarters: int) -> int {
    if quarters >= 4 {
        color as int
    } else {
        with_alpha_of(color, (color_alpha(color) * quarters + 2) / 4)
    }
}

/// Scales the alpha of a colour by quarters, rounded to nearest.
pub fn scale_alpha_quarters(color: u32, quarters: u8) -> (r: u32)
    ensures
        r == quarter_covered(color, quarters as int),
{
    if quarters >= 4 {
        return color;
    }
    let a: u32 = alpha(color);
    proof {
        lemma_mul_bounds(a as int, quarters as int, 255, 3);
    }
    with_alpha_abgr(color, (a * quarters as u32 + 2) / 4)
}

} // verus!
