//! The picture kept of an app that was left: the whole screen, scaled down.
//!
//! Sample positions fall on sixteenths of a source pixel, so that bilinear
//! weights are whole numbers and the result is exact.
use vstd::prelude::*;

verus! {

/// Picture size.
pub const SHOT_W: u32 = 256;

pub const SHOT_H: u32 = 128;

/// Bytes of a picture, four for each pixel.
pub const SHOT_BYTES: usize = 131072;

/// Bytes from one row of the display buffer to the next.
pub const FB_STRIDE_BYTES: usize = 2048;

/// Bytes of the display buffer.
pub const FB_BYTES: usize = 557056;

/// Position of picture column `dx` in sixteenths of a source pixel: the centre
/// of the column, scaled from 256 to 480.
pub open spec fn src_x16(dx: int) -> int {
    (2 * dx + 1) * 15 - 8
}

/// Position of picture row `dy` in sixteenths of a source pixel: the centre of
/// the row, scaled from 128 to 272.
pub open spec fn src_y16(dy: int) -> int {
    (2 * dy + 1) * 17 - 8
}

pub open spec fn at_most(v: int, max: int) -> int {
    if v < max {
        v
    } else {
        max
    }
}

/// Channel `c` of the source pixel at `(x, y)`.
pub open spec fn source(frame: Seq<u8>, x: int, y: int, c: int) -> int {
    frame[y * FB_STRIDE_BYTES + 4 * x + c] as int
}

/// Four neighbours weighted by `fx` and `fy` sixteenths, rounded to nearest.
pub open spec fn bilinear(p00: int, p01: int, p10: int, p11: int, fx: int, fy: int) -> int {
    let top = p00 * (16 - fx) + p01 * fx;
    let bottom = p10 * (16 - fx) + p11 * fx;
    (top * (16 - fy) + bottom * fy + 128) / 256
}

/// Channel `c` of picture pixel `(dx, dy)`. Pictures are opaque.
pub open spec fn shot_channel(frame: Seq<u8>, dx: int, dy: int, c: int) -> int {
    let x0 = src_x16(dx) / 16;
    let y0 = src_y16(dy) / 16;
    let x1 = at_most(x0 + 1, 479);
    let y1 = at_most(y0 + 1, 271);
    if c == 3 {
        255
    } else {
        bilinear(
            source(frame, x0, y0, c),
            source(frame, x1, y0, c),
            source(frame, x0, y1, c),
            source(frame, x1, y1, c),
            src_x16(dx) % 16,
            src_y16(dy) % 16,
        )
    }
}

/// Byte `k` of the picture of a frame.
pub open spec fn shot_byte(frame: Seq<u8>, k: int) -> u8 {
    let p = k / 4;
    shot_channel(frame, p % 256, p / 256, k % 4) as u8
}

/// The picture of a frame.
pub open spec fn shot_of(frame: Seq<u8>) -> Seq<u8> {
    Seq::new(SHOT_BYTES as nat, |k: int| shot_byte(frame, k))
}

/// A weighted mean lies between its smallest and its largest sample, so that
/// an evenly coloured screen gives an evenly coloured picture.
pub proof fn law_bilinear_between(
    p00: int,
    p01: int,
    p10: int,
    p11: int,
    fx: int,
    fy: int,
    lo: int,
    hi: int,
)
    requires
        0 <= fx < 16,
        0 <= fy < 16,
        lo <= p00 <= hi,
        lo <= p01 <= hi,
        lo <= p10 <= hi,
        lo <= p11 <= hi,
    ensures
        lo <= bilinear(p00, p01, p10, p11, fx, fy) <= hi,
{
    let top = p00 * (16 - fx) + p01 * fx;
    let bottom = p10 * (16 - fx) + p11 * fx;
    lemma_weighted(p00, p01, fx, lo, hi);
    lemma_weighted(p10, p11, fx, lo, hi);
    lemma_weighted(top, bottom, fy, 16 * lo, 16 * hi);
}

proof fn lemma_weighted(a: int, b: int, f: int, lo: int, hi: int)
    by (nonlinear_arith)
    requires
        0 <= f < 16,
        lo <= a <= hi,
        lo <= b <= hi,
    ensures
        16 * lo <= a * (16 - f) + b * f <= 16 * hi,
{
}

fn channel(frame: &[u8], x: usize, y: usize, c: usize) -> (r: u32)
    requires
        frame@.len() == FB_BYTES,
        x < 480,
        y < 272,
        c < 3,
    ensures
        r == source(frame@, x as int, y as int, c as int),
        r <= 255,
{
    frame[y * FB_STRIDE_BYTES + 4 * x + c] as u32
}

fn mix(p00: u32, p01: u32, p10: u32, p11: u32, fx: u32, fy: u32) -> (r: u8)
    requires
        p00 <= 255,
        p01 <= 255,
        p10 <= 255,
        p11 <= 255,
        fx < 16,
        fy < 16,
    ensures
        r == bilinear(p00 as int, p01 as int, p10 as int, p11 as int, fx as int, fy as int),
{
    proof {
        let (a, b, c, d) = (p00 as int, p01 as int, p10 as int, p11 as int);
        let (x, y) = (fx as int, fy as int);
        law_bilinear_between(a, b, c, d, x, y, 0, 255);
        lemma_weighted(a, b, x, 0, 255);
        lemma_weighted(c, d, x, 0, 255);
        lemma_weighted(a * (16 - x) + b * x, c * (16 - x) + d * x, y, 0, 4080);
        crate::arith::lemma_mul_bounds(a, 16 - x, 255, 16);
        crate::arith::lemma_mul_bounds(b, x, 255, 16);
        crate::arith::lemma_mul_bounds(c, 16 - x, 255, 16);
        crate::arith::lemma_mul_bounds(d, x, 255, 16);
        crate::arith::lemma_mul_bounds(a * (16 - x) + b * x, 16 - y, 4080, 16);
        crate::arith::lemma_mul_bounds(c * (16 - x) + d * x, y, 4080, 16);
    }
    let top: u32 = p00 * (16 - fx) + p01 * fx;
    let bottom: u32 = p10 * (16 - fx) + p11 * fx;
    ((top * (16 - fy) + bottom * fy + 128) / 256) as u8
}

/// Scales the display buffer down to a picture.
pub fn downscale(frame: &[u8]) -> (shot: Vec<u8>)
    requires
        frame@.len() == FB_BYTES,
    ensures
        shot@ == shot_of(frame@),
{
    let mut shot: Vec<u8> = Vec::new();
    let mut p: usize = 0;
    while p < 32768
        invariant
            frame@.len() == FB_BYTES,
            p <= 32768,
            shot@ == Seq::new((4 * p) as nat, |k: int| shot_byte(frame@, k)),
        decreases 32768 - p,
    {
        let dx: usize = p % 256;
        let dy: usize = p / 256;
        let sx: usize = (2 * dx + 1) * 15 - 8;
        let sy: usize = (2 * dy + 1) * 17 - 8;
        let x0: usize = sx / 16;
        let y0: usize = sy / 16;
        let x1: usize = if x0 + 1 < 479 {
            x0 + 1
        } else {
            479
        };
        let y1: usize = if y0 + 1 < 271 {
            y0 + 1
        } else {
            271
        };
        let fx: u32 = (sx % 16) as u32;
        let fy: u32 = (sy % 16) as u32;
        let mut c: usize = 0;
        while c < 3
            invariant
                frame@.len() == FB_BYTES,
                p < 32768,
                c <= 3,
                dx == p % 256,
                dy == p / 256,
                sx == src_x16(dx as int),
                sy == src_y16(dy as int),
                x0 == sx / 16,
                y0 == sy / 16,
                x1 == at_most(x0 + 1, 479),
                y1 == at_most(y0 + 1, 271),
                fx == sx % 16,
                fy == sy % 16,
                x0 < 480,
                y0 < 272,
                shot@ == Seq::new((4 * p + c) as nat, |k: int| shot_byte(frame@, k)),
            decreases 3 - c,
        {
            let v: u8 = mix(
                channel(frame, x0, y0, c),
                channel(frame, x1, y0, c),
                channel(frame, x0, y1, c),
                channel(frame, x1, y1, c),
                fx,
                fy,
            );
            shot.push(v);
            proof {
                assert(shot_byte(frame@, 4 * p + c) == v);
                assert(shot@ =~= Seq::new((4 * p + c + 1) as nat, |k: int| shot_byte(frame@, k)));
            }
            c = c + 1;
        }
        shot.push(0xff);
        proof {
            assert(shot_byte(frame@, 4 * p + 3) == 0xff);
            assert(shot@ =~= Seq::new((4 * (p + 1)) as nat, |k: int| shot_byte(frame@, k)));
        }
        p = p + 1;
    }
    proof {
        assert(shot@ =~= shot_of(frame@));
    }
    shot
}

} // verus!
